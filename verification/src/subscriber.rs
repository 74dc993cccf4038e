//! A subscriber of the datagram benchmark: it follows the sequence numbers of its topics, asks for
//! what it missed, and measures latencies.

use crate::address::SocketAddress;
use crate::bench;
use crate::histogram;
use crate::histogram::LatencyHistogram;
use crate::protocol;
use crate::protocol::{
    build_nack_packet, parse_packet, BenchPayload, NackMsg, MSG_DATA, MSG_NACK, MSG_RETRANSMIT,
};
use crate::server;
use crate::server::ServerView;
use std::collections::HashMap;
use vstd::multiset::Multiset;
use vstd::prelude::*;

verus! {

broadcast use vstd::std_specs::hash::group_hash_axioms;

/// The longest one-way latency that is counted, in nanoseconds.
pub const MAX_LATENCY_NS: u64 = 60_000_000_000;

/// How long a subscriber waits for stragglers once publishing is over, in nanoseconds.
pub const GRACE_NS: u64 = 10_000_000_000;

pub struct SubscriberConfig {
    pub subscriber_id: u32,
    pub topics: Vec<u32>,
    pub server_addr: SocketAddress,
    pub listen_port: u16,
    pub expected_messages_per_topic: u64,
}

pub struct SubscriberResult {
    pub subscriber_id: u32,
    pub total_received: u64,
    pub total_nacks_sent: u64,
    pub total_retransmissions: u64,
    pub messages_lost: u64,
    pub latency_histogram: LatencyHistogram,
    pub elapsed: std::time::Duration,
}

impl SubscriberConfig {
    /// How many messages are to be received.
    pub open spec fn total(self) -> int {
        self.topics@.len() * self.expected_messages_per_topic
    }

    /// How many messages are to be received. `None` where there is no number for it.
    pub fn total_expected(&self) -> (total: Option<u64>)
        ensures
            total == if self.total() <= u64::MAX {
                Some(self.total() as u64)
            } else {
                None::<u64>
            },
    {
        let topics: u64 = self.topics.len() as u64;
        proof {
            let (a, b) = (topics as int, self.expected_messages_per_topic as int);
            assert(a * b >= 0) by (nonlinear_arith)
                requires
                    a >= 0,
                    b >= 0,
            ;
        }
        topics.checked_mul(self.expected_messages_per_topic)
    }
}

/// The counts of a subscriber.
#[verifier::ext_equal]
pub struct SubscriberView {
    /// The sequence number that comes next, by topic.
    pub expected: Map<u32, u64>,
    pub received: int,
    pub nacks: int,
    pub retransmissions: int,
    pub lost: int,
}

/// What a packet means to a subscriber.
pub enum Arrival {
    /// Nothing.
    Ignored,
    /// A message that was received or given up before.
    Late,
    /// The message that was expected.
    InOrder,
    /// A message behind others that are missing.
    Ahead,
}

impl SubscriberView {
    /// The sequence number that comes next in a topic.
    pub open spec fn next(self, topic: u32) -> u64 {
        if self.expected.contains_key(topic) {
            self.expected[topic]
        } else {
            0
        }
    }

    /// What a packet means.
    pub open spec fn arrival(self, packet: Seq<u8>) -> Arrival {
        match protocol::parsed_packet(packet) {
            None => Arrival::Ignored,
            Some((msg_type, topic, sequence, _, _)) => if msg_type != MSG_DATA && msg_type
                != MSG_RETRANSMIT {
                Arrival::Ignored
            } else if sequence == self.next(topic) {
                Arrival::InOrder
            } else if sequence > self.next(topic) {
                Arrival::Ahead
            } else {
                Arrival::Late
            },
        }
    }

    /// How many messages a packet shows to be missing.
    pub open spec fn gap(self, packet: Seq<u8>) -> int {
        match self.arrival(packet) {
            Arrival::Ahead => {
                let h = protocol::Header::parse(packet);
                h.sequence - self.next(h.topic_id)
            },
            _ => 0,
        }
    }

    /// The counts after a packet. They may be too large to be kept: see [`SubscriberView::fits`].
    pub open spec fn after(self, packet: Seq<u8>) -> SubscriberView {
        let h = protocol::Header::parse(packet);
        let resent = if h.msg_type == MSG_RETRANSMIT {
            1int
        } else {
            0int
        };
        match self.arrival(packet) {
            Arrival::Ignored => self,
            Arrival::Late => SubscriberView {
                expected: self.expected.insert(h.topic_id, self.next(h.topic_id)),
                retransmissions: self.retransmissions + resent,
                ..self
            },
            Arrival::InOrder => SubscriberView {
                expected: self.expected.insert(h.topic_id, (h.sequence + 1) as u64),
                received: self.received + 1,
                retransmissions: self.retransmissions + resent,
                ..self
            },
            Arrival::Ahead => SubscriberView {
                expected: self.expected.insert(h.topic_id, (h.sequence + 1) as u64),
                received: self.received + 1,
                nacks: self.nacks + 1,
                retransmissions: self.retransmissions + resent,
                lost: self.lost + self.gap(packet),
            },
        }
    }

    /// Whether the counts can be kept.
    pub open spec fn fits(self) -> bool {
        &&& 0 <= self.received <= u64::MAX
        &&& 0 <= self.nacks <= u64::MAX
        &&& 0 <= self.retransmissions <= u64::MAX
        &&& 0 <= self.lost <= u64::MAX
    }

    /// Whether the counts after a packet can be kept, and the next sequence number exists.
    pub open spec fn accepts(self, packet: Seq<u8>) -> bool {
        &&& self.after(packet).fits()
        &&& (self.arrival(packet) is InOrder || self.arrival(packet) is Ahead)
            ==> protocol::Header::parse(packet).sequence < u64::MAX
    }

    /// The request for what a packet shows to be missing.
    pub open spec fn request(self, packet: Seq<u8>) -> Option<Seq<u8>> {
        let h = protocol::Header::parse(packet);
        match self.arrival(packet) {
            Arrival::Ahead => Some(
                protocol::control_header(MSG_NACK, h.topic_id).wire() + (NackMsg {
                    start_seq: self.next(h.topic_id),
                    end_seq: (h.sequence - 1) as u64,
                }).wire(),
            ),
            _ => None,
        }
    }

    /// The latency that is counted when a packet arrives at the time `now`.
    pub open spec fn latency(self, packet: Seq<u8>, now: u64) -> Option<u64> {
        match protocol::parsed_packet(packet) {
            Some((_, _, _, _, Some(payload))) => {
                let ns = now - payload.send_timestamp_ns;
                if (self.arrival(packet) is InOrder || self.arrival(packet) is Ahead) && 0 < ns
                    < MAX_LATENCY_NS {
                    Some(ns as u64)
                } else {
                    None
                }
            },
            _ => None,
        }
    }
}

/// A subscriber at work.
pub struct SubscriberSession {
    expected_seq: HashMap<u32, u64>,
    total_received: u64,
    total_nacks_sent: u64,
    total_retransmissions: u64,
    messages_lost: u64,
    histogram: LatencyHistogram,
}

impl View for SubscriberSession {
    type V = SubscriberView;

    closed spec fn view(&self) -> SubscriberView {
        SubscriberView {
            expected: self.expected_seq@,
            received: self.total_received as int,
            nacks: self.total_nacks_sent as int,
            retransmissions: self.total_retransmissions as int,
            lost: self.messages_lost as int,
        }
    }
}

/// What comes of a packet.
pub enum Reaction {
    /// A count would be too large to be kept. Nothing was changed.
    Overflow,
    /// Nothing is to be sent.
    Silent,
    /// A request for missing messages is to be sent.
    Request(Vec<u8>),
}

/// Every topic of the list expects its first message, and no other topic does.
pub open spec fn all_at_zero(topics: Seq<u32>) -> Map<u32, u64> {
    Map::new(|t: u32| topics.contains(t), |t: u32| 0u64)
}

impl SubscriberSession {
    /// The latencies that were measured.
    pub closed spec fn latencies(self) -> LatencyHistogram {
        self.histogram
    }

    /// No more latencies were measured than messages received.
    pub closed spec fn wf(self) -> bool {
        &&& histogram::latency_contents(self.histogram).len() <= self.total_received
        &&& histogram::latency_high(self.histogram) == MAX_LATENCY_NS
    }

    /// What a well-formed session keeps to.
    pub proof fn lemma_wf(self)
        requires
            self.wf(),
        ensures
            self@.fits(),
            histogram::latency_contents(self.latencies()).len() <= self@.received,
            histogram::latency_high(self.latencies()) == MAX_LATENCY_NS,
    {
    }

    /// A session in which nothing was received yet.
    pub fn new(topics: &Vec<u32>) -> (session: SubscriberSession)
        ensures
            session.wf(),
            session@ == (SubscriberView {
                expected: all_at_zero(topics@),
                received: 0,
                nacks: 0,
                retransmissions: 0,
                lost: 0,
            }),
            histogram::latency_contents(session.latencies()) == Multiset::<u64>::empty(),
    {
        let mut expected_seq: HashMap<u32, u64> = HashMap::new();
        let mut i: usize = 0;
        assert(expected_seq@ =~= all_at_zero(topics@.take(0)));
        while i < topics.len()
            invariant
                i <= topics@.len(),
                expected_seq@ == all_at_zero(topics@.take(i as int)),
            decreases topics@.len() - i,
        {
            let ghost before = expected_seq@;
            expected_seq.insert(topics[i], 0);
            proof {
                let (old_list, new_list) = (topics@.take(i as int), topics@.take(i + 1));
                assert(new_list =~= old_list.push(topics@[i as int]));
                assert forall|t: u32| #[trigger] new_list.contains(t) <==> old_list.contains(t) || t
                    == topics@[i as int] by {
                    if old_list.contains(t) {
                        let k = choose|k: int| 0 <= k < old_list.len() && old_list[k] == t;
                        assert(new_list[k] == t);
                    }
                    assert(new_list[i as int] == topics@[i as int]);
                }
                assert(expected_seq@ =~= all_at_zero(new_list));
            }
            i += 1;
        }
        assert(topics@.take(i as int) =~= topics@);
        SubscriberSession {
            expected_seq,
            total_received: 0,
            total_nacks_sent: 0,
            total_retransmissions: 0,
            messages_lost: 0,
            histogram: LatencyHistogram::with_limit(MAX_LATENCY_NS),
        }
    }

    /// How many messages were received.
    pub fn total_received(&self) -> (n: u64)
        ensures
            n == self@.received,
    {
        self.total_received
    }

    /// Counts the latency of a message.
    fn measure(&mut self, payload: &Option<BenchPayload>, now: u64)
        requires
            old(self).wf(),
            old(self)@.received < u64::MAX,
        ensures
            final(self)@ == old(self)@,
            histogram::latency_high(final(self).latencies()) == histogram::latency_high(
                old(self).latencies(),
            ),
            match *payload {
                Some(p) if 0 < now - p.send_timestamp_ns < MAX_LATENCY_NS => {
                    histogram::latency_contents(final(self).latencies())
                        == histogram::latency_contents(old(self).latencies()).insert(
                        histogram::lowest_equivalent((now - p.send_timestamp_ns) as u64),
                    )
                },
                _ => final(self).latencies() == old(self).latencies(),
            },
    {
        if let Some(p) = payload {
            let ns: u64 = now.saturating_sub(p.send_timestamp_ns);
            if ns > 0 && ns < MAX_LATENCY_NS {
                proof {
                    histogram::law_limit_is_counted(MAX_LATENCY_NS);
                }
                self.histogram.record(ns);
            }
        }
    }

    /// Handles a packet that arrived at the time `now`.
    pub fn on_packet(&mut self, packet: &[u8], now: u64) -> (reaction: Reaction)
        requires
            old(self).wf(),
        ensures
            final(self).wf(),
            reaction is Overflow <==> !old(self)@.accepts(packet@),
            reaction is Overflow ==> final(self)@ == old(self)@ && final(self).latencies() == old(
                self,
            ).latencies(),
            reaction !is Overflow ==> {
                &&& final(self)@ == old(self)@.after(packet@)
                &&& match old(self)@.request(packet@) {
                    Some(bytes) => reaction matches Reaction::Request(nack) && nack@ == bytes,
                    None => reaction is Silent,
                }
                &&& match old(self)@.latency(packet@, now) {
                    Some(ns) => histogram::latency_contents(final(self).latencies())
                        == histogram::latency_contents(old(self).latencies()).insert(
                        histogram::lowest_equivalent(ns),
                    ),
                    None => final(self).latencies() == old(self).latencies(),
                }
            },
    {
        let (msg_type, topic_id, sequence, payload) = match parse_packet(packet) {
            Some((msg_type, topic_id, sequence, _, payload)) => (
                msg_type,
                topic_id,
                sequence,
                payload,
            ),
            None => return Reaction::Silent,
        };
        if msg_type != MSG_DATA && msg_type != MSG_RETRANSMIT {
            return Reaction::Silent;
        }
        let expected: u64 = match self.expected_seq.get(&topic_id) {
            Some(expected) => *expected,
            None => 0,
        };
        let ghost before = self@;
        assert(expected == before.next(topic_id));
        let retransmissions: u64 = if msg_type == MSG_RETRANSMIT {
            match self.total_retransmissions.checked_add(1) {
                Some(n) => n,
                None => return Reaction::Overflow,
            }
        } else {
            self.total_retransmissions
        };
        if sequence < expected {
            self.total_retransmissions = retransmissions;
            self.expected_seq.insert(topic_id, expected);
            return Reaction::Silent;
        }
        if sequence == u64::MAX || self.total_received == u64::MAX {
            return Reaction::Overflow;
        }
        if sequence == expected {
            self.total_retransmissions = retransmissions;
            self.measure(&payload, now);
            self.expected_seq.insert(topic_id, sequence + 1);
            self.total_received += 1;
            return Reaction::Silent;
        }
        let lost: u64 = match self.messages_lost.checked_add(sequence - expected) {
            Some(n) => n,
            None => return Reaction::Overflow,
        };
        if self.total_nacks_sent == u64::MAX {
            return Reaction::Overflow;
        }
        self.total_retransmissions = retransmissions;
        self.messages_lost = lost;
        let nack = build_nack_packet(topic_id, expected, sequence - 1);
        self.total_nacks_sent += 1;
        self.measure(&payload, now);
        self.expected_seq.insert(topic_id, sequence + 1);
        self.total_received += 1;
        Reaction::Request(nack)
    }

    /// The result of the session.
    pub fn finish(self, subscriber_id: u32, elapsed: std::time::Duration) -> (result:
        SubscriberResult)
        ensures
            result.subscriber_id == subscriber_id,
            result.total_received == self@.received,
            result.total_nacks_sent == self@.nacks,
            result.total_retransmissions == self@.retransmissions,
            result.messages_lost == self@.lost,
            result.latency_histogram == self.latencies(),
            result.elapsed == elapsed,
    {
        SubscriberResult {
            subscriber_id,
            total_received: self.total_received,
            total_nacks_sent: self.total_nacks_sent,
            total_retransmissions: self.total_retransmissions,
            messages_lost: self.messages_lost,
            latency_histogram: self.histogram,
            elapsed,
        }
    }
}

/// What a subscriber does before it waits for a packet.
pub enum WaitDecision {
    /// It ends.
    Stop,
    /// It waits. The deadline for stragglers, if there is one by now, is kept for the next decision.
    Wait { deadline: Option<u128> },
}

/// The deadline for stragglers: it is set once publishing is over, and then stays.
pub open spec fn deadline_by(done: bool, elapsed: u64, deadline: Option<u128>) -> Option<u128> {
    if done && deadline is None {
        Some((elapsed + GRACE_NS) as u128)
    } else {
        deadline
    }
}

/// Whether a deadline, if there is one, has passed.
pub open spec fn is_past(elapsed: u64, deadline: Option<u128>) -> bool {
    match deadline {
        Some(by) => elapsed > by,
        None => false,
    }
}

/// Whether a subscriber ends before it waits for a packet, or the deadline that it waits on with.
pub open spec fn decided(
    done: bool,
    received: u64,
    total: u64,
    elapsed: u64,
    deadline: Option<u128>,
) -> WaitDecision {
    let by = deadline_by(done, elapsed, deadline);
    if done && received >= total || is_past(elapsed, by) {
        WaitDecision::Stop
    } else {
        WaitDecision::Wait { deadline: by }
    }
}

/// Decides whether a subscriber ends before it waits for a packet: when publishing is over and
/// everything was received, or the time for stragglers has passed. Times are in nanoseconds from the
/// start of the subscriber.
pub fn before_wait(
    done: bool,
    received: u64,
    total: u64,
    elapsed: u64,
    deadline: Option<u128>,
) -> (decision: WaitDecision)
    ensures
        decision == if done && received >= total || is_past(
            elapsed,
            deadline_by(done, elapsed, deadline),
        ) {
            WaitDecision::Stop
        } else {
            (WaitDecision::Wait { deadline: deadline_by(done, elapsed, deadline) })
        },
        decision == decided(done, received, total, elapsed, deadline),
{
    if done && received >= total {
        return WaitDecision::Stop;
    }
    let deadline: Option<u128> = if done && deadline.is_none() {
        Some(elapsed as u128 + GRACE_NS as u128)
    } else {
        deadline
    };
    if let Some(by) = deadline {
        if by < elapsed as u128 {
            return WaitDecision::Stop;
        }
    }
    WaitDecision::Wait { deadline }
}

/// Decides whether a subscriber ends after a packet: when everything was received.
pub fn after_packet(received: u64, total: u64) -> (stop: bool)
    ensures
        stop == (received >= total),
{
    received >= total
}

/// A new subscriber to some topics.
pub open spec fn fresh_subscriber(topics: Seq<u32>) -> SubscriberView {
    SubscriberView {
        expected: all_at_zero(topics),
        received: 0,
        nacks: 0,
        retransmissions: 0,
        lost: 0,
    }
}

/// The counts after some packets.
pub open spec fn subscriber_after(topics: Seq<u32>, packets: Seq<Seq<u8>>) -> SubscriberView
    decreases packets.len(),
{
    if packets.len() == 0 {
        fresh_subscriber(topics)
    } else {
        subscriber_after(topics, packets.drop_last()).after(packets.last())
    }
}

/// Whether a packet carries a message, for the first time or again.
pub open spec fn is_message(packet: Seq<u8>) -> bool {
    let h = protocol::Header::parse(packet);
    packet.len() >= protocol::HEADER_SIZE && (h.msg_type == MSG_DATA || h.msg_type
        == MSG_RETRANSMIT)
}

/// Whether behind every message another one could follow.
pub open spec fn numbers_fit(packets: Seq<Seq<u8>>) -> bool {
    forall|i: int|
        0 <= i < packets.len() && is_message(#[trigger] packets[i]) ==> protocol::Header::parse(
            packets[i],
        ).sequence < u64::MAX
}

/// The highest sequence number among the messages of a topic, and -1 where there is none.
pub open spec fn highest(packets: Seq<Seq<u8>>, topic: u32) -> int
    decreases packets.len(),
{
    if packets.len() == 0 {
        -1
    } else {
        let earlier = highest(packets.drop_last(), topic);
        let h = protocol::Header::parse(packets.last());
        if is_message(packets.last()) && h.topic_id == topic && h.sequence > earlier {
            h.sequence as int
        } else {
            earlier
        }
    }
}

/// How many topics there are: one for each number of 32 bits.
pub open spec fn all_topics() -> nat {
    0x1_0000_0000
}

/// How many messages lie up to the highest one of each topic, over the topics below `n`.
pub open spec fn reached(packets: Seq<Seq<u8>>, n: nat) -> int {
    bench::sum_below(n, |t: int| highest(packets, t as u32) + 1)
}

proof fn lemma_numbers_fit_before(packets: Seq<Seq<u8>>)
    requires
        numbers_fit(packets),
        packets.len() > 0,
    ensures
        numbers_fit(packets.drop_last()),
        is_message(packets.last()) ==> protocol::Header::parse(packets.last()).sequence < u64::MAX,
{
    let earlier = packets.drop_last();
    assert(packets.last() == packets[packets.len() - 1]);
    assert forall|i: int|
        0 <= i < earlier.len() && is_message(#[trigger] earlier[i]) implies protocol::Header::parse(
        earlier[i],
    ).sequence < u64::MAX by {
        assert(earlier[i] == packets[i]);
    }
}

/// A subscriber expects of every topic the message behind the highest one that it received.
pub proof fn law_next_follows_the_highest(topics: Seq<u32>, packets: Seq<Seq<u8>>, topic: u32)
    requires
        numbers_fit(packets),
    ensures
        subscriber_after(topics, packets).next(topic) == highest(packets, topic) + 1,
    decreases packets.len(),
{
    if packets.len() > 0 {
        lemma_numbers_fit_before(packets);
        law_next_follows_the_highest(topics, packets.drop_last(), topic);
    }
}

/// A message that is not above all earlier ones of its topic changes neither what was received nor
/// what was lost, and nothing is asked for again.
pub proof fn law_late_messages_change_nothing(
    topics: Seq<u32>,
    packets: Seq<Seq<u8>>,
    late: Seq<u8>,
)
    requires
        numbers_fit(packets),
        is_message(late),
        protocol::Header::parse(late).sequence <= highest(
            packets,
            protocol::Header::parse(late).topic_id,
        ),
    ensures
        ({
            let s = subscriber_after(topics, packets);
            let t = subscriber_after(topics, packets.push(late));
            &&& t.received == s.received
            &&& t.lost == s.lost
            &&& t.nacks == s.nacks
            &&& s.request(late) is None
        }),
{
    law_next_follows_the_highest(topics, packets, protocol::Header::parse(late).topic_id);
    assert(packets.push(late).drop_last() =~= packets);
}

/// Moving one topic on moves the sum on.
proof fn lemma_reached(a: Seq<Seq<u8>>, b: Seq<Seq<u8>>, topic: u32, n: nat)
    requires
        n <= all_topics(),
        forall|t: u32| t != topic ==> #[trigger] highest(b, t) == highest(a, t),
    ensures
        reached(b, n) == reached(a, n) + if topic < n {
            highest(b, topic) - highest(a, topic)
        } else {
            0
        },
    decreases n,
{
    if n > 0 {
        lemma_reached(a, b, topic, (n - 1) as nat);
    }
}

proof fn lemma_nothing_reached(n: nat)
    ensures
        reached(Seq::empty(), n) == 0,
    decreases n,
{
    if n > 0 {
        lemma_nothing_reached((n - 1) as nat);
    }
}

/// Every message is received or missed, and none twice: whatever packets arrive, the messages
/// received and those given up as lost are together the ones up to the highest of each topic.
pub proof fn law_received_and_lost_add_up(topics: Seq<u32>, packets: Seq<Seq<u8>>)
    requires
        numbers_fit(packets),
    ensures
        ({
            let s = subscriber_after(topics, packets);
            s.received + s.lost == reached(packets, all_topics())
        }),
    decreases packets.len(),
{
    if packets.len() == 0 {
        assert(packets =~= Seq::empty());
        lemma_nothing_reached(all_topics());
    } else {
        let earlier = packets.drop_last();
        let topic = protocol::Header::parse(packets.last()).topic_id;
        lemma_numbers_fit_before(packets);
        law_received_and_lost_add_up(topics, earlier);
        law_next_follows_the_highest(topics, earlier, topic);
        lemma_reached(earlier, packets, topic, all_topics());
    }
}

/// A request for the messages of a topic from `start` up to and including `end`.
pub struct RequestView {
    pub topic: u32,
    pub start: int,
    pub end: int,
}

impl RequestView {
    /// The packet that carries the request.
    pub open spec fn packet(self) -> Seq<u8> {
        protocol::control_header(MSG_NACK, self.topic).wire() + (NackMsg {
            start_seq: self.start as u64,
            end_seq: self.end as u64,
        }).wire()
    }
}

/// What is to be asked for when some packets arrive: for each message that leaves others out, those
/// between the highest one so far of its topic and itself.
pub open spec fn requested(packets: Seq<Seq<u8>>) -> Seq<RequestView>
    decreases packets.len(),
{
    if packets.len() == 0 {
        Seq::empty()
    } else {
        let earlier = requested(packets.drop_last());
        let h = protocol::Header::parse(packets.last());
        let next = highest(packets.drop_last(), h.topic_id) + 1;
        if is_message(packets.last()) && h.sequence > next {
            earlier.push(RequestView { topic: h.topic_id, start: next, end: h.sequence - 1 })
        } else {
            earlier
        }
    }
}

/// How many messages some requests ask for.
pub open spec fn asked_for(requests: Seq<RequestView>) -> int
    decreases requests.len(),
{
    if requests.len() == 0 {
        0
    } else {
        asked_for(requests.drop_last()) + (requests.last().end - requests.last().start + 1)
    }
}

/// The requests that a subscriber sends when some packets arrive, in order.
pub open spec fn requests_sent(topics: Seq<u32>, packets: Seq<Seq<u8>>) -> Seq<Seq<u8>>
    decreases packets.len(),
{
    if packets.len() == 0 {
        Seq::empty()
    } else {
        let earlier = requests_sent(topics, packets.drop_last());
        match subscriber_after(topics, packets.drop_last()).request(packets.last()) {
            Some(request) => earlier.push(request),
            None => earlier,
        }
    }
}

/// What was asked for lies below the highest message of its topic, and no message was asked for
/// twice.
proof fn lemma_requested(packets: Seq<Seq<u8>>)
    ensures
        forall|i: int|
            0 <= i < requested(packets).len() ==> 0 <= (#[trigger] requested(packets)[i]).start
                <= requested(packets)[i].end < highest(packets, requested(packets)[i].topic),
        forall|i: int, j: int|
            0 <= i < j < requested(packets).len() && (#[trigger] requested(packets)[i]).topic == (
            #[trigger] requested(packets)[j]).topic ==> requested(packets)[i].end < requested(
                packets,
            )[j].start,
        forall|t: u32| #[trigger] highest(packets, t) >= -1,
    decreases packets.len(),
{
    if packets.len() > 0 {
        let earlier = packets.drop_last();
        lemma_requested(earlier);
        let before = requested(earlier);
        let now = requested(packets);
        assert forall|t: u32| #[trigger] highest(packets, t) >= highest(earlier, t) by {}
        assert forall|i: int| 0 <= i < now.len() implies 0 <= (#[trigger] now[i]).start
            <= now[i].end < highest(packets, now[i].topic) by {
            if i < before.len() {
                assert(now[i] == before[i]);
                assert(highest(packets, before[i].topic) >= highest(earlier, before[i].topic));
            } else {
                assert(highest(earlier, now[i].topic) >= -1);
            }
        }
        assert forall|i: int, j: int|
            0 <= i < j < now.len() && (#[trigger] now[i]).topic == (
            #[trigger] now[j]).topic implies now[i].end < now[j].start by {
            assert(now[i] == before[i]);
            if j < before.len() {
                assert(now[j] == before[j]);
            }
        }
    }
}

/// What a subscriber asks for: the messages between the highest one so far of a topic and the next
/// one above it, in one request each time that some are missing. The requests are counted, the
/// messages that they ask for are the ones counted as lost, and no message is asked for twice.
pub proof fn law_missing_messages_are_asked_for_once(topics: Seq<u32>, packets: Seq<Seq<u8>>)
    requires
        numbers_fit(packets),
    ensures
        requests_sent(topics, packets) == requested(packets).map_values(
            |r: RequestView| r.packet(),
        ),
        subscriber_after(topics, packets).nacks == requested(packets).len(),
        subscriber_after(topics, packets).lost == asked_for(requested(packets)),
        forall|i: int|
            0 <= i < requested(packets).len() ==> (#[trigger] requested(packets)[i]).start
                <= requested(packets)[i].end,
        forall|i: int, j: int|
            0 <= i < j < requested(packets).len() && (#[trigger] requested(packets)[i]).topic == (
            #[trigger] requested(packets)[j]).topic ==> requested(packets)[i].end < requested(
                packets,
            )[j].start,
    decreases packets.len(),
{
    lemma_requested(packets);
    if packets.len() > 0 {
        let earlier = packets.drop_last();
        let h = protocol::Header::parse(packets.last());
        lemma_numbers_fit_before(packets);
        law_missing_messages_are_asked_for_once(topics, earlier);
        law_next_follows_the_highest(topics, earlier, h.topic_id);
        let before = requested(earlier);
        let now = requested(packets);
        if now.len() > before.len() {
            assert(now.drop_last() =~= before);
        }
    }
    assert(requests_sent(topics, packets) =~= requested(packets).map_values(
        |r: RequestView| r.packet(),
    ));
}

/// Counts only grow: where they can be kept at the end, they could be kept after every packet, so no
/// packet was refused.
pub proof fn law_counts_that_fit_always_did(topics: Seq<u32>, packets: Seq<Seq<u8>>, k: int)
    requires
        numbers_fit(packets),
        subscriber_after(topics, packets).fits(),
        0 <= k < packets.len(),
    ensures
        subscriber_after(topics, packets.take(k)).accepts(packets[k]),
    decreases packets.len(),
{
    let earlier = packets.drop_last();
    lemma_numbers_fit_before(packets);
    lemma_counts_are_not_negative(topics, earlier);
    if k == packets.len() - 1 {
        assert(packets.take(k) =~= earlier);
    } else {
        assert(earlier.take(k) =~= packets.take(k));
        law_counts_that_fit_always_did(topics, earlier, k);
    }
}

proof fn lemma_counts_are_not_negative(topics: Seq<u32>, packets: Seq<Seq<u8>>)
    ensures
        ({
            let s = subscriber_after(topics, packets);
            s.received >= 0 && s.nacks >= 0 && s.retransmissions >= 0 && s.lost >= 0
        }),
    decreases packets.len(),
{
    if packets.len() > 0 {
        lemma_counts_are_not_negative(topics, packets.drop_last());
    }
}

/// A topic never goes back, and a message is counted only if its number is at least the expected
/// one: after that the next number is expected, so no message is counted twice.
pub proof fn law_no_message_counts_twice(s: SubscriberView, packet: Seq<u8>)
    requires
        s.accepts(packet),
    ensures
        forall|t: u32| s.after(packet).next(t) >= #[trigger] s.next(t),
        s.after(packet).received > s.received ==> {
            let h = protocol::Header::parse(packet);
            &&& h.sequence >= s.next(h.topic_id)
            &&& s.after(packet).next(h.topic_id) == h.sequence + 1
        },
        s.after(packet).received <= s.received + 1,
{
}

/// What a subscriber asks for is what the server looks for: a request that reaches the server is
/// confirmed, and answered with the stored packets of the topic from the one that was expected up to
/// the last one missing.
pub proof fn law_request_is_answered(
    s: SubscriberView,
    packet: Seq<u8>,
    server: ServerView,
    from: SocketAddress,
)
    requires
        s.request(packet) is Some,
    ensures
        ({
            let h = protocol::Header::parse(packet);
            server.replies(s.request(packet)->0, from) == seq![
                server::confirmation(h.topic_id, from),
            ] + server.retransmissions(
                h.topic_id,
                s.next(h.topic_id) as int,
                h.sequence - 1,
                from,
            )
        }),
{
    let h = protocol::Header::parse(packet);
    protocol::law_nack_packet_is_understood(
        h.topic_id,
        s.next(h.topic_id),
        (h.sequence - 1) as u64,
    );
}

/// A data packet sent again means the same to a subscriber as the packet itself, but for the count of
/// retransmissions.
pub proof fn law_packet_sent_again_means_the_same(s: SubscriberView, packet: Seq<u8>, now: u64)
    requires
        packet.len() >= protocol::HEADER_SIZE,
        protocol::Header::parse(packet).msg_type == MSG_DATA,
    ensures
        s.arrival(server::marked(packet)) == s.arrival(packet),
        s.latency(server::marked(packet), now) == s.latency(packet, now),
        s.request(server::marked(packet)) == s.request(packet),
        s.after(server::marked(packet)) == (SubscriberView {
            retransmissions: s.retransmissions + 1,
            ..s.after(packet)
        }),
{
    server::law_marking_keeps_the_rest(packet);
    let again = server::marked(packet);
    assert forall|i: int| 4 <= i < packet.len() implies #[trigger] again[i] == packet[i] by {
        assert(again[i] == again.skip(4)[i - 4]);
        assert(packet[i] == packet.skip(4)[i - 4]);
    }
}

/// The data packets of a topic with the sequence numbers below `n`, made at the given times.
pub open spec fn run_of_packets(topic: u32, times: Seq<u64>) -> Seq<Seq<u8>> {
    Seq::new(times.len(), |i: int| protocol::data_packet(topic, i as u64, times[i]))
}

/// Without loss on the way nothing is counted as lost and nothing asked for again: of a topic's
/// packets that arrive in order every one is received.
pub proof fn law_packets_in_order_are_all_received(topic: u32, times: Seq<u64>)
    requires
        times.len() <= u64::MAX,
    ensures
        ({
            let s = subscriber_after(seq![topic], run_of_packets(topic, times));
            &&& s.received == times.len()
            &&& s.lost == 0
            &&& s.nacks == 0
            &&& s.retransmissions == 0
            &&& s.next(topic) == times.len()
        }),
    decreases times.len(),
{
    if times.len() == 0 {
    } else {
        let earlier = times.drop_last();
        law_packets_in_order_are_all_received(topic, earlier);
        let packets = run_of_packets(topic, times);
        assert(packets.drop_last() =~= run_of_packets(topic, earlier));
        let sequence = (times.len() - 1) as u64;
        protocol::law_data_packet_is_understood(topic, sequence, times.last());
        assert(packets.last() == protocol::data_packet(topic, sequence, times.last()));
        let before = subscriber_after(seq![topic], packets.drop_last());
        assert(before.arrival(packets.last()) is InOrder);
    }
}

/// The latency of a message is the time from when it was sent to when it arrived. It is counted of
/// every message that is not late, first sent or sent again, where it is more than nothing and less
/// than a minute, and of nothing else. Bytes behind the payload do not matter; a packet too short
/// for a payload has no latency.
#[verifier::spinoff_prover]
pub proof fn law_latency_is_the_time_on_the_way(
    s: SubscriberView,
    h: protocol::Header,
    p: BenchPayload,
    behind: Seq<u8>,
    now: u64,
)
    ensures
        ({
            let packet = h.wire() + p.wire() + behind;
            let sent = p.send_timestamp_ns;
            let taken = (h.msg_type == MSG_DATA || h.msg_type == MSG_RETRANSMIT) && h.sequence
                >= s.next(h.topic_id);
            s.latency(packet, now) == if taken && sent < now < sent + 60_000_000_000 {
                Some((now - sent) as u64)
            } else {
                None::<u64>
            }
        }),
        behind.len() < 20 ==> s.latency(h.wire() + behind, now) is None,
{
    protocol::law_packets_are_taken_apart(h, p, behind, Seq::empty());
}

/// The same of the packets that publishers send: a message that is received is measured.
pub proof fn law_received_messages_are_measured(
    s: SubscriberView,
    topic: u32,
    sequence: u64,
    sent: u64,
    now: u64,
)
    requires
        sequence >= s.next(topic),
        sent < now < sent + 60_000_000_000,
    ensures
        s.latency(protocol::data_packet(topic, sequence, sent), now) == Some((now - sent) as u64),
        s.after(protocol::data_packet(topic, sequence, sent)).received == s.received + 1,
{
    protocol::law_data_packet_is_understood(topic, sequence, sent);
}

/// The latencies that a subscriber measures when packets arrive at the given times.
pub open spec fn latencies_measured(
    topics: Seq<u32>,
    packets: Seq<Seq<u8>>,
    nows: Seq<u64>,
) -> Seq<u64>
    decreases packets.len(),
{
    if packets.len() == 0 {
        Seq::empty()
    } else {
        let earlier = latencies_measured(topics, packets.drop_last(), nows.drop_last());
        let s = subscriber_after(topics, packets.drop_last());
        match s.latency(packets.last(), nows.last()) {
            Some(ns) => earlier.push(ns),
            None => earlier,
        }
    }
}

/// As many latencies are measured as messages received, whatever order publishers' packets arrive
/// in, as long as each is on its way for less than a minute.
#[verifier::spinoff_prover]
pub proof fn law_as_many_measured_as_received(
    topics: Seq<u32>,
    packets: Seq<Seq<u8>>,
    sent: Seq<(u32, u64, u64)>,
    nows: Seq<u64>,
)
    requires
        packets.len() == sent.len() == nows.len(),
        forall|i: int|
            0 <= i < packets.len() ==> #[trigger] packets[i] == protocol::data_packet(
                sent[i].0,
                sent[i].1,
                sent[i].2,
            ) && sent[i].2 < nows[i] < sent[i].2 + 60_000_000_000,
    ensures
        latencies_measured(topics, packets, nows).len() == subscriber_after(
            topics,
            packets,
        ).received,
    decreases packets.len(),
{
    if packets.len() > 0 {
        let n = packets.len() - 1;
        let earlier = packets.drop_last();
        assert forall|i: int| 0 <= i < earlier.len() implies #[trigger] earlier[i]
            == protocol::data_packet(
            sent.drop_last()[i].0,
            sent.drop_last()[i].1,
            sent.drop_last()[i].2,
        ) && sent.drop_last()[i].2 < nows.drop_last()[i] < sent.drop_last()[i].2
            + 60_000_000_000 by {
            assert(earlier[i] == packets[i]);
        }
        law_as_many_measured_as_received(topics, earlier, sent.drop_last(), nows.drop_last());
        assert(packets[n] == packets.last());
        protocol::law_data_packet_is_understood(sent[n].0, sent[n].1, sent[n].2);
    }
}

/// Of a topic's packets that arrive in order every latency is measured, each from the time at which
/// its packet was sent.
pub proof fn law_latencies_of_packets_in_order(topic: u32, times: Seq<u64>, nows: Seq<u64>)
    requires
        times.len() <= u64::MAX,
        nows.len() == times.len(),
        forall|i: int|
            0 <= i < times.len() ==> #[trigger] times[i] < nows[i] < times[i] + 60_000_000_000,
    ensures
        latencies_measured(seq![topic], run_of_packets(topic, times), nows) == Seq::new(
            times.len(),
            |i: int| (nows[i] - times[i]) as u64,
        ),
    decreases times.len(),
{
    let packets = run_of_packets(topic, times);
    let all = Seq::new(times.len(), |i: int| (nows[i] - times[i]) as u64);
    if times.len() > 0 {
        let (earlier, before) = (times.drop_last(), nows.drop_last());
        let n = times.len() - 1;
        assert forall|i: int| 0 <= i < earlier.len() implies #[trigger] earlier[i] < before[i]
            < earlier[i] + 60_000_000_000 by {
            assert(earlier[i] == times[i]);
        }
        law_latencies_of_packets_in_order(topic, earlier, before);
        law_packets_in_order_are_all_received(topic, earlier);
        assert(packets.drop_last() =~= run_of_packets(topic, earlier));
        assert(times[n] == times.last());
        let s = subscriber_after(seq![topic], packets.drop_last());
        law_received_messages_are_measured(s, topic, n as u64, times[n], nows[n]);
        assert(packets.last() == protocol::data_packet(topic, n as u64, times[n]));
        assert(all.drop_last() =~= Seq::new(
            earlier.len(),
            |i: int| (before[i] - earlier[i]) as u64,
        ));
        assert(all =~= all.drop_last().push((nows[n] - times[n]) as u64));
    }
    assert(latencies_measured(seq![topic], packets, nows) =~= all);
}

/// Packets sent again are counted, all of them and no others: whether they were still missing or
/// came late does not matter.
pub proof fn law_packets_sent_again_are_counted(topics: Seq<u32>, packets: Seq<Seq<u8>>)
    ensures
        subscriber_after(topics, packets).retransmissions == packets.filter(
            |p: Seq<u8>| is_message(p) && protocol::Header::parse(p).msg_type == 4,
        ).len(),
    decreases packets.len(),
{
    reveal(Seq::filter);
    if packets.len() > 0 {
        law_packets_sent_again_are_counted(topics, packets.drop_last());
    }
}

/// No packet is refused as long as the numbers of messages and of packets can be told at all: the
/// counts reach as far as 64 bits do.
pub proof fn law_packets_are_accepted(topics: Seq<u32>, packets: Seq<Seq<u8>>, k: int)
    requires
        numbers_fit(packets),
        reached(packets, all_topics()) <= u64::MAX,
        packets.len() <= u64::MAX,
        0 <= k < packets.len(),
    ensures
        subscriber_after(topics, packets.take(k)).accepts(packets[k]),
{
    law_received_and_lost_add_up(topics, packets);
    lemma_counts_are_not_negative(topics, packets);
    lemma_counts_are_small(topics, packets);
    law_counts_that_fit_always_did(topics, packets, k);
}

proof fn lemma_counts_are_small(topics: Seq<u32>, packets: Seq<Seq<u8>>)
    ensures
        subscriber_after(topics, packets).nacks <= packets.len(),
        subscriber_after(topics, packets).retransmissions <= packets.len(),
    decreases packets.len(),
{
    if packets.len() > 0 {
        lemma_counts_are_small(topics, packets.drop_last());
    }
}

/// How long a subscriber waits for stragglers: from the time at which publishing was first seen to be
/// over, ten seconds and no less, whatever it is asked with meanwhile. Before that it waits without
/// end.
pub proof fn law_stragglers_have_ten_seconds(over: u64, done: bool, elapsed: u64)
    ensures
        is_past(elapsed, deadline_by(done, elapsed, deadline_by(true, over, None))) <==> elapsed
            - over > 10_000_000_000,
        deadline_by(done, elapsed, deadline_by(true, over, None)) == deadline_by(true, over, None),
        deadline_by(false, elapsed, None) is None,
        !is_past(elapsed, deadline_by(false, elapsed, None)),
        !is_past(elapsed, deadline_by(true, elapsed, None)),
{
}

/// Every topic more is so many messages more, and without topics there are none.
pub proof fn law_topics_count_alike(a: SubscriberConfig, b: SubscriberConfig, topic: u32)
    requires
        b.topics@ == a.topics@.push(topic),
        b.expected_messages_per_topic == a.expected_messages_per_topic,
    ensures
        b.total() == a.total() + a.expected_messages_per_topic,
        a.topics@.len() == 0 ==> a.total() == 0,
{
    let (n, m) = (a.topics@.len() as int, a.expected_messages_per_topic as int);
    assert((n + 1) * m == n * m + m) by (nonlinear_arith);
    assert(n == 0 ==> n * m == 0) by (nonlinear_arith);
}

/// When a subscriber ends: never while publishing goes on; once publishing is over, as soon as
/// everything was received; and with messages missing, just when more than ten seconds have passed
/// since it first saw that publishing was over. The deadline that it hands on is what makes it so.
pub proof fn law_subscribers_wait_for_stragglers(
    received: u64,
    total: u64,
    elapsed: u64,
    over: u64,
    later: u64,
)
    ensures
        decided(false, received, total, elapsed, None) == (WaitDecision::Wait { deadline: None }),
        received >= total ==> decided(true, received, total, elapsed, None) is Stop,
        received < total ==> decided(true, received, total, over, None) is Wait,
        received < total ==> {
            let by = decided(true, received, total, over, None)->deadline;
            &&& received >= total || later - over > 10_000_000_000 <==> decided(
                true,
                received,
                total,
                later,
                by,
            ) is Stop
            &&& later - over <= 10_000_000_000 ==> decided(true, received, total, later, by) == (
            WaitDecision::Wait { deadline: by })
        },
{
}

} // verus!
