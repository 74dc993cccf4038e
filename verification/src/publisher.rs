//! A publisher of the datagram benchmark: it sends a number of messages to each of its topics.

use crate::address::SocketAddress;
use crate::protocol;
use crate::protocol::build_data_packet;
use vstd::prelude::*;

verus! {

/// After how many messages a publisher lets others run.
pub const YIELD_EVERY: u64 = 1024;

pub struct PublisherConfig {
    pub publisher_id: u32,
    pub topics: Vec<u32>,
    pub server_addr: SocketAddress,
    pub messages_per_topic: u64,
}

#[derive(Clone, Copy, Debug)]
pub struct PublisherResult {
    pub publisher_id: u32,
    pub total_sent: u64,
    pub elapsed: std::time::Duration,
    pub throughput: u64,
}

impl PublisherConfig {
    /// How many messages are to be sent.
    pub open spec fn total(self) -> int {
        self.topics@.len() * self.messages_per_topic
    }

    /// How many messages are to be sent. `None` where there is no number for it.
    pub fn total_messages(&self) -> (total: Option<u64>)
        ensures
            total == if self.total() <= u64::MAX {
                Some(self.total() as u64)
            } else {
                None::<u64>
            },
    {
        let topics: u64 = self.topics.len() as u64;
        proof {
            let (a, b) = (topics as int, self.messages_per_topic as int);
            assert(a * b >= 0) by (nonlinear_arith)
                requires
                    a >= 0,
                    b >= 0,
            ;
        }
        topics.checked_mul(self.messages_per_topic)
    }
}

/// How far a publisher has come.
pub struct Publisher {
    config: PublisherConfig,
    topic: usize,
    sequence: u64,
    sent: u64,
}

/// How far a publisher has come.
#[verifier::ext_equal]
pub struct PublisherView {
    pub topics: Seq<u32>,
    pub messages_per_topic: u64,
    pub sent: nat,
}

impl PublisherView {
    /// How many messages are to be sent.
    pub open spec fn total(self) -> int {
        self.topics.len() * self.messages_per_topic
    }

    /// The next packet, made at the time `now`: the topics are served one after the other, each with
    /// the sequence numbers from zero on.
    pub open spec fn packet(self, now: u64) -> Seq<u8> {
        protocol::data_packet(
            self.topics[self.sent as int / self.messages_per_topic as int],
            (self.sent as int % self.messages_per_topic as int) as u64,
            now,
        )
    }
}

impl View for Publisher {
    type V = PublisherView;

    closed spec fn view(&self) -> PublisherView {
        PublisherView {
            topics: self.config.topics@,
            messages_per_topic: self.config.messages_per_topic,
            sent: self.sent as nat,
        }
    }
}

/// A packet to be sent.
pub struct Outgoing {
    pub packet: Vec<u8>,
    /// Whether others are to be let run after it.
    pub pause: bool,
}

impl Publisher {
    /// The place in the list of topics and the sequence number follow from how many were sent.
    pub closed spec fn wf(self) -> bool {
        let m = self.config.messages_per_topic as int;
        &&& self.config.total() <= u64::MAX
        &&& self.sent == self.topic * m + self.sequence
        &&& self.topic < self.config.topics@.len() ==> self.sequence < m || m == 0
        &&& self.topic >= self.config.topics@.len() ==> self.topic == self.config.topics@.len()
            && self.sequence == 0
        &&& m == 0 ==> self.topic == 0 && self.sequence == 0
    }

    /// A publisher at its start. `None` where there is no number for its messages.
    pub fn new(config: PublisherConfig) -> (made: Option<Publisher>)
        ensures
            match made {
                Some(p) => {
                    &&& p.wf()
                    &&& config.total() <= u64::MAX
                    &&& p@ == (PublisherView {
                        topics: config.topics@,
                        messages_per_topic: config.messages_per_topic,
                        sent: 0,
                    })
                },
                None => config.total() > u64::MAX,
            },
    {
        match config.total_messages() {
            Some(_) => Some(Publisher { config, topic: 0, sequence: 0, sent: 0 }),
            None => None,
        }
    }

    /// Whether all messages were sent.
    pub fn is_done(&self) -> (done: bool)
        requires
            self.wf(),
        ensures
            done == (self@.sent >= self@.total()),
    {
        proof {
            self.lemma_progress();
        }
        self.topic >= self.config.topics.len() || self.config.messages_per_topic == 0
    }

    /// Where the publisher stands.
    proof fn lemma_progress(self)
        requires
            self.wf(),
        ensures
            self.topic < self.config.topics@.len() && self.config.messages_per_topic > 0 ==> {
                let m = self.config.messages_per_topic as int;
                &&& self.sent < self.config.total()
                &&& self.sent as int / m == self.topic
                &&& self.sent as int % m == self.sequence
                &&& self.sent + 1 <= u64::MAX
            },
            self.topic >= self.config.topics@.len() || self.config.messages_per_topic == 0
                ==> self.sent >= self.config.total(),
    {
        let m = self.config.messages_per_topic as int;
        let n = self.config.topics@.len() as int;
        let t = self.topic as int;
        if t < n && m > 0 {
            assert(t * m + m <= n * m) by (nonlinear_arith)
                requires
                    t + 1 <= n,
                    m > 0,
            ;
            vstd::arithmetic::div_mod::lemma_fundamental_div_mod_converse(
                self.sent as int,
                m,
                t,
                self.sequence as int,
            );
        } else if m == 0 {
            assert(n * 0 == 0);
        }
    }

    /// How many messages were sent.
    pub fn sent(&self) -> (sent: u64)
        ensures
            sent == self@.sent,
    {
        self.sent
    }

    /// The next packet, made at the time `now`. There must be one.
    pub fn next_packet(&mut self, now: u64) -> (out: Outgoing)
        requires
            old(self).wf(),
            old(self)@.sent < old(self)@.total(),
        ensures
            final(self).wf(),
            out.packet@ == old(self)@.packet(now),
            final(self)@ == (PublisherView { sent: old(self)@.sent + 1, ..old(self)@ }),
            out.pause == (final(self)@.sent as int % YIELD_EVERY as int == 0),
    {
        proof {
            self.lemma_progress();
        }
        assert(self.topic < self.config.topics.len());
        let packet = build_data_packet(self.config.topics[self.topic], self.sequence, now);
        self.sent += 1;
        self.sequence += 1;
        if self.sequence == self.config.messages_per_topic {
            proof {
                let (t, m) = (self.topic as int, self.config.messages_per_topic as int);
                assert((t + 1) * m == t * m + m) by (nonlinear_arith);
            }
            self.sequence = 0;
            self.topic += 1;
        }
        Outgoing { packet, pause: self.sent % YIELD_EVERY == 0 }
    }
}

/// What a publisher sends: as message number `place * messages_per_topic + k` the `k`-th message of
/// its topic at that place. So its topics are served one after the other, each with the numbers from
/// zero up to its last, none left out and none twice.
pub proof fn law_topics_are_served_one_after_the_other(
    p: PublisherView,
    place: int,
    k: int,
    now: u64,
)
    requires
        0 <= place < p.topics.len(),
        0 <= k < p.messages_per_topic,
        p.sent == place * p.messages_per_topic + k,
    ensures
        p.packet(now) == protocol::data_packet(p.topics[place], k as u64, now),
        p.sent < p.total(),
{
    let m = p.messages_per_topic as int;
    let n = p.topics.len() as int;
    vstd::arithmetic::div_mod::lemma_fundamental_div_mod_converse(p.sent as int, m, place, k);
    assert(place * m + m <= n * m) by (nonlinear_arith)
        requires
            place + 1 <= n,
            m > 0,
    ;
}

/// Every topic more is so many messages more, and without topics there are none.
pub proof fn law_topics_count_alike(a: PublisherConfig, b: PublisherConfig, topic: u32)
    requires
        b.topics@ == a.topics@.push(topic),
        b.messages_per_topic == a.messages_per_topic,
    ensures
        b.total() == a.total() + a.messages_per_topic,
        a.topics@.len() == 0 ==> a.total() == 0,
{
    let (n, m) = (a.topics@.len() as int, a.messages_per_topic as int);
    assert((n + 1) * m == n * m + m) by (nonlinear_arith);
    assert(n == 0 ==> n * m == 0) by (nonlinear_arith);
}

/// The packets that a publisher sends to its topic at a place, made at the given times.
pub open spec fn packets_of_topic(p: PublisherView, place: int, times: Seq<u64>) -> Seq<Seq<u8>> {
    Seq::new(
        times.len(),
        |k: int|
            (PublisherView { sent: (place * p.messages_per_topic + k) as nat, ..p }).packet(
                times[k],
            ),
    )
}

/// From publisher to subscriber: a subscriber that gets all that a publisher sends to a topic, in
/// order, receives as many messages as the publisher has for the topic, and misses none.
pub proof fn law_topic_arrives_in_full(p: PublisherView, place: int, times: Seq<u64>)
    requires
        0 <= place < p.topics.len(),
        times.len() == p.messages_per_topic,
    ensures
        ({
            let packets = packets_of_topic(p, place, times);
            let s = crate::subscriber::subscriber_after(seq![p.topics[place]], packets);
            &&& s.received == p.messages_per_topic
            &&& s.lost == 0
            &&& s.nacks == 0
        }),
{
    let packets = packets_of_topic(p, place, times);
    let m = p.messages_per_topic as int;
    assert(place * m >= 0) by (nonlinear_arith)
        requires
            place >= 0,
            m >= 0,
    ;
    assert forall|k: int| 0 <= k < times.len() implies #[trigger] packets[k]
        == protocol::data_packet(p.topics[place], k as u64, times[k]) by {
        let at = PublisherView { sent: (place * p.messages_per_topic + k) as nat, ..p };
        law_topics_are_served_one_after_the_other(at, place, k, times[k]);
    }
    assert(packets =~= crate::subscriber::run_of_packets(p.topics[place], times));
    crate::subscriber::law_packets_in_order_are_all_received(p.topics[place], times);
}

} // verus!
