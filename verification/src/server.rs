//! The datagram service: subscriptions by topic, and retransmission of lost packets on request.

use crate::address::SocketAddress;
use crate::codec;
use crate::codec::put_le32;
use crate::protocol;
use crate::protocol::{
    Header, NackMsg, Packet, HEADER_SIZE, MSG_ACK_CTRL, MSG_DATA, MSG_NACK, MSG_RETRANSMIT,
    MSG_SUBSCRIBE, NACK_SIZE,
};
use crate::ring_buffer;
use crate::ring_buffer::{RetransmitRing, RingView, SlotView};
use std::collections::hash_map::Entry;
use std::collections::HashMap;
use vstd::prelude::*;
use vstd::slice::{slice_subrange, slice_to_vec};

verus! {

broadcast use vstd::std_specs::hash::group_hash_axioms;

/// The longest packet that the service reads.
pub const MAX_PACKET_SIZE: usize = 4096;

/// How many packets of a topic are kept for retransmission.
pub const RING_CAPACITY: usize = 65536;

/// The longest payload that is kept for retransmission.
pub const RING_PAYLOAD: usize = 256;

#[derive(Clone, Copy, Debug)]
pub struct Subscriber {
    pub addr: SocketAddress,
}

/// A packet to be sent.
pub struct Datagram {
    pub to: SocketAddress,
    pub bytes: Vec<u8>,
}

/// What a [`Datagram`] holds.
#[verifier::ext_equal]
pub struct DatagramView {
    pub to: SocketAddress,
    pub bytes: Seq<u8>,
}

impl View for Datagram {
    type V = DatagramView;

    open spec fn view(&self) -> DatagramView {
        DatagramView { to: self.to, bytes: self.bytes@ }
    }
}

/// The views of some datagrams, in their order.
pub open spec fn datagrams(out: Seq<Datagram>) -> Seq<DatagramView> {
    out.map_values(|d: Datagram| d@)
}

/// What became of a packet.
pub struct Handled {
    /// What is to be sent, in order.
    pub out: Vec<Datagram>,
    /// Whether the packet was one to be kept for retransmission, but longer than a slot.
    pub overflow: bool,
}

/// The subscriptions and the packets that a server holds.
#[verifier::ext_equal]
pub struct ServerView {
    pub topics: Map<u32, Seq<Subscriber>>,
    pub rings: Map<u32, RingView>,
}

/// A stored packet, marked as one sent again.
pub open spec fn marked(packet: Seq<u8>) -> Seq<u8> {
    codec::le32(MSG_RETRANSMIT) + packet.skip(4)
}

/// What tells a sender that its SUBSCRIBE or NACK was taken.
pub open spec fn confirmation(topic_id: u32, to: SocketAddress) -> DatagramView {
    DatagramView { to, bytes: protocol::control_header(MSG_ACK_CTRL, topic_id).wire() }
}

impl ServerView {
    /// Nothing subscribed and nothing stored.
    pub open spec fn fresh() -> ServerView {
        ServerView { topics: Map::empty(), rings: Map::empty() }
    }

    /// Who subscribed to a topic, in the order of the subscriptions.
    pub open spec fn subscribers(self, topic_id: u32) -> Seq<Subscriber> {
        if self.topics.contains_key(topic_id) {
            self.topics[topic_id]
        } else {
            Seq::empty()
        }
    }

    /// The server after a subscription.
    pub open spec fn subscribed(self, topic_id: u32, subscriber: Subscriber) -> ServerView {
        ServerView {
            topics: self.topics.insert(topic_id, self.subscribers(topic_id).push(subscriber)),
            ..self
        }
    }

    /// The ring of a topic, or the empty one that it would get.
    pub open spec fn ring(self, topic_id: u32, capacity: nat, room: nat) -> RingView {
        if self.rings.contains_key(topic_id) {
            self.rings[topic_id]
        } else {
            RingView::fresh(capacity, room)
        }
    }

    /// The ring of a topic, or the empty one that packets of the topic are first stored in.
    pub open spec fn topic_ring(self, topic_id: u32) -> RingView {
        self.ring(topic_id, RING_CAPACITY as nat, (HEADER_SIZE + RING_PAYLOAD) as nat)
    }

    /// The server after a packet was stored.
    pub open spec fn stored(self, topic_id: u32, data: Seq<u8>, sequence: u64) -> ServerView {
        ServerView {
            rings: self.rings.insert(topic_id, self.topic_ring(topic_id).pushed(data, sequence)),
            ..self
        }
    }

    /// The stored packet of a topic with that sequence number, if there is one.
    pub open spec fn answer(self, topic_id: u32, sequence: u64) -> Option<Seq<u8>> {
        if self.rings.contains_key(topic_id) {
            self.rings[topic_id].found(sequence)
        } else {
            None
        }
    }

    /// The answers to a request for the packets from `start` up to and including `end`: those that
    /// are stored, in order, each marked as sent again.
    pub open spec fn retransmissions(
        self,
        topic_id: u32,
        start: int,
        end: int,
        to: SocketAddress,
    ) -> Seq<DatagramView>
        decreases end - start + 1,
    {
        if start > end {
            Seq::empty()
        } else {
            let earlier = self.retransmissions(topic_id, start, end - 1, to);
            match self.answer(topic_id, end as u64) {
                Some(data) => earlier.push(DatagramView { to, bytes: marked(data) }),
                None => earlier,
            }
        }
    }

    /// Whether a packet is a DATA packet that is too long to be stored.
    pub open spec fn overflows(self, packet: Seq<u8>) -> bool {
        let h = Header::parse(packet);
        &&& packet.len() >= HEADER_SIZE
        &&& h.msg_type == MSG_DATA
        &&& !self.topic_ring(h.topic_id).fits(packet.len())
    }

    /// The server after a packet was handled.
    pub open spec fn after(self, packet: Seq<u8>, from: SocketAddress) -> ServerView {
        let h = Header::parse(packet);
        if packet.len() < HEADER_SIZE {
            self
        } else if h.msg_type == MSG_SUBSCRIBE {
            self.subscribed(h.topic_id, Subscriber { addr: from })
        } else if h.msg_type == MSG_DATA && !self.overflows(packet) {
            self.stored(h.topic_id, packet, h.sequence)
        } else {
            self
        }
    }

    /// What is sent when a packet is handled: a confirmation for a SUBSCRIBE, a confirmation and
    /// then the stored packets for a NACK, and a copy to every subscriber for a DATA packet.
    pub open spec fn replies(self, packet: Seq<u8>, from: SocketAddress) -> Seq<DatagramView> {
        let h = Header::parse(packet);
        if packet.len() < HEADER_SIZE {
            Seq::empty()
        } else if h.msg_type == MSG_SUBSCRIBE {
            seq![confirmation(h.topic_id, from)]
        } else if h.msg_type == MSG_NACK && packet.len() >= HEADER_SIZE + NACK_SIZE {
            let n = NackMsg::parse(packet, HEADER_SIZE as int);
            seq![confirmation(h.topic_id, from)] + self.retransmissions(
                h.topic_id,
                n.start_seq as int,
                n.end_seq as int,
                from,
            )
        } else if h.msg_type == MSG_DATA {
            self.subscribers(h.topic_id).map_values(
                |s: Subscriber| DatagramView { to: s.addr, bytes: packet },
            )
        } else {
            Seq::empty()
        }
    }

    /// Every stored packet is long enough to be marked as sent again.
    pub open spec fn wf(self) -> bool {
        forall|t: u32, i: int|
            #![trigger self.rings[t].slots[i]]
            self.rings.contains_key(t) && 0 <= i < self.rings[t].slots.len()
                && self.rings[t].slots[i] is Holding ==> self.rings[t].slots[i]->data.len() >= 4
    }
}

pub struct ServerState {
    pub topics: HashMap<u32, Vec<Subscriber>>,
    pub rings: HashMap<u32, RetransmitRing>,
}

impl View for ServerState {
    type V = ServerView;

    open spec fn view(&self) -> ServerView {
        ServerView {
            topics: self.topics@.map_values(|v: Vec<Subscriber>| v@),
            rings: self.rings@.map_values(|r: RetransmitRing| r@),
        }
    }
}

impl ServerState {
    /// A server without subscriptions or packets.
    pub fn new() -> (state: Self)
        ensures
            state@ == ServerView::fresh(),
            state@.wf(),
    {
        let state = ServerState { topics: HashMap::new(), rings: HashMap::new() };
        assert(state@ =~= ServerView::fresh());
        state
    }

    /// Adds a subscriber to a topic, behind those that it has. A subscriber may be added twice.
    pub fn subscribe(&mut self, topic_id: u32, subscriber: Subscriber)
        ensures
            final(self)@ == old(self)@.subscribed(topic_id, subscriber),
    {
        self.topics.entry(topic_id).or_insert(Vec::new()).push(subscriber);
        assert(self@ =~= old(self)@.subscribed(topic_id, subscriber));
    }

    /// Who subscribed to a topic, in the order of the subscriptions.
    pub fn get_subscribers(&self, topic_id: u32) -> (subscribers: Vec<Subscriber>)
        ensures
            subscribers@ == self@.subscribers(topic_id),
    {
        match self.topics.get(&topic_id) {
            Some(list) => slice_to_vec(list.as_slice()),
            None => Vec::new(),
        }
    }

    /// The ring of a topic. A topic without one gets an empty one of the given size first.
    pub fn get_or_create_ring(
        &mut self,
        topic_id: u32,
        capacity: usize,
        max_payload: usize,
    ) -> (ring: &mut RetransmitRing)
        requires
            old(self)@.rings.contains_key(topic_id) || capacity == 0 || HEADER_SIZE + max_payload
                <= isize::MAX,
        ensures
            ring@ == old(self)@.ring(
                topic_id,
                capacity as nat,
                (HEADER_SIZE + max_payload) as nat,
            ),
            final(self)@ == (ServerView {
                rings: old(self)@.rings.insert(topic_id, final(ring)@),
                ..old(self)@
            }),
    {
        let ring = match self.rings.entry(topic_id) {
            Entry::Occupied(entry) => entry.into_mut(),
            Entry::Vacant(entry) => entry.insert(RetransmitRing::new(capacity, max_payload)),
        };
        ring
    }

    /// Whether a packet of `len` bytes can be stored for a topic.
    pub fn fits(&self, topic_id: u32, len: usize) -> (yes: bool)
        ensures
            yes == self@.topic_ring(topic_id).fits(len as nat),
    {
        match self.rings.get(&topic_id) {
            Some(ring) => ring.fits(len),
            None => len <= HEADER_SIZE + RING_PAYLOAD,
        }
    }

    /// Stores a packet, so that it can be sent again on request.
    pub fn store_for_retransmit(&mut self, topic_id: u32, data: &[u8], sequence: u64)
        requires
            old(self)@.topic_ring(topic_id).fits(data@.len()),
        ensures
            final(self)@ == old(self)@.stored(topic_id, data@, sequence),
    {
        let ring = self.get_or_create_ring(topic_id, RING_CAPACITY, RING_PAYLOAD);
        ring.push(data, sequence);
        assert(self@ =~= old(self)@.stored(topic_id, data@, sequence));
    }

    /// The stored packet of a topic with that sequence number, if there is one.
    pub fn fulfill_nack(&self, topic_id: u32, seq: u64) -> (data: Option<Vec<u8>>)
        ensures
            match data {
                Some(d) => self@.answer(topic_id, seq) == Some(d@),
                None => self@.answer(topic_id, seq) is None,
            },
    {
        match self.rings.get(&topic_id) {
            Some(ring) => ring.get(seq),
            None => None,
        }
    }

    /// Answers a request for the packets from `start` up to and including `end`, behind `out`.
    fn retransmit(
        &self,
        topic_id: u32,
        start: u64,
        end: u64,
        to: SocketAddress,
        out: &mut Vec<Datagram>,
    )
        requires
            self@.wf(),
        ensures
            datagrams(final(out)@) == datagrams(old(out)@) + self@.retransmissions(
                topic_id,
                start as int,
                end as int,
                to,
            ),
    {
        let mut seq: u64 = start;
        let mut more: bool = start <= end;
        let ghost first = datagrams(out@);
        assert(first + Seq::<DatagramView>::empty() =~= first);
        while more
            invariant
                self@.wf(),
                start <= seq <= end || !more,
                more ==> datagrams(out@) == first + self@.retransmissions(
                    topic_id,
                    start as int,
                    seq - 1,
                    to,
                ),
                !more ==> datagrams(out@) == first + self@.retransmissions(
                    topic_id,
                    start as int,
                    end as int,
                    to,
                ),
            decreases end - seq + if more {
                1int
            } else {
                0int
            },
        {
            let ghost before = out@;
            if let Some(mut data) = self.fulfill_nack(topic_id, seq) {
                proof {
                    lemma_stored_packet_can_be_marked(self@, topic_id, seq);
                }
                put_le32(data.as_mut_slice(), 0, MSG_RETRANSMIT);
                let ghost found = self@.answer(topic_id, seq)->0;
                assert(data@ =~= marked(found));
                out.push(Datagram { to, bytes: data });
                assert(datagrams(out@) =~= datagrams(before).push(
                    DatagramView { to, bytes: marked(found) },
                ));
                assert(datagrams(out@) =~= first + self@.retransmissions(
                    topic_id,
                    start as int,
                    seq as int,
                    to,
                ));
            }
            if seq == end {
                more = false;
            } else {
                seq += 1;
            }
        }
    }

    /// What tells a sender that its SUBSCRIBE or NACK was taken.
    fn confirm(topic_id: u32, to: SocketAddress) -> (datagram: Datagram)
        ensures
            datagram@ == confirmation(topic_id, to),
    {
        let ack = Packet {
            header: Header { msg_type: MSG_ACK_CTRL, topic_id, sequence: 0, timestamp_ns: 0 },
            payload: Vec::new(),
        };
        let bytes = ack.to_bytes();
        assert(bytes@ =~= ack.header.wire());
        Datagram { to, bytes }
    }

    /// Copies a packet to every subscriber of its topic.
    fn forward(&self, topic_id: u32, packet: &[u8]) -> (out: Vec<Datagram>)
        ensures
            datagrams(out@) == self@.subscribers(topic_id).map_values(
                |s: Subscriber| DatagramView { to: s.addr, bytes: packet@ },
            ),
    {
        let subscribers = self.get_subscribers(topic_id);
        let mut out: Vec<Datagram> = Vec::new();
        let mut i: usize = 0;
        while i < subscribers.len()
            invariant
                i <= subscribers@.len(),
                out@.len() == i,
                forall|j: int|
                    0 <= j < i ==> (#[trigger] out@[j])@ == (DatagramView {
                        to: subscribers@[j].addr,
                        bytes: packet@,
                    }),
            decreases subscribers@.len() - i,
        {
            out.push(Datagram { to: subscribers[i].addr, bytes: slice_to_vec(packet) });
            i += 1;
        }
        assert(datagrams(out@) =~= self@.subscribers(topic_id).map_values(
            |s: Subscriber| DatagramView { to: s.addr, bytes: packet@ },
        ));
        out
    }

    /// Handles one packet that came from `from`.
    pub fn handle_packet(&mut self, packet: &[u8], from: SocketAddress) -> (handled: Handled)
        requires
            old(self)@.wf(),
        ensures
            final(self)@ == old(self)@.after(packet@, from),
            final(self)@.wf(),
            datagrams(handled.out@) == old(self)@.replies(packet@, from),
            handled.overflow == old(self)@.overflows(packet@),
    {
        if packet.len() < HEADER_SIZE {
            return Handled { out: Vec::new(), overflow: false };
        }
        let header = Header::deserialize(packet);
        let topic_id: u32 = header.topic_id;
        if header.msg_type == MSG_SUBSCRIBE {
            self.subscribe(topic_id, Subscriber { addr: from });
            let mut out: Vec<Datagram> = Vec::new();
            out.push(Self::confirm(topic_id, from));
            assert(datagrams(out@) =~= old(self)@.replies(packet@, from));
            Handled { out, overflow: false }
        } else if header.msg_type == MSG_NACK {
            if packet.len() < HEADER_SIZE + NACK_SIZE {
                return Handled { out: Vec::new(), overflow: false };
            }
            let nack = NackMsg::deserialize(slice_subrange(packet, HEADER_SIZE, packet.len()));
            let mut out: Vec<Datagram> = Vec::new();
            out.push(Self::confirm(topic_id, from));
            assert(datagrams(out@) =~= seq![confirmation(topic_id, from)]);
            self.retransmit(topic_id, nack.start_seq, nack.end_seq, from, &mut out);
            Handled { out, overflow: false }
        } else if header.msg_type == MSG_DATA {
            let out = self.forward(topic_id, packet);
            if !self.fits(topic_id, packet.len()) {
                return Handled { out, overflow: true };
            }
            self.store_for_retransmit(topic_id, packet, header.sequence);
            Handled { out, overflow: false }
        } else {
            Handled { out: Vec::new(), overflow: false }
        }
    }
}

/// A packet that is found is one that is stored.
proof fn lemma_found_is_stored(r: RingView, sequence: u64, from: int) -> (at: int)
    requires
        0 <= from,
        r.found_from(sequence, from) is Some,
    ensures
        from <= at < r.slots.len(),
        r.slots[at].holds(sequence),
        r.found_from(sequence, from) == Some(r.slots[at]->data),
    decreases r.slots.len() - from,
{
    if r.slots[from].holds(sequence) {
        from
    } else {
        lemma_found_is_stored(r, sequence, from + 1)
    }
}

proof fn lemma_stored_packet_can_be_marked(s: ServerView, topic_id: u32, sequence: u64)
    requires
        s.wf(),
        s.answer(topic_id, sequence) is Some,
    ensures
        s.answer(topic_id, sequence)->0.len() >= 4,
{
    let at = lemma_found_is_stored(s.rings[topic_id], sequence, 0);
    assert(s.rings[topic_id].slots[at] is Holding);
}

/// A packet that reached the server.
pub struct Arrival {
    pub from: SocketAddress,
    pub bytes: Seq<u8>,
}

/// The server that a new one becomes when it handles `arrivals` in turn.
pub open spec fn server_after(arrivals: Seq<Arrival>) -> ServerView
    decreases arrivals.len(),
{
    if arrivals.len() == 0 {
        ServerView::fresh()
    } else {
        server_after(arrivals.drop_last()).after(arrivals.last().bytes, arrivals.last().from)
    }
}

/// Whether a packet is of that type and topic.
pub open spec fn is_packet_of(bytes: Seq<u8>, msg_type: u32, topic_id: u32) -> bool {
    &&& bytes.len() >= HEADER_SIZE
    &&& Header::parse(bytes).msg_type == msg_type
    &&& Header::parse(bytes).topic_id == topic_id
}

/// The senders of the SUBSCRIBE packets for a topic, in order.
pub open spec fn subscriptions(arrivals: Seq<Arrival>, topic_id: u32) -> Seq<Subscriber>
    decreases arrivals.len(),
{
    if arrivals.len() == 0 {
        Seq::empty()
    } else {
        let earlier = subscriptions(arrivals.drop_last(), topic_id);
        if is_packet_of(arrivals.last().bytes, MSG_SUBSCRIBE, topic_id) {
            earlier.push(Subscriber { addr: arrivals.last().from })
        } else {
            earlier
        }
    }
}

/// The DATA packets of a topic that are not too long to be stored, in order, each with its sequence
/// number.
pub open spec fn kept(arrivals: Seq<Arrival>, topic_id: u32) -> Seq<(Seq<u8>, u64)>
    decreases arrivals.len(),
{
    if arrivals.len() == 0 {
        Seq::empty()
    } else {
        let earlier = kept(arrivals.drop_last(), topic_id);
        let bytes = arrivals.last().bytes;
        if is_packet_of(bytes, MSG_DATA, topic_id) && bytes.len() <= HEADER_SIZE + RING_PAYLOAD {
            earlier.push((bytes, Header::parse(bytes).sequence))
        } else {
            earlier
        }
    }
}

/// Whatever packets arrive, the subscribers of a topic are those that asked for it, in order, and
/// its ring is the one that its DATA packets make: no packet touches another topic.
pub proof fn law_server_reflects_arrivals(arrivals: Seq<Arrival>, topic_id: u32)
    ensures
        server_after(arrivals).wf(),
        server_after(arrivals).subscribers(topic_id) == subscriptions(arrivals, topic_id),
        server_after(arrivals).topic_ring(topic_id) == ring_buffer::ring_after(
            RING_CAPACITY as nat,
            (HEADER_SIZE + RING_PAYLOAD) as nat,
            kept(arrivals, topic_id),
        ),
        server_after(arrivals).rings.contains_key(topic_id) <==> kept(arrivals, topic_id).len() > 0,
    decreases arrivals.len(),
{
    if arrivals.len() > 0 {
        law_server_reflects_arrivals(arrivals.drop_last(), topic_id);
        let earlier = kept(arrivals.drop_last(), topic_id);
        let packet = (arrivals.last().bytes, Header::parse(arrivals.last().bytes).sequence);
        assert(earlier.push(packet).drop_last() =~= earlier);
        ring_buffer::lemma_ring_shape(
            RING_CAPACITY as nat,
            (HEADER_SIZE + RING_PAYLOAD) as nat,
            earlier,
        );
    }
}

/// Marking a packet as sent again changes its type and nothing else.
pub proof fn law_marking_keeps_the_rest(packet: Seq<u8>)
    requires
        packet.len() >= HEADER_SIZE,
    ensures
        marked(packet).len() == packet.len(),
        marked(packet).skip(4) == packet.skip(4),
        Header::parse(marked(packet)) == (Header {
            msg_type: MSG_RETRANSMIT,
            ..Header::parse(packet)
        }),
{
    let m = marked(packet);
    assert(m.skip(4) =~= packet.skip(4));
    assert(m.subrange(0, 4) =~= codec::le32(MSG_RETRANSMIT));
    codec::lemma_le32_round_trip(m, 0, MSG_RETRANSMIT);
    assert forall|i: int| 4 <= i < packet.len() implies #[trigger] m[i] == packet[i] by {
        assert(m[i] == m.skip(4)[i - 4]);
        assert(packet[i] == packet.skip(4)[i - 4]);
    }
}

/// Whatever packets arrived, a request for one of the last DATA packets of a topic is answered with
/// that packet, marked as sent again, as long as those packets have different sequence numbers.
pub proof fn law_recent_packets_are_sent_again(
    arrivals: Seq<Arrival>,
    topic_id: u32,
    k: int,
    to: SocketAddress,
)
    requires
        0 <= k < kept(arrivals, topic_id).len() <= usize::MAX,
        kept(arrivals, topic_id).len() - RING_CAPACITY <= k,
        forall|i: int, j: int|
            0 <= i < j < kept(arrivals, topic_id).len() && kept(arrivals, topic_id).len()
                - RING_CAPACITY <= i ==> (#[trigger] kept(arrivals, topic_id)[i]).1 != (
            #[trigger] kept(arrivals, topic_id)[j]).1,
    ensures
        ({
            let (packet, sequence) = kept(arrivals, topic_id)[k];
            server_after(arrivals).retransmissions(
                topic_id,
                sequence as int,
                sequence as int,
                to,
            ) == seq![DatagramView { to, bytes: marked(packet) }]
        }),
{
    let (packet, sequence) = kept(arrivals, topic_id)[k];
    let s = server_after(arrivals);
    law_server_reflects_arrivals(arrivals, topic_id);
    ring_buffer::law_last_packets_are_found(
        RING_CAPACITY as nat,
        (HEADER_SIZE + RING_PAYLOAD) as nat,
        kept(arrivals, topic_id),
    );
    assert(s.answer(topic_id, sequence) == Some(packet));
    let none = s.retransmissions(topic_id, sequence as int, sequence - 1, to);
    assert(none =~= Seq::<DatagramView>::empty());
    assert(s.retransmissions(topic_id, sequence as int, sequence as int, to) =~= seq![
        DatagramView { to, bytes: marked(packet) },
    ]);
}

/// A packet is never answered for another: what is sent again under a sequence number is a DATA
/// packet of that topic with that number.
pub proof fn law_answers_match_the_request(
    arrivals: Seq<Arrival>,
    topic_id: u32,
    sequence: u64,
)
    requires
        server_after(arrivals).answer(topic_id, sequence) is Some,
    ensures
        ({
            let packet = server_after(arrivals).answer(topic_id, sequence)->0;
            &&& is_packet_of(packet, MSG_DATA, topic_id)
            &&& Header::parse(packet).sequence == sequence
        }),
{
    let s = server_after(arrivals);
    let at = lemma_found_is_stored(s.rings[topic_id], sequence, 0);
    lemma_slots_match(arrivals, topic_id, at);
}

/// What a slot of a topic's ring holds is a DATA packet of the topic.
proof fn lemma_slots_match(arrivals: Seq<Arrival>, topic_id: u32, at: int)
    requires
        server_after(arrivals).rings.contains_key(topic_id),
        0 <= at < server_after(arrivals).rings[topic_id].slots.len(),
        server_after(arrivals).rings[topic_id].slots[at] is Holding,
    ensures
        ({
            let slot = server_after(arrivals).rings[topic_id].slots[at];
            &&& is_packet_of(slot->data, MSG_DATA, topic_id)
            &&& Header::parse(slot->data).sequence == slot->sequence
        }),
    decreases arrivals.len(),
{
    if arrivals.len() > 0 {
        let before = server_after(arrivals.drop_last());
        let after = server_after(arrivals);
        if before.rings.contains_key(topic_id) && before.rings[topic_id] == after.rings[topic_id] {
            lemma_slots_match(arrivals.drop_last(), topic_id, at);
        } else if at != before.topic_ring(topic_id).next() {
            assert(before.topic_ring(topic_id).slots[at] == after.rings[topic_id].slots[at]);
            if before.rings.contains_key(topic_id) {
                lemma_slots_match(arrivals.drop_last(), topic_id, at);
            }
        }
    }
}

/// A range is answered number by number: what is sent for it is what is sent for a first part of it
/// and then for the rest, wherever it is cut. For one number it is the stored packet with that
/// number, marked as sent again, if there is one; and for no number it is nothing.
pub proof fn law_ranges_are_answered_number_by_number(
    s: ServerView,
    topic_id: u32,
    start: int,
    cut: int,
    end: int,
    to: SocketAddress,
)
    requires
        0 <= start <= cut <= end + 1,
        end <= u64::MAX,
    ensures
        s.retransmissions(topic_id, start, end, to) == s.retransmissions(
            topic_id,
            start,
            cut - 1,
            to,
        ) + s.retransmissions(topic_id, cut, end, to),
        start <= u64::MAX ==> s.retransmissions(topic_id, start, start, to) == match s.answer(
            topic_id,
            start as u64,
        ) {
            Some(data) => seq![DatagramView { to, bytes: marked(data) }],
            None => Seq::<DatagramView>::empty(),
        },
        s.retransmissions(topic_id, start, start - 1, to) == Seq::<DatagramView>::empty(),
    decreases end - cut + 1,
{
    if cut > end {
        assert(s.retransmissions(topic_id, start, cut - 1, to) + s.retransmissions(
            topic_id,
            cut,
            end,
            to,
        ) =~= s.retransmissions(topic_id, start, end, to));
    } else {
        law_ranges_are_answered_number_by_number(s, topic_id, start, cut, end - 1, to);
        assert(s.retransmissions(topic_id, start, cut - 1, to) + s.retransmissions(
            topic_id,
            cut,
            end,
            to,
        ) =~= s.retransmissions(topic_id, start, end, to));
    }
    let none = s.retransmissions(topic_id, start, start - 1, to);
    assert(none =~= Seq::<DatagramView>::empty());
    if start <= u64::MAX {
        if let Some(data) = s.answer(topic_id, start as u64) {
            assert(s.retransmissions(topic_id, start, start, to) =~= seq![
                DatagramView { to, bytes: marked(data) },
            ]);
        }
    }
}

/// The sequence number of a packet.
#[verifier::opaque]
pub open spec fn number_of(bytes: Seq<u8>) -> u64 {
    Header::parse(bytes).sequence
}

/// Whether a datagram is the answer to a request for the number that it carries.
spec fn is_answer(s: ServerView, topic_id: u32, d: DatagramView, to: SocketAddress) -> bool {
    &&& d.to == to
    &&& s.answer(topic_id, number_of(d.bytes)) is Some
    &&& d.bytes == marked(s.answer(topic_id, number_of(d.bytes))->0)
}

/// What is sent for a range stands for numbers of the range, in rising order, and for every number
/// of which a packet is stored.
#[verifier::spinoff_prover]
proof fn lemma_range(s: ServerView, topic_id: u32, start: int, end: int, to: SocketAddress)
    requires
        0 <= start,
        end <= u64::MAX,
        forall|k: u64|
            (#[trigger] s.answer(topic_id, k)) is Some ==> number_of(marked(s.answer(topic_id, k)->0))
                == k,
    ensures
        ({
            let out = s.retransmissions(topic_id, start, end, to);
            &&& forall|i: int|
                0 <= i < out.len() ==> is_answer(s, topic_id, #[trigger] out[i], to) && start
                    <= number_of(out[i].bytes) <= end
            &&& forall|i: int, j: int|
                0 <= i < j < out.len() ==> number_of((#[trigger] out[i]).bytes) < number_of(
                    (#[trigger] out[j]).bytes,
                )
            &&& forall|k: u64|
                start <= k <= end && (#[trigger] s.answer(topic_id, k)) is Some ==> out.contains(
                    DatagramView { to, bytes: marked(s.answer(topic_id, k)->0) },
                )
        }),
    decreases end - start + 1,
{
    if start <= end {
        let before = s.retransmissions(topic_id, start, end - 1, to);
        let out = s.retransmissions(topic_id, start, end, to);
        lemma_range(s, topic_id, start, end - 1, to);
        if s.answer(topic_id, end as u64) is Some {
            let last = DatagramView { to, bytes: marked(s.answer(topic_id, end as u64)->0) };
            assert(out == before.push(last));
            assert(number_of(last.bytes) == end);
            assert(out[out.len() - 1] == last);
        } else {
            assert(out == before);
        }
        assert forall|k: u64|
            start <= k <= end && (#[trigger] s.answer(topic_id, k)) is Some implies out.contains(
            DatagramView { to, bytes: marked(s.answer(topic_id, k)->0) },
        ) by {
            let d = DatagramView { to, bytes: marked(s.answer(topic_id, k)->0) };
            if k < end {
                assert(before.contains(d));
                let i = choose|i: int| 0 <= i < before.len() && before[i] == d;
                assert(out[i] == d);
            } else {
                assert(out[out.len() - 1] == d);
            }
        }
    }
}

/// The answers of a server carry the numbers that they were asked for by.
proof fn lemma_answers_carry_numbers(arrivals: Seq<Arrival>, topic_id: u32)
    ensures
        forall|k: u64|
            (#[trigger] server_after(arrivals).answer(topic_id, k)) is Some ==> number_of(
                marked(server_after(arrivals).answer(topic_id, k)->0),
            ) == k,
{
    reveal(number_of);
    assert forall|k: u64|
        (#[trigger] server_after(arrivals).answer(topic_id, k)) is Some implies number_of(
        marked(server_after(arrivals).answer(topic_id, k)->0),
    ) == k by {
        law_answers_match_the_request(arrivals, topic_id, k);
        law_marking_keeps_the_rest(server_after(arrivals).answer(topic_id, k)->0);
    }
}

/// Whether a packet that was kept is one of those that its ring still holds, with a number in a
/// range.
pub open spec fn is_recent_in(
    packets: Seq<(Seq<u8>, u64)>,
    k: int,
    start: u64,
    end: u64,
) -> bool {
    0 <= k < packets.len() && packets.len() - 65536 <= k && start <= packets[k].1 <= end
}

/// The answers to a range are the last DATA packets with numbers in the range.
proof fn lemma_range_is_kept(
    arrivals: Seq<Arrival>,
    topic_id: u32,
    start: u64,
    end: u64,
    q: u64,
)
    requires
        kept(arrivals, topic_id).len() <= usize::MAX,
        forall|i: int, j: int|
            0 <= i < j < kept(arrivals, topic_id).len() && kept(arrivals, topic_id).len() - 65536
                <= i ==> (#[trigger] kept(arrivals, topic_id)[i]).1 != (#[trigger] kept(
                arrivals,
                topic_id,
            )[j]).1,
    ensures
        forall|k: int| #[trigger]
            is_recent_in(kept(arrivals, topic_id), k, start, end) ==> server_after(arrivals).answer(
                topic_id,
                kept(arrivals, topic_id)[k].1,
            ) == Some(kept(arrivals, topic_id)[k].0),
        server_after(arrivals).answer(topic_id, q) is Some && start <= q <= end ==> exists|k: int|
            #[trigger] is_recent_in(kept(arrivals, topic_id), k, start, end) && kept(
                arrivals,
                topic_id,
            )[k].1 == q,
{
    let packets = kept(arrivals, topic_id);
    let (capacity, room) = (RING_CAPACITY as nat, (HEADER_SIZE + RING_PAYLOAD) as nat);
    let ring = ring_buffer::ring_after(capacity, room, packets);
    law_server_reflects_arrivals(arrivals, topic_id);
    ring_buffer::law_last_packets_are_found(capacity, room, packets);
    assert forall|k: int| #[trigger] is_recent_in(packets, k, start, end) implies server_after(
        arrivals,
    ).answer(topic_id, packets[k].1) == Some(packets[k].0) by {
        assert(ring.found(packets[k].1) == Some(packets[k].0));
    }
    if server_after(arrivals).answer(topic_id, q) is Some && start <= q <= end {
        assert(ring.found(q) is Some);
        let k = choose|k: int|
            0 <= k < packets.len() && packets.len() - capacity <= k && (#[trigger] packets[k]).1
                == q;
        assert(is_recent_in(packets, k, start, end));
    }
}

/// Whether a datagram is such a packet, marked as sent again.
pub open spec fn is_resent(
    d: DatagramView,
    packets: Seq<(Seq<u8>, u64)>,
    k: int,
    start: u64,
    end: u64,
    to: SocketAddress,
) -> bool {
    is_recent_in(packets, k, start, end) && d.to == to && d.bytes == marked(packets[k].0)
}

/// Whether a datagram is one of those packets.
pub open spec fn is_asked_for(
    d: DatagramView,
    packets: Seq<(Seq<u8>, u64)>,
    start: u64,
    end: u64,
    to: SocketAddress,
) -> bool {
    exists|k: int| #[trigger] is_resent(d, packets, k, start, end, to)
}

/// Whether datagrams bring back what is asked for: every recent packet with a number in the range,
/// and nothing else, each once and in the order of the numbers, marked as sent again.
pub open spec fn brings_back(
    out: Seq<DatagramView>,
    packets: Seq<(Seq<u8>, u64)>,
    start: u64,
    end: u64,
    to: SocketAddress,
) -> bool {
    &&& forall|k: int| #[trigger]
        is_recent_in(packets, k, start, end) ==> out.contains(
            DatagramView { to, bytes: marked(packets[k].0) },
        )
    &&& forall|i: int|
        0 <= i < out.len() ==> is_asked_for(#[trigger] out[i], packets, start, end, to)
    &&& forall|i: int, j: int|
        0 <= i < j < out.len() ==> number_of((#[trigger] out[i]).bytes) < number_of(
            (#[trigger] out[j]).bytes,
        )
}

#[verifier::spinoff_prover]
proof fn lemma_brings_back(
    arrivals: Seq<Arrival>,
    topic_id: u32,
    start: u64,
    end: u64,
    to: SocketAddress,
)
    requires
        kept(arrivals, topic_id).len() <= usize::MAX,
        forall|i: int, j: int|
            0 <= i < j < kept(arrivals, topic_id).len() && kept(arrivals, topic_id).len() - 65536
                <= i ==> (#[trigger] kept(arrivals, topic_id)[i]).1 != (#[trigger] kept(
                arrivals,
                topic_id,
            )[j]).1,
    ensures
        brings_back(
            server_after(arrivals).retransmissions(topic_id, start as int, end as int, to),
            kept(arrivals, topic_id),
            start,
            end,
            to,
        ),
{
    let s = server_after(arrivals);
    let packets = kept(arrivals, topic_id);
    let out = s.retransmissions(topic_id, start as int, end as int, to);
    lemma_answers_carry_numbers(arrivals, topic_id);
    lemma_range(s, topic_id, start as int, end as int, to);
    assert forall|k: int| #[trigger] is_recent_in(packets, k, start, end) implies out.contains(
        DatagramView { to, bytes: marked(packets[k].0) },
    ) by {
        lemma_range_is_kept(arrivals, topic_id, start, end, 0);
        assert(s.answer(topic_id, packets[k].1) == Some(packets[k].0));
    }
    assert forall|i: int|
        0 <= i < out.len() implies is_asked_for(#[trigger] out[i], packets, start, end, to) by {
        let q = number_of(out[i].bytes);
        assert(is_answer(s, topic_id, out[i], to));
        lemma_range_is_kept(arrivals, topic_id, start, end, q);
        let k = choose|k: int| #[trigger]
            is_recent_in(packets, k, start, end) && packets[k].1 == q;
        assert(s.answer(topic_id, packets[k].1) == Some(packets[k].0));
        assert(is_resent(out[i], packets, k, start, end, to));
    }
}

/// The packet that asks for a range, with any bytes behind it.
pub open spec fn nack_for(topic_id: u32, start: u64, end: u64, behind: Seq<u8>) -> Seq<u8> {
    protocol::control_header(MSG_NACK, topic_id).wire() + (NackMsg {
        start_seq: start,
        end_seq: end,
    }).wire() + behind
}

#[verifier::spinoff_prover]
proof fn lemma_nack_is_read(
    s: ServerView,
    topic_id: u32,
    start: u64,
    end: u64,
    behind: Seq<u8>,
    from: SocketAddress,
)
    ensures
        s.replies(nack_for(topic_id, start, end, behind), from) == seq![
            confirmation(topic_id, from),
        ] + s.retransmissions(topic_id, start as int, end as int, from),
{
    let n = NackMsg { start_seq: start, end_seq: end };
    let h = protocol::control_header(MSG_NACK, topic_id);
    protocol::law_header_round_trip(h, n.wire() + behind);
    protocol::law_nack_round_trip(h.wire(), n, behind);
    assert(nack_for(topic_id, start, end, behind) =~= h.wire() + (n.wire() + behind));
}

/// Whatever packets arrived, a NACK for a range brings the confirmation and then every one of the
/// last DATA packets of the topic whose number lies in the range, ends included, each once, marked
/// as sent again, in the order of the numbers, and nothing else. The last packets must have
/// different sequence numbers. Bytes behind the body of the NACK do not matter.
#[verifier::spinoff_prover]
pub proof fn law_nack_brings_back_the_range(
    arrivals: Seq<Arrival>,
    topic_id: u32,
    start: u64,
    end: u64,
    behind: Seq<u8>,
    from: SocketAddress,
)
    requires
        kept(arrivals, topic_id).len() <= usize::MAX,
        forall|i: int, j: int|
            0 <= i < j < kept(arrivals, topic_id).len() && kept(arrivals, topic_id).len() - 65536
                <= i ==> (#[trigger] kept(arrivals, topic_id)[i]).1 != (#[trigger] kept(
                arrivals,
                topic_id,
            )[j]).1,
    ensures
        ({
            let replies = server_after(arrivals).replies(
                nack_for(topic_id, start, end, behind),
                from,
            );
            &&& replies.len() > 0
            &&& replies[0] == confirmation(topic_id, from)
            &&& brings_back(
                replies.drop_first(),
                kept(arrivals, topic_id),
                start,
                end,
                from,
            )
        }),
{
    let s = server_after(arrivals);
    lemma_nack_is_read(s, topic_id, start, end, behind, from);
    let replies = s.replies(nack_for(topic_id, start, end, behind), from);
    assert(replies.drop_first() =~= s.retransmissions(topic_id, start as int, end as int, from));
    lemma_brings_back(arrivals, topic_id, start, end, from);
}

/// A DATA packet is sent on whole and unchanged: one datagram for each subscription to its topic, in
/// the order of the subscriptions, to the address of that subscription.
pub proof fn law_data_is_forwarded(s: ServerView, topic_id: u32, packet: Seq<u8>, from: SocketAddress)
    requires
        is_packet_of(packet, MSG_DATA, topic_id),
    ensures
        s.replies(packet, from).len() == s.subscribers(topic_id).len(),
        forall|i: int|
            0 <= i < s.subscribers(topic_id).len() ==> (#[trigger] s.replies(packet, from)[i]).to
                == s.subscribers(topic_id)[i].addr && s.replies(packet, from)[i].bytes == packet,
{
}

/// Whatever packets arrived, a DATA packet reaches those that asked for its topic, each as often as
/// it asked, in the order in which they asked.
pub proof fn law_data_reaches_every_subscriber(
    arrivals: Seq<Arrival>,
    topic_id: u32,
    packet: Seq<u8>,
    from: SocketAddress,
)
    requires
        is_packet_of(packet, MSG_DATA, topic_id),
    ensures
        ({
            let asked = subscriptions(arrivals, topic_id);
            let out = server_after(arrivals).replies(packet, from);
            &&& out.len() == asked.len()
            &&& forall|i: int|
                0 <= i < asked.len() ==> (#[trigger] out[i]).to == asked[i].addr && out[i].bytes
                    == packet
        }),
{
    law_server_reflects_arrivals(arrivals, topic_id);
    law_data_is_forwarded(server_after(arrivals), topic_id, packet, from);
}

/// A SUBSCRIBE is answered with a confirmation to its sender, and with nothing else. A packet that
/// is too short for a header, or a NACK too short for its body, is answered with nothing, and so is
/// one of any other type. What is neither a SUBSCRIBE nor a DATA packet changes nothing.
pub proof fn law_replies_go_by_type(s: ServerView, packet: Seq<u8>, from: SocketAddress)
    ensures
        forall|topic_id: u32| #[trigger]
            is_packet_of(packet, MSG_SUBSCRIBE, topic_id) ==> s.replies(packet, from) == seq![
                confirmation(topic_id, from),
            ],
        packet.len() < 24 ==> s.replies(packet, from) == Seq::<DatagramView>::empty(),
        packet.len() >= 24 && Header::parse(packet).msg_type == MSG_NACK && packet.len() < 40
            ==> s.replies(packet, from) == Seq::<DatagramView>::empty(),
        packet.len() >= 24 && Header::parse(packet).msg_type != MSG_SUBSCRIBE && Header::parse(
            packet,
        ).msg_type != MSG_NACK && Header::parse(packet).msg_type != MSG_DATA ==> s.replies(
            packet,
            from,
        ) == Seq::<DatagramView>::empty(),
        packet.len() < 24 || (Header::parse(packet).msg_type != MSG_SUBSCRIBE && Header::parse(
            packet,
        ).msg_type != MSG_DATA) ==> s.after(packet, from) == s,
{
}

/// A confirmation goes to the sender, and is a header alone: of the type for it, with the topic.
pub proof fn law_confirmation_names_the_topic(topic_id: u32, to: SocketAddress)
    ensures
        confirmation(topic_id, to).to == to,
        protocol::parsed_packet(confirmation(topic_id, to).bytes) == Some(
            (MSG_ACK_CTRL, topic_id, 0u64, 0u64, None::<protocol::BenchPayload>),
        ),
        confirmation(topic_id, to).bytes.len() == 24,
{
    let h = protocol::control_header(MSG_ACK_CTRL, topic_id);
    protocol::law_header_round_trip(h, Seq::empty());
    assert(h.wire() + Seq::<u8>::empty() =~= h.wire());
}

/// A subscription puts one more behind those of its topic, and touches nothing else.
pub proof fn law_subscription_is_added(
    s: ServerView,
    topic_id: u32,
    subscriber: Subscriber,
    other: u32,
)
    ensures
        s.subscribed(topic_id, subscriber).subscribers(topic_id) == s.subscribers(topic_id).push(
            subscriber,
        ),
        other != topic_id ==> s.subscribed(topic_id, subscriber).subscribers(other)
            == s.subscribers(other),
        s.subscribed(topic_id, subscriber).rings == s.rings,
{
}

/// Whatever packets arrived, a DATA packet is too long to be kept just if it has more than 256 bytes
/// behind its header; and it is kept or too long.
pub proof fn law_only_long_packets_overflow(
    arrivals: Seq<Arrival>,
    topic_id: u32,
    packet: Seq<u8>,
    from: SocketAddress,
)
    requires
        is_packet_of(packet, MSG_DATA, topic_id),
    ensures
        server_after(arrivals).overflows(packet) <==> packet.len() > 24 + 256,
        server_after(arrivals).after(packet, from).topic_ring(topic_id) == if packet.len() > 24
            + 256 {
            server_after(arrivals).topic_ring(topic_id)
        } else {
            server_after(arrivals).topic_ring(topic_id).pushed(
                packet,
                Header::parse(packet).sequence,
            )
        },
        server_after(arrivals).after(packet, from).topics == server_after(arrivals).topics,
{
    law_server_reflects_arrivals(arrivals, topic_id);
    ring_buffer::lemma_ring_shape(
        RING_CAPACITY as nat,
        (HEADER_SIZE + RING_PAYLOAD) as nat,
        kept(arrivals, topic_id),
    );
}

/// Every datagram is shown, in its place, with where it goes and all its bytes.
pub proof fn law_datagrams_are_shown_whole(out: Seq<Datagram>)
    ensures
        datagrams(out).len() == out.len(),
        forall|i: int|
            0 <= i < out.len() ==> (#[trigger] datagrams(out)[i]).to == out[i].to && datagrams(
                out,
            )[i].bytes == out[i].bytes@,
{
}

/// A topic without a ring gets one with so many slots, in which nothing is found, and which takes
/// packets up to its room; a topic with a ring keeps it, whatever size is asked for.
pub proof fn law_new_rings_are_empty(
    s: ServerView,
    topic_id: u32,
    capacity: nat,
    room: nat,
    sequence: u64,
    len: nat,
)
    ensures
        s.rings.contains_key(topic_id) ==> s.ring(topic_id, capacity, room) == s.rings[topic_id],
        !s.rings.contains_key(topic_id) ==> {
            let r = s.ring(topic_id, capacity, room);
            &&& r.slots.len() == capacity
            &&& r.found(sequence) is None
            &&& r.fits(len) <==> capacity > 0 && len <= room
            &&& s.answer(topic_id, sequence) is None
        },
{
    if !s.rings.contains_key(topic_id) {
        ring_buffer::law_found_is_the_first(s.ring(topic_id, capacity, room), sequence);
    }
}

/// Storing a packet pushes it to the ring of its topic, from which it is answered then, and touches
/// no other ring and no subscription.
pub proof fn law_storing_touches_one_ring(
    s: ServerView,
    topic_id: u32,
    data: Seq<u8>,
    sequence: u64,
    other: u32,
    asked_for: u64,
)
    ensures
        s.stored(topic_id, data, sequence).topic_ring(topic_id) == s.topic_ring(topic_id).pushed(
            data,
            sequence,
        ),
        s.stored(topic_id, data, sequence).answer(topic_id, asked_for) == s.topic_ring(
            topic_id,
        ).pushed(data, sequence).found(asked_for),
        other != topic_id ==> s.stored(topic_id, data, sequence).topic_ring(other) == s.topic_ring(
            other,
        ) && s.stored(topic_id, data, sequence).answer(other, asked_for) == s.answer(
            other,
            asked_for,
        ),
        s.stored(topic_id, data, sequence).topics == s.topics,
{
}

} // verus!
