//! The last packets of a topic, kept so that requests for retransmission can be answered.

use crate::arith;
use crate::protocol::HEADER_SIZE;
use vstd::prelude::*;
use vstd::slice::slice_to_vec;

verus! {

/// One slot of the ring.
struct RingSlot {
    /// The packet, header and payload.
    data: Vec<u8>,
    /// The sequence number of the packet.
    sequence: u64,
    /// Whether a packet is stored.
    filled: bool,
}

/// What a slot holds.
#[verifier::ext_equal]
pub enum SlotView {
    /// No packet yet.
    Vacant,
    /// A packet and its sequence number.
    Holding { sequence: u64, data: Seq<u8> },
}

impl SlotView {
    /// Whether a packet with that sequence number is here.
    pub open spec fn holds(self, sequence: u64) -> bool {
        self matches SlotView::Holding { sequence: s, .. } && s == sequence
    }
}

/// What a ring holds.
#[verifier::ext_equal]
pub struct RingView {
    pub slots: Seq<SlotView>,
    /// The longest packet that a slot can hold.
    pub room: nat,
    /// How many packets were pushed, modulo the range of `usize`.
    pub cursor: usize,
}

impl RingView {
    /// An empty ring. One without slots has room for nothing.
    pub open spec fn fresh(capacity: nat, room: nat) -> RingView {
        RingView {
            slots: Seq::new(capacity, |i: int| SlotView::Vacant),
            room: if capacity == 0 {
                0
            } else {
                room
            },
            cursor: 0,
        }
    }

    /// The slot that the next packet goes to.
    pub open spec fn next(self) -> int {
        self.cursor as int % (self.slots.len() as int)
    }

    /// Whether a packet of `len` bytes can be pushed.
    pub open spec fn fits(self, len: nat) -> bool {
        self.slots.len() > 0 && len <= self.room
    }

    /// The ring after a packet was pushed.
    pub open spec fn pushed(self, data: Seq<u8>, sequence: u64) -> RingView {
        RingView {
            slots: self.slots.update(self.next(), SlotView::Holding { sequence, data }),
            cursor: if self.cursor == usize::MAX {
                0
            } else {
                (self.cursor + 1) as usize
            },
            ..self
        }
    }

    /// The packet in the first slot from `i` on that holds that sequence number.
    pub open spec fn found_from(self, sequence: u64, i: int) -> Option<Seq<u8>>
        decreases self.slots.len() - i,
    {
        if i < 0 || i >= self.slots.len() {
            None
        } else if self.slots[i].holds(sequence) {
            Some(self.slots[i]->data)
        } else {
            self.found_from(sequence, i + 1)
        }
    }

    /// The stored packet with that sequence number, if there is one.
    pub open spec fn found(self, sequence: u64) -> Option<Seq<u8>> {
        self.found_from(sequence, 0)
    }
}

impl View for RingSlot {
    type V = SlotView;

    closed spec fn view(&self) -> SlotView {
        if self.filled {
            SlotView::Holding { sequence: self.sequence, data: self.data@ }
        } else {
            SlotView::Vacant
        }
    }
}

/// A ring of packets, in which each push overwrites the oldest one.
pub struct RetransmitRing {
    slots: Vec<RingSlot>,
    room: usize,
    write_pos: usize,
}

impl View for RetransmitRing {
    type V = RingView;

    closed spec fn view(&self) -> RingView {
        RingView {
            slots: self.slots@.map_values(|s: RingSlot| s@),
            room: self.room as nat,
            cursor: self.write_pos,
        }
    }
}

impl RetransmitRing {
    /// Makes an empty ring with `capacity` slots, each with room for a header and
    /// `max_payload_size` bytes.
    pub fn new(capacity: usize, max_payload_size: usize) -> (ring: Self)
        requires
            capacity == 0 || HEADER_SIZE + max_payload_size <= isize::MAX,
        ensures
            ring@ == RingView::fresh(capacity as nat, (HEADER_SIZE + max_payload_size) as nat),
    {
        let mut slots: Vec<RingSlot> = Vec::new();
        let room: usize = if capacity == 0 {
            0
        } else {
            HEADER_SIZE + max_payload_size
        };
        while slots.len() < capacity
            invariant
                slots@.len() <= capacity,
                room <= isize::MAX,
                forall|i: int|
                    0 <= i < slots@.len() ==> (#[trigger] slots@[i])@ == SlotView::Vacant,
            decreases capacity - slots@.len(),
        {
            slots.push(RingSlot { data: Vec::with_capacity(room), sequence: 0, filled: false });
        }
        let ring = RetransmitRing { slots, room, write_pos: 0 };
        assert(ring@ =~= RingView::fresh(capacity as nat, room as nat));
        ring
    }

    /// Whether a packet of `len` bytes can be pushed.
    pub fn fits(&self, len: usize) -> (yes: bool)
        ensures
            yes == self@.fits(len as nat),
    {
        self.slots.len() > 0 && len <= self.room
    }

    /// Stores a packet over the oldest one. Returns the index of the slot.
    pub fn push(&mut self, data: &[u8], sequence: u64) -> (slot: usize)
        requires
            old(self)@.fits(data@.len()),
        ensures
            final(self)@ == old(self)@.pushed(data@, sequence),
            slot == old(self)@.next(),
    {
        let pos: usize = self.write_pos % self.slots.len();
        let ghost before = *self;
        self.write_pos = self.write_pos.wrapping_add(1);
        let slot = &mut self.slots[pos];
        slot.data.clear();
        slot.data.extend_from_slice(data);
        slot.sequence = sequence;
        slot.filled = true;
        assert(self.slots@[pos as int].data@ =~= data@);
        assert(self@ =~= before@.pushed(data@, sequence));
        pos
    }

    /// The packet with that sequence number; `None` where it was never stored or has been
    /// overwritten.
    pub fn get(&self, sequence: u64) -> (data: Option<Vec<u8>>)
        ensures
            match data {
                Some(d) => self@.found(sequence) == Some(d@),
                None => self@.found(sequence) is None,
            },
    {
        let mut i: usize = 0;
        while i < self.slots.len()
            invariant
                i <= self.slots@.len(),
                self@.found(sequence) == self@.found_from(sequence, i as int),
            decreases self.slots@.len() - i,
        {
            let slot = &self.slots[i];
            if slot.filled && slot.sequence == sequence {
                let data = slice_to_vec(slot.data.as_slice());
                assert(self@.slots[i as int].holds(sequence));
                return Some(data);
            }
            i += 1;
        }
        None
    }

    /// How many slots the ring has.
    pub fn capacity(&self) -> (n: usize)
        ensures
            n == self@.slots.len(),
    {
        self.slots.len()
    }
}

/// The ring that an empty one becomes when `packets` are pushed in turn.
pub open spec fn ring_after(capacity: nat, room: nat, packets: Seq<(Seq<u8>, u64)>) -> RingView
    decreases packets.len(),
{
    if packets.len() == 0 {
        RingView::fresh(capacity, room)
    } else {
        let p = packets.last();
        ring_after(capacity, room, packets.drop_last()).pushed(p.0, p.1)
    }
}

/// Pushing keeps the size of a ring.
pub proof fn lemma_ring_shape(capacity: nat, room: nat, packets: Seq<(Seq<u8>, u64)>)
    requires
        capacity > 0,
    ensures
        ring_after(capacity, room, packets).slots.len() == capacity,
        ring_after(capacity, room, packets).room == room,
    decreases packets.len(),
{
    if packets.len() > 0 {
        lemma_ring_shape(capacity, room, packets.drop_last());
    }
}

/// Where each packet lies: the last ones in the slot of their number, and nothing in slots that
/// were not reached yet.
proof fn lemma_layout(capacity: nat, room: nat, packets: Seq<(Seq<u8>, u64)>)
    requires
        capacity > 0,
        packets.len() <= usize::MAX,
    ensures
        ({
            let r = ring_after(capacity, room, packets);
            &&& r.slots.len() == capacity
            &&& r.cursor == packets.len()
            &&& forall|k: int|
                0 <= k < packets.len() && packets.len() - capacity <= k ==> #[trigger] r.slots[k % (
                capacity as int)] == (SlotView::Holding {
                    sequence: packets[k].1,
                    data: packets[k].0,
                })
            &&& forall|j: int|
                packets.len() <= j < capacity ==> #[trigger] r.slots[j] == SlotView::Vacant
        }),
    decreases packets.len(),
{
    let cap = capacity as int;
    let n = packets.len() as int;
    let r = ring_after(capacity, room, packets);
    if n > 0 {
        let before = packets.drop_last();
        lemma_layout(capacity, room, before);
        let b = ring_after(capacity, room, before);
        assert forall|k: int| 0 <= k < n && n - cap <= k implies #[trigger] r.slots[k % cap] == (
        SlotView::Holding { sequence: packets[k].1, data: packets[k].0 }) by {
            if k < n - 1 {
                arith::lemma_remainders_distinct(n - 1 - cap + 1, k - (n - cap), cap - 1, cap);
                assert(packets[k] == before[k]);
                assert(b.slots[k % cap] == (SlotView::Holding {
                    sequence: before[k].1,
                    data: before[k].0,
                }));
            }
        }
        assert forall|j: int| n <= j < cap implies #[trigger] r.slots[j] == SlotView::Vacant by {
            vstd::arithmetic::div_mod::lemma_small_mod((n - 1) as nat, capacity);
        }
    }
}

/// A slot is vacant or holds one of the last packets.
proof fn lemma_slot_origin(capacity: nat, room: nat, packets: Seq<(Seq<u8>, u64)>, j: int) -> (k: int)
    requires
        capacity > 0,
        packets.len() <= usize::MAX,
        0 <= j < capacity,
        ring_after(capacity, room, packets).slots[j] is Holding,
    ensures
        0 <= k < packets.len(),
        packets.len() - capacity <= k,
        k % (capacity as int) == j,
        ring_after(capacity, room, packets).slots[j] == (SlotView::Holding {
            sequence: packets[k].1,
            data: packets[k].0,
        }),
{
    let cap = capacity as int;
    let n = packets.len() as int;
    lemma_layout(capacity, room, packets);
    let r = ring_after(capacity, room, packets);
    let k = if n < cap {
        j
    } else {
        n - cap + (j - (n - cap)) % cap
    };
    if n < cap {
        if j >= n {
            assert(r.slots[j] == SlotView::Vacant);
        }
    } else {
        vstd::arithmetic::div_mod::lemma_add_mod_noop_right(n - cap, j - (n - cap), cap);
    }
    vstd::arithmetic::div_mod::lemma_small_mod(j as nat, capacity);
    assert(k % cap == j);
    assert(r.slots[k % cap] == (SlotView::Holding {
        sequence: packets[k].1,
        data: packets[k].0,
    }));
    k
}

/// Looking for a number that only slot `at` holds finds that slot.
proof fn lemma_found_only_there(r: RingView, sequence: u64, at: int, from: int)
    requires
        0 <= from <= at < r.slots.len(),
        r.slots[at].holds(sequence),
        forall|j: int| 0 <= j < at ==> !(#[trigger] r.slots[j]).holds(sequence),
    ensures
        r.found_from(sequence, from) == Some(r.slots[at]->data),
    decreases at - from,
{
    if from < at {
        lemma_found_only_there(r, sequence, at, from + 1);
    }
}

/// Looking for a number that no slot holds finds nothing.
proof fn lemma_not_found(r: RingView, sequence: u64, from: int)
    requires
        0 <= from <= r.slots.len(),
        forall|j: int| 0 <= j < r.slots.len() ==> !(#[trigger] r.slots[j]).holds(sequence),
    ensures
        r.found_from(sequence, from) is None,
    decreases r.slots.len() - from,
{
    if from < r.slots.len() {
        lemma_not_found(r, sequence, from + 1);
    }
}

/// A ring answers for the last packets pushed, as many as it has slots, and for no others: each of
/// them is found under its sequence number, and nothing is found under any other number. The last
/// packets must have different sequence numbers.
pub proof fn law_last_packets_are_found(capacity: nat, room: nat, packets: Seq<(Seq<u8>, u64)>)
    requires
        capacity > 0,
        packets.len() <= usize::MAX,
        forall|i: int, j: int|
            0 <= i < j < packets.len() && packets.len() - capacity <= i ==> (
            #[trigger] packets[i]).1 != (#[trigger] packets[j]).1,
    ensures
        forall|k: int|
            0 <= k < packets.len() && packets.len() - capacity <= k ==> ring_after(
                capacity,
                room,
                packets,
            ).found((#[trigger] packets[k]).1) == Some(packets[k].0),
        forall|sequence: u64|
            (forall|k: int|
                0 <= k < packets.len() && packets.len() - capacity <= k ==> (
                #[trigger] packets[k]).1 != sequence) ==> (#[trigger] ring_after(
                capacity,
                room,
                packets,
            ).found(sequence)) is None,
{
    let cap = capacity as int;
    let r = ring_after(capacity, room, packets);
    lemma_layout(capacity, room, packets);
    assert forall|k: int| 0 <= k < packets.len() && packets.len() - capacity <= k implies r.found(
        (#[trigger] packets[k]).1,
    ) == Some(packets[k].0) by {
        let at = k % cap;
        assert(r.slots[k % cap].holds(packets[k].1));
        assert forall|j: int| 0 <= j < at implies !(#[trigger] r.slots[j]).holds(packets[k].1) by {
            if r.slots[j] is Holding {
                let other = lemma_slot_origin(capacity, room, packets, j);
                assert(packets[other].1 != packets[k].1);
            }
        }
        lemma_found_only_there(r, packets[k].1, at, 0);
    }
    assert forall|sequence: u64|
        (forall|k: int|
            0 <= k < packets.len() && packets.len() - capacity <= k ==> (#[trigger] packets[k]).1
                != sequence) implies (#[trigger] r.found(sequence)) is None by {
        assert forall|j: int| 0 <= j < r.slots.len() implies !(#[trigger] r.slots[j]).holds(
            sequence,
        ) by {
            if r.slots[j] is Holding {
                let k = lemma_slot_origin(capacity, room, packets, j);
                assert(packets[k].1 != sequence);
            }
        }
        lemma_not_found(r, sequence, 0);
    }
}

/// A ring with slots takes every packet that is no longer than the room that it was made with, and
/// no longer one, whatever was pushed before. The packets go to the slots in turn.
pub proof fn law_slots_are_filled_in_turn(
    capacity: nat,
    room: nat,
    packets: Seq<(Seq<u8>, u64)>,
    len: nat,
)
    requires
        capacity > 0,
        packets.len() <= usize::MAX,
    ensures
        ring_after(capacity, room, packets).fits(len) <==> len <= room,
        0 <= ring_after(capacity, room, packets).next() < capacity,
        packets.len() < capacity ==> ring_after(capacity, room, packets).next() == packets.len(),
        packets.len() >= capacity ==> ring_after(capacity, room, packets).next() == ring_after(
            capacity,
            room,
            packets.take(packets.len() - capacity),
        ).next(),
{
    let cap = capacity as int;
    let n = packets.len() as int;
    lemma_ring_shape(capacity, room, packets);
    lemma_layout(capacity, room, packets);
    vstd::arithmetic::div_mod::lemma_mod_bound(n, cap);
    if n < cap {
        vstd::arithmetic::div_mod::lemma_small_mod(n as nat, capacity);
    } else {
        lemma_layout(capacity, room, packets.take(n - cap));
        lemma_ring_shape(capacity, room, packets.take(n - cap));
        vstd::arithmetic::div_mod::lemma_mod_sub_multiples_vanish(n, cap);
    }
}

/// A push puts the packet with its number into one slot, and leaves the other slots as they are.
pub proof fn law_push_changes_one_slot(r: RingView, data: Seq<u8>, sequence: u64)
    requires
        r.slots.len() > 0,
    ensures
        r.pushed(data, sequence).slots.len() == r.slots.len(),
        r.pushed(data, sequence).room == r.room,
        r.pushed(data, sequence).slots[r.next()] == (SlotView::Holding { sequence, data }),
        forall|i: int|
            0 <= i < r.slots.len() && i != r.next() ==> #[trigger] r.pushed(data, sequence).slots[i]
                == r.slots[i],
{
    vstd::arithmetic::div_mod::lemma_mod_bound(r.cursor as int, r.slots.len() as int);
}

/// What is found under a number is what the first slot with that number holds, and nothing is found
/// just if no slot has it.
pub proof fn law_found_is_the_first(r: RingView, sequence: u64)
    ensures
        r.found(sequence) is None <==> forall|j: int|
            0 <= j < r.slots.len() ==> !(#[trigger] r.slots[j]).holds(sequence),
        forall|at: int|
            0 <= at < r.slots.len() && (#[trigger] r.slots[at]).holds(sequence) && (forall|j: int|
                0 <= j < at ==> !(#[trigger] r.slots[j]).holds(sequence)) ==> r.found(sequence)
                == Some(r.slots[at]->data),
{
    if forall|j: int| 0 <= j < r.slots.len() ==> !(#[trigger] r.slots[j]).holds(sequence) {
        lemma_not_found(r, sequence, 0);
    } else {
        let j = choose|j: int| 0 <= j < r.slots.len() && (#[trigger] r.slots[j]).holds(sequence);
        lemma_found_somewhere(r, sequence, j, 0);
    }
    assert forall|at: int|
        0 <= at < r.slots.len() && (#[trigger] r.slots[at]).holds(sequence) && (forall|j: int|
            0 <= j < at ==> !(#[trigger] r.slots[j]).holds(sequence)) implies r.found(sequence)
        == Some(r.slots[at]->data) by {
        lemma_found_only_there(r, sequence, at, 0);
    }
}

proof fn lemma_found_somewhere(r: RingView, sequence: u64, at: int, from: int)
    requires
        0 <= from <= at < r.slots.len(),
        r.slots[at].holds(sequence),
    ensures
        r.found_from(sequence, from) is Some,
    decreases at - from,
{
    if from < at && !r.slots[from].holds(sequence) {
        lemma_found_somewhere(r, sequence, at, from + 1);
    }
}

} // verus!
