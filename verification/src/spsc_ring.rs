//! Bounded first-in-first-out ring of messages between one producer and one consumer.
//!
//! `head` counts the messages taken out and `tail` those put in, both modulo 2^64. The slot of a
//! message is its count modulo the capacity, which is a power of two, so that the low bits of a
//! counter name its slot.

use crate::arith;
use parking_lot::Condvar;
use std::sync::Arc;
use vstd::arithmetic::power2;
use vstd::prelude::*;

verus! {

/// `parking_lot::Condvar`, opaque: it only carries wake-ups to producers that wait for room.
#[verifier::external_type_specification]
#[verifier::external_body]
pub struct ExCondvar(parking_lot::Condvar);

/// `parking_lot::Condvar::new` makes a condition variable that nobody waits on. Nothing is claimed
/// of the value.
pub assume_specification[ parking_lot::Condvar::new ]() -> (c: parking_lot::Condvar)
;

/// `parking_lot::Condvar::notify_all` wakes every thread that waits and returns how many those
/// were. The number depends on the other threads, so nothing is claimed of it.
pub assume_specification[ parking_lot::Condvar::notify_all ](
    c: &parking_lot::Condvar,
) -> (woken: usize)
;

pub struct SpscRingBuffer {
    /// Messages taken out so far, modulo 2^64.
    head: u64,
    /// Messages put in so far, modulo 2^64.
    tail: u64,
    /// The slots. A vacant slot holds an empty message.
    buffer: Vec<Arc<Vec<u8>>>,
    /// Where a producer waits for room.
    not_full: Arc<Condvar>,
}

/// What a ring with `slots` slots that holds `held` holds after a push is tried.
pub open spec fn after_push(
    held: Seq<Arc<Vec<u8>>>,
    slots: nat,
    message: Arc<Vec<u8>>,
) -> Seq<Arc<Vec<u8>>> {
    if held.len() < slots {
        held.push(message)
    } else {
        held
    }
}

/// What a ring that holds `held` holds after a pop is tried.
pub open spec fn after_pop(held: Seq<Arc<Vec<u8>>>) -> Seq<Arc<Vec<u8>>> {
    if held.len() == 0 {
        held
    } else {
        held.drop_first()
    }
}

impl View for SpscRingBuffer {
    type V = Seq<Arc<Vec<u8>>>;

    /// The messages in the ring, oldest first.
    closed spec fn view(&self) -> Seq<Arc<Vec<u8>>> {
        Seq::new(
            self.count(),
            |i: int| self.buffer@[(self.head + i) % (self.buffer@.len() as int)],
        )
    }
}

impl SpscRingBuffer {
    /// How many slots the ring has.
    pub closed spec fn slots(self) -> nat {
        self.buffer@.len()
    }

    /// How many messages the ring holds: the distance from `head` to `tail`, modulo 2^64.
    spec fn count(self) -> nat {
        if self.head <= self.tail {
            (self.tail - self.head) as nat
        } else {
            (self.tail + 0x1_0000_0000_0000_0000 - self.head) as nat
        }
    }

    /// What producers wait on.
    pub closed spec fn signal(self) -> Condvar {
        *self.not_full
    }

    /// The number of slots is a power of two, no more messages are held than there are slots, and
    /// vacant slots hold empty messages.
    pub closed spec fn wf(self) -> bool {
        &&& power2::is_pow2(self.slots() as int)
        &&& self.slots() <= usize::MAX
        &&& self.count() <= self.slots()
        &&& forall|i: int|
            self.count() <= i < self.slots()
                ==> (#[trigger] self.buffer@[(self.head + i) % (self.slots() as int)])@.len() == 0
    }

    /// What a well-formed ring keeps to, in terms of its messages.
    pub proof fn lemma_bounds(self)
        requires
            self.wf(),
        ensures
            0 < self.slots() <= usize::MAX,
            power2::is_pow2(self.slots() as int),
            self@.len() <= self.slots(),
    {
        reveal(power2::is_pow2);
    }

    /// Makes an empty ring with `capacity` slots. The capacity must be a power of two.
    pub fn new(capacity: usize) -> (ring: Self)
        requires
            power2::is_pow2(capacity as int),
        ensures
            ring.wf(),
            ring.slots() == capacity,
            ring@ == Seq::<Arc<Vec<u8>>>::empty(),
    {
        let mut buffer: Vec<Arc<Vec<u8>>> = Vec::new();
        while buffer.len() < capacity
            invariant
                buffer@.len() <= capacity,
                forall|j: int| 0 <= j < buffer@.len() ==> (#[trigger] buffer@[j])@.len() == 0,
            decreases capacity - buffer@.len(),
        {
            buffer.push(Arc::new(Vec::new()));
        }
        let ring = SpscRingBuffer {
            head: 0,
            tail: 0,
            buffer,
            not_full: Arc::new(Condvar::new()),
        };
        proof {
            reveal(power2::is_pow2);
            assert forall|i: int| 0 <= i < ring.slots() implies (#[trigger] ring.buffer@[(ring.head
                + i) % (ring.slots() as int)])@.len() == 0 by {
                vstd::arithmetic::div_mod::lemma_small_mod(i as nat, ring.slots());
            }
            assert(ring@ =~= Seq::<Arc<Vec<u8>>>::empty());
        }
        ring
    }

    /// The slot that a counter names.
    fn slot(&self, counter: u64) -> (index: usize)
        requires
            self.wf(),
        ensures
            index == counter as int % (self.slots() as int),
            index < self.slots(),
    {
        proof {
            self.lemma_bounds();
            lemma_mask_is_mod(counter, self.buffer@.len() as u64);
        }
        let mask: u64 = self.buffer.len() as u64 - 1;
        (counter & mask) as usize
    }

    /// Puts `message` behind the others. The ring must have room: a producer that finds it full
    /// waits for [`SpscRingBuffer::waiters`] to be notified and looks again.
    pub fn push(&mut self, message: Arc<Vec<u8>>)
        requires
            old(self).wf(),
            old(self)@.len() < old(self).slots(),
        ensures
            final(self).wf(),
            final(self).slots() == old(self).slots(),
            final(self).signal() == old(self).signal(),
            final(self)@ == old(self)@.push(message),
    {
        let index: usize = self.slot(self.tail);
        let ghost before = *self;
        self.buffer[index] = message;
        self.tail = self.tail.wrapping_add(1);
        proof {
            let cap = self.slots() as int;
            before.lemma_bounds();
            lemma_wrapped_mod(before.head as int + before.count(), cap);
            assert(index == (before.head + before.count()) % cap);
            assert forall|i: int| 0 <= i < cap && i != before.count() implies (#[trigger] ((
            before.head + i) % cap)) != index by {
                arith::lemma_remainders_distinct(before.head as int, i, before.count() as int, cap);
            }
            assert(self@ =~= before@.push(message));
        }
    }

    /// Puts `message` behind the others, or hands it back where the ring is full.
    pub fn try_push(&mut self, message: Arc<Vec<u8>>) -> (outcome: Result<(), Arc<Vec<u8>>>)
        requires
            old(self).wf(),
        ensures
            final(self).wf(),
            final(self).slots() == old(self).slots(),
            final(self).signal() == old(self).signal(),
            final(self)@ == after_push(old(self)@, old(self).slots(), message),
            outcome == if old(self)@.len() < old(self).slots() {
                Ok::<(), Arc<Vec<u8>>>(())
            } else {
                Err::<(), Arc<Vec<u8>>>(message)
            },
    {
        if self.len() >= self.buffer.len() as u64 {
            return Err(message);
        }
        self.push(message);
        Ok(())
    }

    /// Takes the oldest message, and wakes producers that wait for room. `None` where the ring is
    /// empty.
    pub fn try_pop(&mut self) -> (popped: Option<Arc<Vec<u8>>>)
        requires
            old(self).wf(),
        ensures
            final(self).wf(),
            final(self).slots() == old(self).slots(),
            final(self).signal() == old(self).signal(),
            final(self)@ == after_pop(old(self)@),
            popped == if old(self)@.len() == 0 {
                None::<Arc<Vec<u8>>>
            } else {
                Some(old(self)@[0])
            },
    {
        if self.head == self.tail {
            return None;
        }
        let index: usize = self.slot(self.head);
        let ghost before = *self;
        let mut message: Arc<Vec<u8>> = Arc::new(Vec::new());
        std::mem::swap(&mut message, &mut self.buffer[index]);
        self.head = self.head.wrapping_add(1);
        proof {
            let cap = self.slots() as int;
            before.lemma_bounds();
            assert(message == before@[0]);
            assert forall|i: int| 0 <= i < cap implies #[trigger] ((self.head + i) % cap) == (
            before.head + (i + 1)) % cap by {
                lemma_wrapped_mod(before.head + 1 + i, cap);
            }
            assert forall|i: int| 0 < i < cap implies #[trigger] ((before.head + i) % cap)
                != index by {
                arith::lemma_remainders_distinct(before.head as int, i, 0, cap);
            }
            assert((before.head + cap) % cap == before.head as int % cap) by {
                vstd::arithmetic::div_mod::lemma_mod_add_multiples_vanish(before.head as int, cap);
            }
            assert(self@ =~= before@.drop_first());
        }
        self.not_full.notify_all();
        Some(message)
    }

    /// Wakes producers that wait for room.
    pub fn notify_not_full(&self) {
        self.not_full.notify_all();
    }

    /// The condition variable that is notified whenever room appears.
    pub fn waiters(&self) -> (not_full: Arc<Condvar>)
        ensures
            *not_full == self.signal(),
    {
        self.not_full.clone()
    }

    /// How many messages the ring holds.
    pub fn len(&self) -> (n: u64)
        requires
            self.wf(),
        ensures
            n == self@.len(),
    {
        self.tail.wrapping_sub(self.head)
    }

    /// Whether the ring holds no message.
    pub fn is_empty(&self) -> (empty: bool)
        requires
            self.wf(),
        ensures
            empty == (self@.len() == 0),
    {
        self.len() == 0
    }

    /// How many slots the ring has.
    pub fn capacity(&self) -> (n: usize)
        ensures
            n == self.slots(),
    {
        self.buffer.len()
    }
}

/// The low bits of a counter are its remainder by a power of two.
proof fn lemma_mask_is_mod(counter: u64, cap: u64)
    requires
        power2::is_pow2(cap as int),
    ensures
        cap > 0,
        counter & (cap - 1) as u64 == counter % cap,
{
    let e = lemma_exponent(cap as int);
    vstd::bits::lemma_u64_low_bits_mask_is_mod(counter, e);
    assert(vstd::bits::low_bits_mask(e) == cap - 1);
}

/// The exponent of a power of two below 2^64.
proof fn lemma_exponent(cap: int) -> (e: nat)
    requires
        power2::is_pow2(cap),
        cap < 0x1_0000_0000_0000_0000,
    ensures
        e < 64,
        power2::pow2(e) == cap,
        cap > 0,
{
    power2::is_pow2_equiv(cap);
    let e = choose|i: nat| vstd::arithmetic::power::pow(2, i) == cap;
    power2::lemma_pow2(e);
    power2::lemma_pow2_pos(e);
    power2::lemma2_to64();
    power2::lemma2_to64_rest();
    if e >= 64 {
        if e > 64 {
            power2::lemma_pow2_strictly_increases(64, e);
        }
        assert(false);
    }
    e
}

/// Reducing a counter modulo 2^64 keeps its slot.
proof fn lemma_wrapped_mod(x: int, cap: int)
    requires
        power2::is_pow2(cap),
        cap < 0x1_0000_0000_0000_0000,
    ensures
        (x - 0x1_0000_0000_0000_0000) % cap == x % cap,
{
    let e = lemma_exponent(cap);
    let q = power2::pow2((64 - e) as nat) as int;
    power2::lemma_pow2_adds(e, (64 - e) as nat);
    power2::lemma2_to64_rest();
    assert(power2::pow2(64) == 0x1_0000_0000_0000_0000);
    assert(cap * q == 0x1_0000_0000_0000_0000);
    vstd::arithmetic::div_mod::lemma_mod_multiples_vanish(-q, x, cap);
    assert(cap * (-q) == -(cap * q)) by (nonlinear_arith);
}

/// A call on a ring.
pub enum RingCall {
    Push(Arc<Vec<u8>>),
    Pop,
}

/// What came of a run of calls on a ring that was empty at first.
pub struct RingHistory {
    /// The messages in the ring, oldest first.
    pub held: Seq<Arc<Vec<u8>>>,
    /// The messages that the ring accepted, in the order of the calls.
    pub accepted: Seq<Arc<Vec<u8>>>,
    /// The messages that were taken out, in the order of the calls.
    pub taken: Seq<Arc<Vec<u8>>>,
}

/// What comes of `calls` on an empty ring with `slots` slots.
pub open spec fn history(slots: nat, calls: Seq<RingCall>) -> RingHistory
    decreases calls.len(),
{
    if calls.len() == 0 {
        RingHistory { held: Seq::empty(), accepted: Seq::empty(), taken: Seq::empty() }
    } else {
        let h = history(slots, calls.drop_last());
        match calls.last() {
            RingCall::Push(m) => RingHistory {
                held: after_push(h.held, slots, m),
                accepted: if h.held.len() < slots {
                    h.accepted.push(m)
                } else {
                    h.accepted
                },
                taken: h.taken,
            },
            RingCall::Pop => RingHistory {
                held: after_pop(h.held),
                accepted: h.accepted,
                taken: if h.held.len() == 0 {
                    h.taken
                } else {
                    h.taken.push(h.held[0])
                },
            },
        }
    }
}

/// Whatever is called in whatever order, the messages come out in the order in which they went in,
/// none twice and none left out, and the ring never holds more than it has slots for.
pub proof fn law_first_in_first_out(slots: nat, calls: Seq<RingCall>)
    ensures
        history(slots, calls).taken + history(slots, calls).held == history(slots, calls).accepted,
        history(slots, calls).held.len() <= slots,
    decreases calls.len(),
{
    if calls.len() > 0 {
        law_first_in_first_out(slots, calls.drop_last());
        let before = history(slots, calls.drop_last());
        let h = history(slots, calls);
        assert(h.taken + h.held =~= h.accepted) by {
            assert(before.taken + before.held == before.accepted);
            match calls.last() {
                RingCall::Push(m) => {
                    assert(before.taken + before.held.push(m) =~= (before.taken
                        + before.held).push(m));
                },
                RingCall::Pop => {
                    if before.held.len() > 0 {
                        assert(before.taken.push(before.held[0]) + before.held.drop_first()
                            =~= before.taken + before.held);
                    }
                },
            }
        }
    }
}

/// A ring has room for as many messages as it has slots: put in one behind the other they are all
/// accepted and held, in their order, whatever they are.
pub proof fn law_every_slot_can_be_filled(slots: nat, messages: Seq<Arc<Vec<u8>>>)
    requires
        messages.len() <= slots,
    ensures
        history(slots, messages.map_values(|m: Arc<Vec<u8>>| RingCall::Push(m))).held == messages,
        history(slots, messages.map_values(|m: Arc<Vec<u8>>| RingCall::Push(m))).accepted
            == messages,
    decreases messages.len(),
{
    let calls = messages.map_values(|m: Arc<Vec<u8>>| RingCall::Push(m));
    if messages.len() > 0 {
        let earlier = messages.drop_last();
        law_every_slot_can_be_filled(slots, earlier);
        assert(calls.drop_last() =~= earlier.map_values(|m: Arc<Vec<u8>>| RingCall::Push(m)));
        assert(calls.last() == RingCall::Push(messages.last()));
        assert(earlier.push(messages.last()) =~= messages);
    }
    assert(history(slots, calls).held =~= messages);
    assert(history(slots, calls).accepted =~= messages);
}

/// A full ring takes nothing and keeps what it holds; an empty one has nothing to give. Otherwise a
/// pop takes the first message, and what a push and a pop leave is in the order of the pushes.
pub proof fn law_full_and_empty_rings_stay(
    held: Seq<Arc<Vec<u8>>>,
    slots: nat,
    message: Arc<Vec<u8>>,
)
    requires
        held.len() <= slots,
    ensures
        held.len() == slots ==> after_push(held, slots, message) == held,
        held.len() < slots ==> after_push(held, slots, message).drop_last() == held && after_push(
            held,
            slots,
            message,
        ).last() == message,
        held.len() == 0 ==> after_pop(held) == held,
        held.len() > 0 ==> seq![held[0]] + after_pop(held) == held,
{
    if held.len() < slots {
        assert(after_push(held, slots, message).drop_last() =~= held);
    }
    if held.len() > 0 {
        assert(seq![held[0]] + after_pop(held) =~= held);
    }
}

} // verus!
