//! The buffer of a queue at rest, when no operation is under way.

use crate::disposal::Disposal;
use crate::lap::{Index, Laps};
use crate::protocol::{OnFull, PopStep, PushStep};
use crate::slot::{law_untouched, stamped, untouched, Slot};
use vstd::arithmetic::div_mod::{lemma_mod_add_multiples_vanish, lemma_small_mod};
use vstd::prelude::*;

verus! {

/// Memory of a queue at rest: positions `front..back` hold elements that are
/// there to be taken, and the slots up to `front + cap` are free.
pub open spec fn resting<T>(
    laps: Laps,
    slots: Seq<Slot<T>>,
    head: Index,
    tail: Index,
    front: int,
    back: int,
) -> bool {
    &&& slots.len() == laps.cap
    &&& 0 <= front <= back <= front + laps.cap
    &&& head == laps.cursor_at(front)
    &&& tail == laps.cursor_at(back)
    &&& forall|p: int|
        front <= p < back ==> {
            let slot = slots[#[trigger] laps.slot_at(p)];
            slot.stamp == laps.cursor_at(p) + 1 && slot.value is Some
        }
    &&& forall|p: int|
        back <= p < front + laps.cap ==> {
            let slot = slots[#[trigger] laps.slot_at(p)];
            slot.stamp == laps.cursor_at(p) && slot.value is None
        }
}

/// The elements at positions `front..back`, oldest first.
pub open spec fn elements<T>(laps: Laps, slots: Seq<Slot<T>>, front: int, back: int) -> Seq<T> {
    Seq::new((back - front) as nat, |i: int| slots[laps.slot_at(front + i)].value->0)
}

/// In a memory at rest the slots in use, as [`Laps::occupied`] counts them and
/// [`Laps::nth_slot`] goes through them from the head on, hold the elements from the
/// oldest to the newest, and the slots that follow hold none.
pub proof fn law_slot_order<T>(
    laps: Laps,
    slots: Seq<Slot<T>>,
    head: Index,
    tail: Index,
    front: int,
    back: int,
    i: int,
)
    requires
        laps.wf(),
        resting(laps, slots, head, tail, front, back),
        0 <= i < laps.cap,
    ensures
        ({
            let s = elements(laps, slots, front, back);
            let value = slots[(laps.index_spec(head) + i) % laps.cap as int].value;
            &&& laps.occupied_spec(head, tail) == s.len()
            &&& i < laps.occupied_spec(head, tail) ==> value == Some(s[i])
            &&& i >= laps.occupied_spec(head, tail) ==> value is None
        }),
{
    laps.lemma_occupied(front, back);
    laps.lemma_cursor_parts(front);
    laps.lemma_slot_sum(front, i);
    assert(laps.slot_at(front + i) == (laps.index_spec(head) + i) % laps.cap as int);
}

/// Head, tail and slots of a queue of capacity `N`.
pub struct Ring<T, const N: usize> {
    head: Index,
    tail: Index,
    buffer: [Slot<T>; N],
    laps: Laps,
    front: Ghost<int>,
    back: Ghost<int>,
}

/// `core::array::from_fn` builds an array by calling its argument with the index
/// of each element in turn: here, slot `i` is vacant and stamped `i`. [`Ring::new`] takes
/// no more from it than that there are `N` slots.
#[verifier::external_body]
fn vacant_slots<T, const N: usize>() -> (slots: [Slot<T>; N])
    ensures
        forall|i: int|
            0 <= i < N ==> #[trigger] slots@[i] == (Slot { stamp: i as Index, value: None::<T> }),
{
    core::array::from_fn(|i| Slot::vacant(i as Index))
}

impl<T, const N: usize> View for Ring<T, N> {
    type V = Seq<T>;

    closed spec fn view(&self) -> Seq<T> {
        elements(self.laps, self.buffer@, self.front@, self.back@)
    }
}

impl<T, const N: usize> Ring<T, N> {
    /// The ring is at rest.
    pub closed spec fn wf(&self) -> bool {
        &&& self.laps.wf()
        &&& self.laps.cap == N
        &&& resting(self.laps, self.buffer@, self.head, self.tail, self.front@, self.back@)
    }

    /// The slots.
    pub closed spec fn memory(&self) -> Seq<Slot<T>> {
        self.buffer@
    }

    /// A ring holds at most `N` elements.
    pub proof fn lemma_len(&self)
        requires
            self.wf(),
        ensures
            self@.len() <= N,
            1 <= N,
    {
    }

    /// In an empty ring every slot is vacant.
    proof fn lemma_all_vacant(&self, i: int)
        requires
            self.wf(),
            self@.len() == 0,
            0 <= i < N,
        ensures
            self.memory()[i].value is None,
    {
        let laps = self.laps;
        let h = laps.slot_at(self.front@);
        laps.lemma_cursor_parts(self.front@);
        let d = if i >= h { i - h } else { i - h + N };
        laps.lemma_slot_sum(self.front@, d);
        if i >= h {
            lemma_small_mod(i as nat, N as nat);
        } else {
            lemma_mod_add_multiples_vanish(i, N as int);
            lemma_small_mod(i as nat, N as nat);
        }
        assert(laps.slot_at(self.front@ + d) == i);
    }

    /// An empty ring. Whatever slots the array comes with, [`stamped`] makes them those
    /// of a new buffer.
    pub fn new() -> (ring: Self)
        requires
            0 < N <= isize::MAX as int / 2,
        ensures
            ring.wf(),
            ring@ == Seq::<T>::empty(),
            ring.memory().len() == N,
            untouched(ring.memory()),
    {
        let laps: Laps = Laps::new(N);
        let ring = Ring {
            head: 0,
            tail: 0,
            buffer: stamped(vacant_slots()),
            laps,
            front: Ghost(0),
            back: Ghost(0),
        };
        proof {
            laps.lemma_lap_count();
            law_untouched(ring.buffer@);
            assert forall|p: int| 0 <= p < N implies {
                let slot = ring.buffer@[#[trigger] laps.slot_at(p)];
                slot.stamp == laps.cursor_at(p) && slot.value is None
            } by {
                laps.lemma_first_lap(p);
            }
            laps.lemma_first_lap(0);
        }
        ring
    }

    /// Number of elements.
    pub fn len(&self) -> (n: usize)
        requires
            self.wf(),
        ensures
            n == self@.len(),
        opens_invariants none
        no_unwind
    {
        proof {
            self.laps.lemma_occupied(self.front@, self.back@);
            self.laps.lemma_cursor_parts(self.front@);
            self.laps.lemma_cursor_parts(self.back@);
        }
        self.laps.occupied(self.head, self.tail)
    }

    /// Whether there is no element.
    pub fn is_empty(&self) -> (empty: bool)
        requires
            self.wf(),
        ensures
            empty == (self@.len() == 0),
        no_unwind
    {
        proof {
            self.laps.lemma_occupied(self.front@, self.back@);
        }
        self.tail == self.head
    }

    /// Whether there are `N` elements.
    pub fn is_full(&self) -> (full: bool)
        requires
            self.wf(),
        ensures
            full == (self@.len() == N),
        no_unwind
    {
        proof {
            self.laps.lemma_occupied(self.front@, self.back@);
        }
        self.laps.full(self.head, self.tail)
    }

    /// Takes the oldest element.
    pub fn pop(&mut self) -> (value: Option<T>)
        requires
            old(self).wf(),
        ensures
            final(self).wf(),
            old(self)@.len() == 0 ==> value is None && final(self)@ == old(self)@,
            old(self)@.len() > 0 ==> {
                &&& value == Some(old(self)@[0])
                &&& final(self)@ == old(self)@.drop_first()
            },
        no_unwind
    {
        let head: Index = self.head;
        let ghost front = self.front@;
        let ghost back = self.back@;
        let ghost laps = self.laps;
        proof {
            laps.lemma_cursor_parts(front);
        }
        let index: usize = self.laps.index(head);
        assert(index == laps.slot_at(front));
        let stamp: Index = self.buffer[index].stamp_load();
        match self.laps.pop_step(head, stamp) {
            PopStep::Claim => {
                assert(front < back);
                self.head = self.laps.next(head);
                let msg: Option<T> = self.buffer[index].read_value();
                self.buffer[index].stamp_store(self.laps.ahead(head));
                self.front = Ghost(front + 1);
                proof {
                    laps.lemma_next(front);
                    laps.lemma_ahead(front);
                    assert forall|p: int| front + 1 <= p < back implies {
                        let slot = self.buffer@[#[trigger] laps.slot_at(p)];
                        slot.stamp == laps.cursor_at(p) + 1 && slot.value is Some
                    } by {
                        laps.lemma_cursor_parts(p);
                        if laps.slot_at(p) == laps.slot_at(front) {
                            laps.lemma_same_slot(p, front);
                        }
                    }
                    assert forall|p: int| back <= p < front + 1 + N implies {
                        let slot = self.buffer@[#[trigger] laps.slot_at(p)];
                        slot.stamp == laps.cursor_at(p) && slot.value is None
                    } by {
                        laps.lemma_cursor_parts(p);
                        if p < front + N && laps.slot_at(p) == laps.slot_at(front) {
                            laps.lemma_same_slot(p, front);
                        }
                    }
                    assert forall|i: int| 0 <= i < back - front - 1 implies self@[i] == old(
                        self,
                    )@.drop_first()[i] by {
                        laps.lemma_cursor_parts(front + 1 + i);
                        if laps.slot_at(front + 1 + i) == laps.slot_at(front) {
                            laps.lemma_same_slot(front + 1 + i, front);
                        }
                    }
                    assert(self@ =~= old(self)@.drop_first());
                }
                msg
            },
            PopStep::CheckTail => {
                // At rest, an unfilled slot at the head means that the tail is there.
                assert(self.tail == head);
                None
            },
            PopStep::Wait => {
                // Nobody else is at work.
                assert(false);
                None
            },
        }
    }

    /// Adds `value` as the newest element. A full ring does as `on_full` says,
    /// and the value that is not in the ring afterwards comes back as `Err`.
    pub fn push_or_else(&mut self, value: T, on_full: OnFull) -> (result: Result<(), T>)
        requires
            old(self).wf(),
        ensures
            final(self).wf(),
            old(self)@.len() < N ==> {
                &&& result == Ok::<(), T>(())
                &&& final(self)@ == old(self)@.push(value)
            },
            old(self)@.len() == N && on_full is Reject ==> {
                &&& result == Err::<(), T>(value)
                &&& final(self)@ == old(self)@
            },
            old(self)@.len() == N && on_full is Overwrite ==> {
                &&& result == Err::<(), T>(old(self)@[0])
                &&& final(self)@ == old(self)@.drop_first().push(value)
            },
        no_unwind
    {
        let tail: Index = self.tail;
        let ghost front = self.front@;
        let ghost back = self.back@;
        let ghost laps = self.laps;
        proof {
            laps.lemma_cursor_parts(back);
            laps.lemma_next(back);
            if back == front + N {
                laps.lemma_ahead(front);
                laps.lemma_cursor_parts(front);
            }
        }
        let index: usize = self.laps.index(tail);
        let new_tail: Index = self.laps.next(tail);
        assert(index == laps.slot_at(back));
        let stamp: Index = self.buffer[index].stamp_load();
        match self.laps.push_step(tail, stamp) {
            PushStep::Claim => {
                assert(back < front + N) by {
                    if back == front + N {
                        assert(laps.slot_at(front) == index);
                        laps.lemma_stamps_differ(front, back);
                    }
                }
                self.tail = new_tail;
                self.buffer[index].write_value(value);
                self.buffer[index].stamp_store(tail + 1);
                self.back = Ghost(back + 1);
                proof {
                    self.lemma_filled(*old(self), back, value);
                    assert(self@ =~= old(self)@.push(value));
                }
                Ok(())
            },
            PushStep::CheckHead => {
                assert(back == front + N) by {
                    if back < front + N {
                        assert(laps.slot_at(back) == index);
                    }
                }
                assert(laps.slot_at(front) == index);
                proof {
                    laps.lemma_occupied(front, back);
                }
                match on_full {
                    OnFull::Reject => {
                        // At rest, an occupied slot at the tail means that the head is there.
                        assert(laps.full_spec(self.head, tail));
                        Err(value)
                    },
                    OnFull::Overwrite => {
                        proof {
                            laps.lemma_behind(back);
                            laps.lemma_behind(back + 1);
                        }
                        assert(self.head == laps.cursor_at(back - N));
                        self.head = self.laps.behind(new_tail);
                        self.tail = new_tail;
                        let old_value: Option<T> = self.buffer[index].replace_value(value);
                        self.buffer[index].stamp_store(tail + 1);
                        self.front = Ghost(front + 1);
                        self.back = Ghost(back + 1);
                        proof {
                            self.lemma_filled(*old(self), back, value);
                            assert(self@ =~= old(self)@.drop_first().push(value));
                        }
                        match old_value {
                            Some(old_value) => Err(old_value),
                            None => Ok(()),
                        }
                    },
                }
            },
            PushStep::Wait => {
                // Nobody else is at work.
                assert(false);
                Err(value)
            },
        }
    }

    /// Filling the slot of position `p` leaves the other slots as they are.
    proof fn lemma_filled(&self, before: Self, p: int, value: T)
        requires
            before.wf(),
            self.laps == before.laps,
            before.back@ == p,
            self.back@ == p + 1,
            self.front@ == before.front@ || p == before.front@ + N && self.front@ == before.front@ + 1,
            self.back@ <= self.front@ + N,
            self.head == self.laps.cursor_at(self.front@),
            self.tail == self.laps.cursor_at(self.back@),
            self.buffer@ =~= before.buffer@.update(
                self.laps.slot_at(p),
                Slot { stamp: (self.laps.cursor_at(p) + 1) as Index, value: Some(value) },
            ),
        ensures
            self.wf(),
            forall|i: int|
                0 <= i < p - self.front@ ==> #[trigger] self@[i] == before@[i + self.front@
                    - before.front@],
            self@[p - self.front@] == value,
    {
        let laps = self.laps;
        laps.lemma_cursor_parts(p);
        assert forall|q: int| self.front@ <= q < self.back@ implies {
            let slot = self.buffer@[#[trigger] laps.slot_at(q)];
            slot.stamp == laps.cursor_at(q) + 1 && slot.value is Some
        } by {
            laps.lemma_cursor_parts(q);
            if laps.slot_at(q) == laps.slot_at(p) {
                laps.lemma_same_slot(q, p);
            }
        }
        assert forall|q: int| self.back@ <= q < self.front@ + N implies {
            let slot = self.buffer@[#[trigger] laps.slot_at(q)];
            slot.stamp == laps.cursor_at(q) && slot.value is None
        } by {
            laps.lemma_cursor_parts(q);
            if laps.slot_at(q) == laps.slot_at(p) {
                laps.lemma_same_slot(q, p);
            }
        }
        assert forall|i: int| 0 <= i < p - self.front@ implies #[trigger] self@[i] == before@[i
            + self.front@ - before.front@] by {
            laps.lemma_cursor_parts(self.front@ + i);
            if laps.slot_at(self.front@ + i) == laps.slot_at(p) {
                laps.lemma_same_slot(self.front@ + i, p);
            }
        }
    }

    /// Drops all elements, each of them once and the oldest first, by way of `disposal`.
    pub fn clear(&mut self, disposal: &mut Disposal<T>)
        requires
            old(self).wf(),
        ensures
            final(self).wf(),
            final(self)@ == Seq::<T>::empty(),
            final(disposal)@ == old(disposal)@ + old(self)@,
            forall|i: int| 0 <= i < old(self)@.len() ==> has_resolved(#[trigger] old(self)@[i]),
        opens_invariants none
        no_unwind
    {
        let ghost front = self.front@;
        let ghost back = self.back@;
        let ghost laps = self.laps;
        let ghost all = self@;
        let ghost before = disposal@;
        let head: Index = self.head;
        let len: usize = self.len();
        proof {
            laps.lemma_cursor_parts(front);
        }
        let mut i: usize = 0;
        while i < len
            invariant
                laps.wf(),
                laps.cap == N,
                self.laps == laps,
                self.back@ == back,
                self.tail == laps.cursor_at(back),
                head == laps.cursor_at(front),
                0 <= front <= back <= front + N,
                len == back - front,
                len == all.len(),
                i <= len,
                disposal@ =~= before + all.take(i as int),
                forall|k: int| 0 <= k < i ==> has_resolved(#[trigger] all[k]),
                forall|k: int|
                    i <= k < len ==> #[trigger] all[k] == self.buffer@[laps.slot_at(
                        front + k,
                    )].value->0,
                forall|p: int|
                    front + i <= p < back ==> {
                        let slot = self.buffer@[#[trigger] laps.slot_at(p)];
                        slot.stamp == laps.cursor_at(p) + 1 && slot.value is Some
                    },
                forall|p: int|
                    back <= p < front + i + N ==> {
                        let slot = self.buffer@[#[trigger] laps.slot_at(p)];
                        slot.stamp == laps.cursor_at(p) && slot.value is None
                    },
            decreases len - i,
        {
            proof {
                laps.lemma_cursor_parts(front);
                laps.lemma_slot_sum(front, i as int);
                laps.lemma_cursor_parts(front + i);
                laps.lemma_ahead(front + i);
            }
            let index: usize = self.laps.nth_slot(head, i);
            assert(index == laps.slot_at(front + i));
            self.buffer[index].drop_value(disposal);
            let stamp: Index = self.laps.ahead(self.buffer[index].stamp_load() - 1);
            self.buffer[index].stamp_store(stamp);
            proof {
                assert(all.take(i + 1) =~= all.take(i as int).push(all[i as int]));
                assert forall|k: int| i + 1 <= k < len implies #[trigger] all[k]
                    == self.buffer@[laps.slot_at(front + k)].value->0 by {
                    laps.lemma_cursor_parts(front + k);
                    if laps.slot_at(front + k) == index {
                        laps.lemma_same_slot(front + k, front + i);
                    }
                }
                assert forall|p: int| front + i + 1 <= p < back implies {
                    let slot = self.buffer@[#[trigger] laps.slot_at(p)];
                    slot.stamp == laps.cursor_at(p) + 1 && slot.value is Some
                } by {
                    laps.lemma_cursor_parts(p);
                    if laps.slot_at(p) == index {
                        laps.lemma_same_slot(p, front + i);
                    }
                }
                assert forall|p: int| back <= p < front + i + 1 + N implies {
                    let slot = self.buffer@[#[trigger] laps.slot_at(p)];
                    slot.stamp == laps.cursor_at(p) && slot.value is None
                } by {
                    laps.lemma_cursor_parts(p);
                    if p < front + i + N && laps.slot_at(p) == index {
                        laps.lemma_same_slot(p, front + i);
                    }
                }
            }
            i = i + 1;
        }
        self.head = self.tail;
        self.front = Ghost(back);
        assert(self@ =~= Seq::<T>::empty());
        assert(all.take(len as int) =~= all);
    }
}

/// Every slot of a new ring is vacant and stamped with its index, whatever the capacity,
/// and so every push of the first lap claims its slot at once; with any other stamp it
/// would not.
pub proof fn law_new<T, const N: usize>(ring: Ring<T, N>, laps: Laps, i: int, stamp: Index)
    requires
        call_ensures(Ring::<T, N>::new, (), ring),
        laps.wf(),
        laps.cap == N,
        0 <= i < N,
    ensures
        ring@.len() == 0,
        ring.memory().len() == N,
        ring.memory()[i].value is None,
        ring.memory()[i].stamp == i,
        laps.push_step_spec(laps.cursor_at(i), ring.memory()[i].stamp) is Claim,
        laps.push_step_spec(laps.cursor_at(i), stamp) is Claim <==> stamp == i,
{
    law_untouched(ring.memory());
    laps.lemma_first_lap(i);
}

/// The first `N` pushes on a new ring succeed, whatever the capacity and the values, all
/// further ones are refused and get their value back, and the ring holds what has
/// come in, in order. `rings[k]` is the ring in the `k`-th push.
pub proof fn law_fill<T, const N: usize>(
    rings: Seq<&mut Ring<T, N>>,
    values: Seq<T>,
    results: Seq<Result<(), T>>,
    k: int,
)
    requires
        values.len() == rings.len(),
        results.len() == rings.len(),
        rings.len() > 0 ==> call_ensures(Ring::<T, N>::new, (), *rings[0]),
        forall|j: int|
            0 <= j < rings.len() ==> call_ensures(
                Ring::<T, N>::push_or_else,
                (#[trigger] rings[j], values[j], OnFull::Reject),
                results[j],
            ),
        forall|j: int| 0 < j < rings.len() ==> *(#[trigger] rings[j]) == *final(rings[j - 1]),
        0 <= k < rings.len(),
    ensures
        results[k] is Ok <==> k < N,
        k >= N ==> results[k] == Err::<(), T>(values[k]),
        rings[k]@ == values.take(if k < N { k } else { N as int }),
        final(rings[k])@ == values.take(if k < N { k + 1 } else { N as int }),
        final(rings[k]).wf(),
    decreases k,
{
    if k > 0 {
        law_fill(rings, values, results, k - 1);
    }
    rings[k].lemma_len();
    assert(values.take(0) =~= Seq::<T>::empty());
    if k < N {
        assert(values.take(k + 1) =~= values.take(k).push(values[k]));
    }
}

/// Clearing a ring drops each of its elements once: as many elements are dropped as
/// there were, the `i`-th oldest is the `i`-th to go and its life ends, what was dropped
/// before stays as it was, and no element is left.
pub proof fn law_clear<T, const N: usize>(ring: &mut Ring<T, N>, disposal: &mut Disposal<T>)
    requires
        old(ring).wf(),
        call_ensures(Ring::<T, N>::clear, (ring, disposal), ()),
    ensures
        final(disposal)@.len() == old(disposal)@.len() + old(ring)@.len(),
        forall|i: int|
            0 <= i < old(ring)@.len() ==> {
                &&& final(disposal)@[old(disposal)@.len() + i] == #[trigger] old(ring)@[i]
                &&& has_resolved(old(ring)@[i])
            },
        forall|i: int|
            0 <= i < old(disposal)@.len() ==> #[trigger] final(disposal)@[i] == old(disposal)@[i],
        final(ring)@.len() == 0,
        forall|i: int| 0 <= i < N ==> (#[trigger] final(ring).memory()[i]).value is None,
{
    assert forall|i: int| 0 <= i < N implies (#[trigger] final(ring).memory()[i]).value is None by {
        final(ring).lemma_all_vacant(i);
    }
}

/// What is put into a new ring, as far as there is room, is what clearing it drops, in
/// the order of the pushes. `rings[k]` is the ring in the `k`-th push, `ring` the ring
/// that is cleared after the last one.
pub proof fn law_fill_and_clear<T, const N: usize>(
    rings: Seq<&mut Ring<T, N>>,
    values: Seq<T>,
    results: Seq<Result<(), T>>,
    ring: &mut Ring<T, N>,
    disposal: &mut Disposal<T>,
)
    requires
        0 < rings.len() <= N,
        values.len() == rings.len(),
        results.len() == rings.len(),
        call_ensures(Ring::<T, N>::new, (), *rings[0]),
        forall|j: int|
            0 <= j < rings.len() ==> call_ensures(
                Ring::<T, N>::push_or_else,
                (#[trigger] rings[j], values[j], OnFull::Reject),
                results[j],
            ),
        forall|j: int| 0 < j < rings.len() ==> *(#[trigger] rings[j]) == *final(rings[j - 1]),
        *old(ring) == *final(rings[rings.len() - 1]),
        call_ensures(Disposal::<T>::new, (), *old(disposal)),
        call_ensures(Ring::<T, N>::clear, (ring, disposal), ()),
    ensures
        final(disposal)@ == values,
        forall|i: int| 0 <= i < values.len() ==> has_resolved(#[trigger] values[i]),
{
    law_fill(rings, values, results, rings.len() - 1);
    assert(values.take(values.len() as int) =~= values);
    law_clear(ring, disposal);
    assert(final(disposal)@ =~= values);
    assert forall|i: int| 0 <= i < values.len() implies has_resolved(#[trigger] values[i]) by {
        assert(old(ring)@[i] == values[i]);
    }
}

} // verus!
