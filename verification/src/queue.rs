//! The queue.

use crate::disposal::Disposal;
use crate::model::{
    after_force_push, after_pop, after_push, force_push_answer, pop_answer, push_answer,
};
use crate::protocol::OnFull;
use crate::ring::Ring;
use vstd::prelude::*;

verus! {

/// A bounded first-in first-out queue with inline storage.
///
/// The capacity `N` is fixed at compile time and all slots lie within the value,
/// so a queue needs no allocator. `push` hands a value back when the queue is
/// full, `pop` finds nothing when it is empty; [`Queue::enqueue`] and
/// [`Queue::dequeue`] are other names for them. The view of a queue is the
/// sequence of its elements, oldest first.
pub struct Queue<T, const N: usize> {
    ring: Ring<T, N>,
    disposal: Disposal<T>,
}

impl<T, const N: usize> View for Queue<T, N> {
    type V = Seq<T>;

    closed spec fn view(&self) -> Seq<T> {
        self.ring@
    }
}

impl<T, const N: usize> Queue<T, N> {
    #[verifier::type_invariant]
    spec fn at_rest(self) -> bool {
        self.ring.wf()
    }

    /// The elements that the queue has dropped, the first drop first. They are those
    /// that were left in it in the end: all others leave by being handed out.
    pub closed spec fn dropped(&self) -> Seq<T> {
        self.disposal@
    }

    /// Creates an empty queue.
    pub fn new() -> (queue: Self)
        requires
            0 < N <= isize::MAX as int / 2,
        ensures
            queue@ == Seq::<T>::empty(),
            queue.dropped() == Seq::<T>::empty(),
    {
        Queue { ring: Ring::new(), disposal: Disposal::new() }
    }

    /// The queue that [`Queue::new`] creates.
    pub fn default() -> (queue: Self)
        requires
            0 < N <= isize::MAX as int / 2,
        ensures
            queue@ == Seq::<T>::empty(),
            queue.dropped() == Seq::<T>::empty(),
    {
        Self::new()
    }

    /// Capacity in elements. Always `N`.
    pub fn capacity(&self) -> (cap: usize)
        ensures
            cap == N,
            self@.len() <= cap,
    {
        proof {
            use_type_invariant(self);
            self.ring.lemma_len();
        }
        N
    }

    /// Adds `value` as the newest element. On a full queue, hands it back as
    /// `Err`.
    pub fn push(&mut self, value: T) -> (result: Result<(), T>)
        ensures
            result == push_answer(old(self)@, N as nat, value),
            final(self)@ == after_push(old(self)@, N as nat, value),
            final(self)@.len() <= N,
            final(self).dropped() == old(self).dropped(),
    {
        proof {
            use_type_invariant(&*self);
            self.ring.lemma_len();
        }
        self.ring.push_or_else(value, OnFull::Reject)
    }

    /// Another name for [`Queue::push`].
    pub fn enqueue(&mut self, value: T) -> (result: Result<(), T>)
        ensures
            result == push_answer(old(self)@, N as nat, value),
            final(self)@ == after_push(old(self)@, N as nat, value),
            final(self)@.len() <= N,
            final(self).dropped() == old(self).dropped(),
    {
        self.push(value)
    }

    /// Adds `value` as the newest element. On a full queue, it takes the place of
    /// the oldest one, which is returned.
    pub fn force_push(&mut self, value: T) -> (replaced: Option<T>)
        ensures
            replaced == force_push_answer(old(self)@, N as nat),
            final(self)@ == after_force_push(old(self)@, N as nat, value),
            final(self)@.len() <= N,
            final(self).dropped() == old(self).dropped(),
    {
        proof {
            use_type_invariant(&*self);
            self.ring.lemma_len();
        }
        match self.ring.push_or_else(value, OnFull::Overwrite) {
            Ok(()) => None,
            Err(oldest) => Some(oldest),
        }
    }

    /// Takes the oldest element, or nothing from an empty queue.
    pub fn pop(&mut self) -> (value: Option<T>)
        ensures
            value == pop_answer(old(self)@),
            final(self)@ == after_pop(old(self)@),
            final(self)@.len() <= N,
            final(self).dropped() == old(self).dropped(),
    {
        proof {
            use_type_invariant(&*self);
            self.ring.lemma_len();
        }
        self.ring.pop()
    }

    /// Another name for [`Queue::pop`].
    pub fn dequeue(&mut self) -> (value: Option<T>)
        ensures
            value == pop_answer(old(self)@),
            final(self)@ == after_pop(old(self)@),
            final(self)@.len() <= N,
            final(self).dropped() == old(self).dropped(),
    {
        self.pop()
    }

    /// Whether no elements are stored.
    pub fn is_empty(&self) -> (empty: bool)
        ensures
            empty == (self@.len() == 0),
    {
        proof {
            use_type_invariant(self);
        }
        self.ring.is_empty()
    }

    /// Whether no push can succeed without [`Queue::force_push`].
    pub fn is_full(&self) -> (full: bool)
        ensures
            full == (self@.len() == N),
    {
        proof {
            use_type_invariant(self);
            self.ring.lemma_len();
        }
        self.ring.is_full()
    }

    /// Number of elements stored.
    pub fn len(&self) -> (n: usize)
        ensures
            n == self@.len(),
            n <= N,
    {
        proof {
            use_type_invariant(self);
            self.ring.lemma_len();
        }
        self.ring.len()
    }

    /// What stands for a queue in debug output: its elements are not shown.
    pub fn debug_text(&self) -> (text: &'static str)
        ensures
            text@ == "Queue { .. }"@,
    {
        "Queue { .. }"
    }
}

impl<T, const N: usize> Drop for Queue<T, N> {
    /// Drops the elements that are left, each of them once and the oldest first.
    fn drop(&mut self)
        ensures
            final(self)@ == Seq::<T>::empty(),
            final(self).dropped() == old(self).dropped() + old(self)@,
            forall|i: int| 0 <= i < old(self)@.len() ==> has_resolved(#[trigger] old(self)@[i]),
        opens_invariants none
        no_unwind
    {
        proof {
            use_type_invariant(&*self);
        }
        self.ring.clear(&mut self.disposal);
    }
}

/// The first `N` pushes on a new queue succeed, whatever the capacity and the values, all
/// further ones are refused and get their value back, and the queue holds what has come
/// in, in order. `queues[k]` is the queue in the `k`-th push.
pub proof fn law_fill<T, const N: usize>(
    queues: Seq<&mut Queue<T, N>>,
    values: Seq<T>,
    results: Seq<Result<(), T>>,
    k: int,
)
    requires
        values.len() == queues.len(),
        results.len() == queues.len(),
        queues.len() > 0 ==> call_ensures(Queue::<T, N>::new, (), *queues[0]),
        forall|j: int|
            0 <= j < queues.len() ==> call_ensures(
                Queue::<T, N>::push,
                (#[trigger] queues[j], values[j]),
                results[j],
            ),
        forall|j: int| 0 < j < queues.len() ==> *(#[trigger] queues[j]) == *final(queues[j - 1]),
        0 <= k < queues.len(),
    ensures
        results[k] is Ok <==> k < N,
        k >= N ==> results[k] == Err::<(), T>(values[k]),
        queues[k]@ == values.take(if k < N { k } else { N as int }),
        final(queues[k])@ == values.take(if k < N { k + 1 } else { N as int }),
        final(queues[k]).dropped().len() == 0,
    decreases k,
{
    if k > 0 {
        law_fill(queues, values, results, k - 1);
    }
    assert(values.take(0) =~= Seq::<T>::empty());
    assert(queues[k]@.len() == if k < N { k } else { N as int });
    if k < N {
        assert(values.take(k + 1) =~= values.take(k).push(values[k]));
    }
}

} // verus!
