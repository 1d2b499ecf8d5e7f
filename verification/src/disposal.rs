//! Where elements end that nobody takes out.

use vstd::prelude::*;

verus! {

/// Drops elements, and remembers for the proofs which ones and in which order.
///
/// The view of a disposal is the sequence of the elements that it has dropped, the
/// first drop first. At run time there is nothing to it.
pub struct Disposal<T> {
    dropped: Ghost<Seq<T>>,
}

impl<T> View for Disposal<T> {
    type V = Seq<T>;

    closed spec fn view(&self) -> Seq<T> {
        self.dropped@
    }
}

impl<T> Disposal<T> {
    /// A disposal that has dropped nothing.
    pub fn new() -> (disposal: Self)
        ensures
            disposal@ == Seq::<T>::empty(),
        opens_invariants none
        no_unwind
    {
        Disposal { dropped: Ghost(Seq::empty()) }
    }

    /// Drops `value`. That it `has_resolved` says that its life ends here: it is not
    /// passed on, stored or forgotten.
    pub fn dispose(&mut self, value: T)
        ensures
            final(self)@ == old(self)@.push(value),
            has_resolved(value),
        opens_invariants none
        no_unwind
    {
        self.dropped = Ghost(self.dropped@.push(value));
    }
}

} // verus!
