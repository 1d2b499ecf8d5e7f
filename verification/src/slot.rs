//! One place of the buffer.

use crate::disposal::Disposal;
use crate::lap::Index;
use vstd::prelude::*;

verus! {

/// A slot: a stamp for the protocol and room for one element.
pub struct Slot<T> {
    /// Says whose turn it is to work on the slot.
    pub stamp: Index,
    /// The element, while there is one.
    pub value: Option<T>,
}

/// `slots` are those of a new buffer. [`stamped`] makes them so, and [`law_untouched`]
/// says how they look.
pub closed spec fn untouched<T>(slots: Seq<Slot<T>>) -> bool {
    forall|i: int| 0 <= i < slots.len() ==> #[trigger] slots[i] == (Slot {
        stamp: i as Index,
        value: None::<T>,
    })
}

/// Each slot of a new buffer is vacant, and its stamp is its index.
pub proof fn law_untouched<T>(slots: Seq<Slot<T>>)
    requires
        untouched(slots),
        slots.len() <= Index::MAX,
    ensures
        forall|i: int| 0 <= i < slots.len() ==> (#[trigger] slots[i]).stamp == i,
        forall|i: int| 0 <= i < slots.len() ==> (#[trigger] slots[i]).value is None,
{
}

/// Makes the slots of a new buffer out of any slots.
pub fn stamped<T, const N: usize>(slots: [Slot<T>; N]) -> (fresh: [Slot<T>; N])
    ensures
        untouched(fresh@),
{
    let mut slots = slots;
    let mut i: usize = 0;
    while i < N
        invariant
            i <= N,
            forall|k: int| 0 <= k < i ==> #[trigger] slots@[k] == (Slot {
                stamp: k as Index,
                value: None::<T>,
            }),
        decreases N - i,
    {
        slots[i] = Slot::vacant(i as Index);
        i = i + 1;
    }
    slots
}

impl<T> Slot<T> {
    /// A slot without an element.
    pub fn vacant(stamp: Index) -> (slot: Self)
        ensures
            slot == (Slot { stamp, value: None::<T> }),
    {
        Slot { stamp, value: None }
    }

    /// Moves `value` into a slot that holds no element.
    pub fn write_value(&mut self, value: T)
        requires
            old(self).value is None,
        ensures
            *final(self) == (Slot { stamp: old(self).stamp, value: Some(value) }),
        no_unwind
    {
        self.value = Some(value);
    }

    /// Moves the element out.
    pub fn read_value(&mut self) -> (value: Option<T>)
        ensures
            value == old(self).value,
            *final(self) == (Slot { stamp: old(self).stamp, value: None::<T> }),
        opens_invariants none
        no_unwind
    {
        let mut value: Option<T> = None;
        core::mem::swap(&mut value, &mut self.value);
        value
    }

    /// Drops the element, if there is one, by way of `disposal`.
    pub fn drop_value(&mut self, disposal: &mut Disposal<T>)
        ensures
            *final(self) == (Slot { stamp: old(self).stamp, value: None::<T> }),
            old(self).value is None ==> final(disposal)@ == old(disposal)@,
            old(self).value matches Some(value) ==> {
                &&& final(disposal)@ == old(disposal)@.push(value)
                &&& has_resolved(value)
            },
        opens_invariants none
        no_unwind
    {
        if let Some(value) = self.read_value() {
            disposal.dispose(value);
        }
    }

    /// Moves `value` in and the old element out.
    pub fn replace_value(&mut self, value: T) -> (old_value: Option<T>)
        ensures
            old_value == old(self).value,
            *final(self) == (Slot { stamp: old(self).stamp, value: Some(value) }),
        no_unwind
    {
        let mut value: Option<T> = Some(value);
        core::mem::swap(&mut value, &mut self.value);
        value
    }

    /// Reads the stamp.
    pub fn stamp_load(&self) -> (stamp: Index)
        ensures
            stamp == self.stamp,
        opens_invariants none
        no_unwind
    {
        self.stamp
    }

    /// Sets the stamp.
    pub fn stamp_store(&mut self, stamp: Index)
        ensures
            *final(self) == (Slot { stamp, value: old(self).value }),
        opens_invariants none
        no_unwind
    {
        self.stamp = stamp;
    }
}

} // verus!
