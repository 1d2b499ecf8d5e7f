//! Exponential backoff for retry loops.

use vstd::arithmetic::power2::*;
use vstd::bits::*;
use vstd::prelude::*;

verus! {

/// `core::hint::spin_loop` tells the processor that a busy-wait loop is running.
/// It takes and returns nothing, so nothing is claimed of it.
pub assume_specification[ core::hint::spin_loop ]()
;

/// How to pass the time before the next attempt.
#[derive(Debug, Clone, Copy, PartialEq, Eq)]
pub enum Rest {
    /// Issue this many spin hints.
    Hints(u32),
    /// Give up the processor to another thread.
    Yield,
}

/// Exponential spinning; where a thread can yield, it yields past a threshold.
pub struct Backoff {
    spins: u32,
}

/// The number of hints doubles with every rest up to `2^limit`.
pub open spec fn hint_count(spins: nat, limit: nat) -> nat {
    pow2(if spins < limit { spins } else { limit })
}

impl Backoff {
    /// How often this backoff has grown.
    pub closed spec fn spins(&self) -> nat {
        self.spins as nat
    }

    #[verifier::type_invariant]
    spec fn bounded(&self) -> bool {
        self.spins <= 10
    }

    /// A backoff that has not rested yet.
    pub fn new() -> (b: Self)
        ensures
            b.spins() == 0,
    {
        Self { spins: 0 }
    }

    /// The next rest of a caller that expects the contended value to change at
    /// once. With `can_yield`, rests past the sixth yield.
    pub fn next_spin(&mut self, can_yield: bool) -> (rest: Rest)
        ensures
            can_yield && old(self).spins() > 6 ==> rest is Yield && final(self).spins() == old(
                self,
            ).spins(),
            !(can_yield && old(self).spins() > 6) ==> {
                &&& rest matches Rest::Hints(n) && n == hint_count(old(self).spins(), 6)
                &&& final(self).spins() == if old(self).spins() < 8 {
                    old(self).spins() + 1
                } else {
                    old(self).spins()
                }
            },
            final(self).spins() <= 10,
    {
        proof {
            use_type_invariant(&*self);
        }
        if can_yield && self.spins > 6 {
            return Rest::Yield;
        }
        let n: u32 = hints(self.spins, 6);
        if self.spins < 8 {
            self.spins = self.spins + 1;
        }
        Rest::Hints(n)
    }

    /// The next rest of a caller that waits for another thread to finish. With
    /// `can_yield`, rests past the eighth yield.
    pub fn next_snooze(&mut self, can_yield: bool) -> (rest: Rest)
        ensures
            can_yield && old(self).spins() > 8 ==> rest is Yield && final(self).spins() == old(
                self,
            ).spins(),
            !(can_yield && old(self).spins() > 8) ==> {
                &&& rest matches Rest::Hints(n) && n == hint_count(old(self).spins(), 8)
                &&& final(self).spins() == if old(self).spins() < 10 {
                    old(self).spins() + 1
                } else {
                    old(self).spins()
                }
            },
            final(self).spins() <= 10,
    {
        proof {
            use_type_invariant(&*self);
        }
        if can_yield && self.spins > 8 {
            return Rest::Yield;
        }
        let n: u32 = hints(self.spins, 8);
        if self.spins < 10 {
            self.spins = self.spins + 1;
        }
        Rest::Hints(n)
    }

    /// Rests without yielding, for a value that is about to change, and returns how
    /// many hints it has issued.
    pub fn spin(&mut self) -> (issued: u32)
        ensures
            issued == hint_count(old(self).spins(), 6),
            final(self).spins() == if old(self).spins() < 8 {
                old(self).spins() + 1
            } else {
                old(self).spins()
            },
            final(self).spins() <= 10,
    {
        match self.next_spin(false) {
            Rest::Hints(n) => relax(n),
            Rest::Yield => 0,
        }
    }

    /// Rests without yielding, while another thread finishes its step, and returns how
    /// many hints it has issued.
    pub fn snooze(&mut self) -> (issued: u32)
        ensures
            issued == hint_count(old(self).spins(), 8),
            final(self).spins() == if old(self).spins() < 10 {
                old(self).spins() + 1
            } else {
                old(self).spins()
            },
            final(self).spins() <= 10,
    {
        match self.next_snooze(false) {
            Rest::Hints(n) => relax(n),
            Rest::Yield => 0,
        }
    }
}

/// Two to the power of `spins`, but at most to the power of `limit`.
fn hints(spins: u32, limit: u32) -> (n: u32)
    requires
        limit <= 8,
    ensures
        n == hint_count(spins as nat, limit as nat),
        1 <= n <= 256,
{
    let e: u32 = if spins < limit {
        spins
    } else {
        limit
    };
    proof {
        lemma2_to64();
        lemma_pow2_pos(e as nat);
        if e < 8 {
            lemma_pow2_strictly_increases(e as nat, 8);
        }
        lemma_u32_shl_is_mul(1, e);
    }
    1u32 << e
}

/// Issues `n` spin hints and returns how many it has issued.
pub fn relax(n: u32) -> (issued: u32)
    ensures
        issued == n,
{
    let mut issued: u32 = 0;
    while issued < n
        invariant
            issued <= n,
        decreases n - issued,
    {
        core::hint::spin_loop();
        issued = issued + 1;
    }
    issued
}

} // verus!
