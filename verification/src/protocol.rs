//! The slot protocol, as two small state machines.
//!
//! Every slot carries a stamp. A stamp equal to a tail cursor says that the slot
//! is free for the element of that cursor; a stamp one above a head cursor says
//! that the element of that cursor is there to be taken. A producer claims a
//! slot by advancing the tail, a consumer by advancing the head; whoever has
//! claimed a slot owns its payload until it stores the next stamp.
//!
//! [`push_action`] and [`pop_action`] name the one memory access that a state
//! asks for, [`push_next`] and [`pop_next`] say what follows from its result.
//! Whoever drives a machine performs the access, with the memory ordering that
//! the variants of [`Action`] document, and rests as [`Pause`] says.

use crate::lap::{Index, Laps};
use vstd::prelude::*;

verus! {

/// What the stamp of the slot at the tail tells a producer.
#[derive(Debug, Clone, Copy, PartialEq, Eq)]
pub enum PushStep {
    /// The slot is free: try to claim it.
    Claim,
    /// The slot still holds the element of the lap before: look at the head.
    CheckHead,
    /// Another thread is at work on the slot, or the tail is out of date.
    Wait,
}

/// What the stamp of the slot at the head tells a consumer.
#[derive(Debug, Clone, Copy, PartialEq, Eq)]
pub enum PopStep {
    /// The slot holds an element: try to claim it.
    Claim,
    /// The slot has not been filled in this lap: look at the tail.
    CheckTail,
    /// Another thread is at work on the slot, or the head is out of date.
    Wait,
}

/// What a push does when the queue is full.
#[derive(Debug, Clone, Copy, PartialEq, Eq)]
pub enum OnFull {
    /// Hand the value back.
    Reject,
    /// Take the place of the oldest element.
    Overwrite,
}

impl Laps {
    /// See [`PushStep`].
    pub open spec fn push_step_spec(self, tail: Index, stamp: Index) -> PushStep {
        if stamp == tail {
            PushStep::Claim
        } else if self.ahead_spec(stamp) == tail + 1 {
            PushStep::CheckHead
        } else {
            PushStep::Wait
        }
    }

    /// See [`PopStep`].
    pub open spec fn pop_step_spec(self, head: Index, stamp: Index) -> PopStep {
        if stamp == head + 1 {
            PopStep::Claim
        } else if stamp == head {
            PopStep::CheckTail
        } else {
            PopStep::Wait
        }
    }

    /// What a producer at `tail` does about the stamp of its slot.
    pub fn push_step(&self, tail: Index, stamp: Index) -> (step: PushStep)
        requires
            self.wf(),
            self.valid(tail),
        ensures
            step == self.push_step_spec(tail, stamp),
        no_unwind
    {
        proof {
            self.lemma_valid_bound(tail);
        }
        if tail == stamp {
            PushStep::Claim
        } else if self.ahead(stamp) == tail + 1 {
            PushStep::CheckHead
        } else {
            PushStep::Wait
        }
    }

    /// What a consumer at `head` does about the stamp of its slot.
    pub fn pop_step(&self, head: Index, stamp: Index) -> (step: PopStep)
        requires
            self.wf(),
            self.valid(head),
        ensures
            step == self.pop_step_spec(head, stamp),
        no_unwind
    {
        proof {
            self.lemma_valid_bound(head);
        }
        if head + 1 == stamp {
            PopStep::Claim
        } else if stamp == head {
            PopStep::CheckTail
        } else {
            PopStep::Wait
        }
    }
}

/// One access to the memory that the threads share.
#[derive(Debug, Clone, Copy, PartialEq, Eq)]
pub enum Action {
    /// Load the tail (relaxed).
    LoadTail,
    /// Load the head (relaxed).
    LoadHead,
    /// After a sequentially consistent fence, load the tail (relaxed).
    FenceLoadTail,
    /// After a sequentially consistent fence, load the head (relaxed).
    FenceLoadHead,
    /// Load the stamp of a slot (acquire).
    LoadStamp(usize),
    /// Compare-and-exchange the tail from the first cursor to the second
    /// (sequentially consistent; may fail spuriously).
    SwapTail(Index, Index),
    /// Compare-and-exchange the head from the first cursor to the second
    /// (sequentially consistent; may fail spuriously).
    SwapHead(Index, Index),
    /// After a sequentially consistent fence, compare-and-exchange the head from
    /// the first cursor to the second (sequentially consistent; may fail
    /// spuriously).
    FenceSwapHead(Index, Index),
    /// Store the tail (sequentially consistent).
    StoreTail(Index),
    /// Store the stamp of a slot (release).
    StoreStamp(usize, Index),
    /// Move the caller's value into a slot without an element.
    Write(usize),
    /// Move the element out of a slot.
    Take(usize),
    /// Swap the caller's value with the element of a slot.
    Replace(usize),
    /// Nothing is left to do.
    Return,
}

/// The result of an [`Action`].
#[derive(Debug, Clone, Copy, PartialEq, Eq)]
pub enum Event {
    /// A load returned this value.
    Loaded(Index),
    /// A compare-and-exchange succeeded.
    Swapped,
    /// A compare-and-exchange failed and found this value.
    Found(Index),
    /// A store or a payload access is done.
    Done,
}

/// How to rest before the next action.
#[derive(Debug, Clone, Copy, PartialEq, Eq)]
pub enum Pause {
    /// Go on at once.
    Go,
    /// Rest as [`crate::backoff::Backoff::spin`] does.
    Spin,
    /// Rest as [`crate::backoff::Backoff::snooze`] does.
    Snooze,
}

/// Where a push stands. The cursor is the tail that the push works with.
#[derive(Debug, Clone, Copy, PartialEq, Eq)]
pub enum PushState {
    /// Read the tail.
    LoadTail,
    /// Read the stamp of the slot at the tail.
    LoadStamp(Index),
    /// Claim the free slot by advancing the tail.
    ClaimTail(Index),
    /// The slot is owned: fill it.
    Write(Index),
    /// The slot is filled: say so.
    Publish(Index),
    /// The slot is occupied: compare with the head.
    CheckHead(Index),
    /// The slot is occupied: claim it by advancing the head past it.
    ClaimHead(Index),
    /// The slot is owned: advance the tail past it.
    AdvanceTail(Index),
    /// The slot is owned: swap the payloads.
    Replace(Index),
    /// The slot is filled anew: say so.
    Republish(Index),
    /// The value is in the queue, in a slot that was free.
    Stored,
    /// The queue is full; the value stays with the caller.
    Rejected,
    /// The value has taken the place of the oldest element.
    Replaced,
}

/// Where a pop stands. The cursor is the head that the pop works with.
#[derive(Debug, Clone, Copy, PartialEq, Eq)]
pub enum PopState {
    /// Read the head.
    LoadHead,
    /// Read the stamp of the slot at the head.
    LoadStamp(Index),
    /// Claim the filled slot by advancing the head.
    ClaimHead(Index),
    /// The slot is owned: empty it.
    Take(Index),
    /// The slot is empty: free it for the next lap.
    Release(Index),
    /// The slot is unfilled: compare with the tail.
    CheckTail(Index),
    /// An element has been taken.
    Taken,
    /// The queue is empty.
    Empty,
}

/// The cursor of `state` names a slot.
pub open spec fn push_state_valid(laps: Laps, state: PushState) -> bool {
    match state {
        PushState::LoadStamp(c)
        | PushState::ClaimTail(c)
        | PushState::Write(c)
        | PushState::Publish(c)
        | PushState::CheckHead(c)
        | PushState::ClaimHead(c)
        | PushState::AdvanceTail(c)
        | PushState::Replace(c)
        | PushState::Republish(c) => laps.valid(c),
        _ => true,
    }
}

/// The cursor of `state` names a slot.
pub open spec fn pop_state_valid(laps: Laps, state: PopState) -> bool {
    match state {
        PopState::LoadStamp(c)
        | PopState::ClaimHead(c)
        | PopState::Take(c)
        | PopState::Release(c)
        | PopState::CheckTail(c) => laps.valid(c),
        _ => true,
    }
}

/// The cursor that `state` adopts from `event`, if it does, names a slot.
pub open spec fn push_event_valid(laps: Laps, state: PushState, event: Event) -> bool {
    match (state, event) {
        (PushState::LoadTail, Event::Loaded(t)) => laps.valid(t),
        (PushState::ClaimTail(_), Event::Found(t)) => laps.valid(t),
        _ => true,
    }
}

/// The cursor that `state` adopts from `event`, if it does, names a slot.
pub open spec fn pop_event_valid(laps: Laps, state: PopState, event: Event) -> bool {
    match (state, event) {
        (PopState::LoadHead, Event::Loaded(h)) => laps.valid(h),
        (PopState::ClaimHead(_), Event::Found(h)) => laps.valid(h),
        _ => true,
    }
}

/// The access that a push in `state` asks for.
pub open spec fn push_action_spec(laps: Laps, state: PushState) -> Action {
    match state {
        PushState::LoadTail => Action::LoadTail,
        PushState::LoadStamp(t) => Action::LoadStamp(laps.index_spec(t) as usize),
        PushState::ClaimTail(t) => Action::SwapTail(t, laps.next_spec(t)),
        PushState::Write(t) => Action::Write(laps.index_spec(t) as usize),
        PushState::Publish(t) => Action::StoreStamp(
            laps.index_spec(t) as usize,
            (t + 1) as Index,
        ),
        PushState::CheckHead(t) => Action::FenceLoadHead,
        PushState::ClaimHead(t) => Action::FenceSwapHead(
            laps.behind_spec(t),
            laps.behind_spec(laps.next_spec(t)),
        ),
        PushState::AdvanceTail(t) => Action::StoreTail(laps.next_spec(t)),
        PushState::Replace(t) => Action::Replace(laps.index_spec(t) as usize),
        PushState::Republish(t) => Action::StoreStamp(
            laps.index_spec(t) as usize,
            (t + 1) as Index,
        ),
        PushState::Stored | PushState::Rejected | PushState::Replaced => Action::Return,
    }
}

/// The access that a pop in `state` asks for.
pub open spec fn pop_action_spec(laps: Laps, state: PopState) -> Action {
    match state {
        PopState::LoadHead => Action::LoadHead,
        PopState::LoadStamp(h) => Action::LoadStamp(laps.index_spec(h) as usize),
        PopState::ClaimHead(h) => Action::SwapHead(h, laps.next_spec(h)),
        PopState::Take(h) => Action::Take(laps.index_spec(h) as usize),
        PopState::Release(h) => Action::StoreStamp(
            laps.index_spec(h) as usize,
            laps.ahead_spec(h),
        ),
        PopState::CheckTail(h) => Action::FenceLoadTail,
        PopState::Taken | PopState::Empty => Action::Return,
    }
}

/// The state that follows, and the rest before its action. An event that does
/// not answer the pending action changes nothing.
pub open spec fn push_next_spec(
    laps: Laps,
    on_full: OnFull,
    state: PushState,
    event: Event,
) -> (PushState, Pause) {
    match (state, event) {
        (PushState::LoadTail, Event::Loaded(t)) => (PushState::LoadStamp(t), Pause::Go),
        (PushState::LoadStamp(t), Event::Loaded(s)) => match laps.push_step_spec(t, s) {
            PushStep::Claim => (PushState::ClaimTail(t), Pause::Go),
            PushStep::CheckHead => match on_full {
                OnFull::Reject => (PushState::CheckHead(t), Pause::Go),
                OnFull::Overwrite => (PushState::ClaimHead(t), Pause::Go),
            },
            PushStep::Wait => (PushState::LoadTail, Pause::Snooze),
        },
        (PushState::ClaimTail(t), Event::Swapped) => (PushState::Write(t), Pause::Go),
        (PushState::ClaimTail(t), Event::Found(u)) => (PushState::LoadStamp(u), Pause::Spin),
        (PushState::Write(t), Event::Done) => (PushState::Publish(t), Pause::Go),
        (PushState::Publish(t), Event::Done) => (PushState::Stored, Pause::Go),
        (PushState::CheckHead(t), Event::Loaded(h)) => if laps.full_spec(h, t) {
            (PushState::Rejected, Pause::Go)
        } else {
            (PushState::LoadTail, Pause::Spin)
        },
        (PushState::ClaimHead(t), Event::Swapped) => (PushState::AdvanceTail(t), Pause::Go),
        (PushState::ClaimHead(t), Event::Found(h)) => (PushState::LoadTail, Pause::Spin),
        (PushState::AdvanceTail(t), Event::Done) => (PushState::Replace(t), Pause::Go),
        (PushState::Replace(t), Event::Done) => (PushState::Republish(t), Pause::Go),
        (PushState::Republish(t), Event::Done) => (PushState::Replaced, Pause::Go),
        _ => (state, Pause::Go),
    }
}

/// The state that follows, and the rest before its action. An event that does
/// not answer the pending action changes nothing.
pub open spec fn pop_next_spec(laps: Laps, state: PopState, event: Event) -> (PopState, Pause) {
    match (state, event) {
        (PopState::LoadHead, Event::Loaded(h)) => (PopState::LoadStamp(h), Pause::Go),
        (PopState::LoadStamp(h), Event::Loaded(s)) => match laps.pop_step_spec(h, s) {
            PopStep::Claim => (PopState::ClaimHead(h), Pause::Go),
            PopStep::CheckTail => (PopState::CheckTail(h), Pause::Go),
            PopStep::Wait => (PopState::LoadHead, Pause::Snooze),
        },
        (PopState::ClaimHead(h), Event::Swapped) => (PopState::Take(h), Pause::Go),
        (PopState::ClaimHead(h), Event::Found(g)) => (PopState::LoadStamp(g), Pause::Spin),
        (PopState::Take(h), Event::Done) => (PopState::Release(h), Pause::Go),
        (PopState::Release(h), Event::Done) => (PopState::Taken, Pause::Go),
        (PopState::CheckTail(h), Event::Loaded(t)) => if t == h {
            (PopState::Empty, Pause::Go)
        } else {
            (PopState::LoadHead, Pause::Spin)
        },
        _ => (state, Pause::Go),
    }
}

/// The access that a push in `state` asks for.
pub fn push_action(laps: &Laps, state: PushState) -> (action: Action)
    requires
        laps.wf(),
        push_state_valid(*laps, state),
    ensures
        action == push_action_spec(*laps, state),
{
    match state {
        PushState::LoadTail => Action::LoadTail,
        PushState::LoadStamp(t) => Action::LoadStamp(laps.index(t)),
        PushState::ClaimTail(t) => Action::SwapTail(t, laps.next(t)),
        PushState::Write(t) => Action::Write(laps.index(t)),
        PushState::Publish(t) | PushState::Republish(t) => {
            proof {
                laps.lemma_valid_bound(t);
            }
            Action::StoreStamp(laps.index(t), t + 1)
        },
        PushState::CheckHead(_) => Action::FenceLoadHead,
        PushState::ClaimHead(t) => Action::FenceSwapHead(
            laps.behind(t),
            laps.behind(laps.next(t)),
        ),
        PushState::AdvanceTail(t) => Action::StoreTail(laps.next(t)),
        PushState::Replace(t) => Action::Replace(laps.index(t)),
        PushState::Stored | PushState::Rejected | PushState::Replaced => Action::Return,
    }
}

/// The access that a pop in `state` asks for.
pub fn pop_action(laps: &Laps, state: PopState) -> (action: Action)
    requires
        laps.wf(),
        pop_state_valid(*laps, state),
    ensures
        action == pop_action_spec(*laps, state),
{
    match state {
        PopState::LoadHead => Action::LoadHead,
        PopState::LoadStamp(h) => Action::LoadStamp(laps.index(h)),
        PopState::ClaimHead(h) => Action::SwapHead(h, laps.next(h)),
        PopState::Take(h) => Action::Take(laps.index(h)),
        PopState::Release(h) => Action::StoreStamp(laps.index(h), laps.ahead(h)),
        PopState::CheckTail(_) => Action::FenceLoadTail,
        PopState::Taken | PopState::Empty => Action::Return,
    }
}

/// The state of a push after `event`, and the rest before its action.
pub fn push_next(laps: &Laps, on_full: OnFull, state: PushState, event: Event) -> (next: (
    PushState,
    Pause,
))
    requires
        laps.wf(),
        push_state_valid(*laps, state),
    ensures
        next == push_next_spec(*laps, on_full, state, event),
        push_event_valid(*laps, state, event) ==> push_state_valid(*laps, next.0),
{
    match (state, event) {
        (PushState::LoadTail, Event::Loaded(t)) => (PushState::LoadStamp(t), Pause::Go),
        (PushState::LoadStamp(t), Event::Loaded(s)) => match laps.push_step(t, s) {
            PushStep::Claim => (PushState::ClaimTail(t), Pause::Go),
            PushStep::CheckHead => match on_full {
                OnFull::Reject => (PushState::CheckHead(t), Pause::Go),
                OnFull::Overwrite => (PushState::ClaimHead(t), Pause::Go),
            },
            PushStep::Wait => (PushState::LoadTail, Pause::Snooze),
        },
        (PushState::ClaimTail(t), Event::Swapped) => (PushState::Write(t), Pause::Go),
        (PushState::ClaimTail(_), Event::Found(u)) => (PushState::LoadStamp(u), Pause::Spin),
        (PushState::Write(t), Event::Done) => (PushState::Publish(t), Pause::Go),
        (PushState::Publish(_), Event::Done) => (PushState::Stored, Pause::Go),
        (PushState::CheckHead(t), Event::Loaded(h)) => if laps.full(h, t) {
            (PushState::Rejected, Pause::Go)
        } else {
            (PushState::LoadTail, Pause::Spin)
        },
        (PushState::ClaimHead(t), Event::Swapped) => (PushState::AdvanceTail(t), Pause::Go),
        (PushState::ClaimHead(_), Event::Found(_)) => (PushState::LoadTail, Pause::Spin),
        (PushState::AdvanceTail(t), Event::Done) => (PushState::Replace(t), Pause::Go),
        (PushState::Replace(t), Event::Done) => (PushState::Republish(t), Pause::Go),
        (PushState::Republish(_), Event::Done) => (PushState::Replaced, Pause::Go),
        _ => (state, Pause::Go),
    }
}

/// The state of a pop after `event`, and the rest before its action.
pub fn pop_next(laps: &Laps, state: PopState, event: Event) -> (next: (PopState, Pause))
    requires
        laps.wf(),
        pop_state_valid(*laps, state),
    ensures
        next == pop_next_spec(*laps, state, event),
        pop_event_valid(*laps, state, event) ==> pop_state_valid(*laps, next.0),
{
    match (state, event) {
        (PopState::LoadHead, Event::Loaded(h)) => (PopState::LoadStamp(h), Pause::Go),
        (PopState::LoadStamp(h), Event::Loaded(s)) => match laps.pop_step(h, s) {
            PopStep::Claim => (PopState::ClaimHead(h), Pause::Go),
            PopStep::CheckTail => (PopState::CheckTail(h), Pause::Go),
            PopStep::Wait => (PopState::LoadHead, Pause::Snooze),
        },
        (PopState::ClaimHead(h), Event::Swapped) => (PopState::Take(h), Pause::Go),
        (PopState::ClaimHead(_), Event::Found(g)) => (PopState::LoadStamp(g), Pause::Spin),
        (PopState::Take(h), Event::Done) => (PopState::Release(h), Pause::Go),
        (PopState::Release(_), Event::Done) => (PopState::Taken, Pause::Go),
        (PopState::CheckTail(h), Event::Loaded(t)) => if t == h {
            (PopState::Empty, Pause::Go)
        } else {
            (PopState::LoadHead, Pause::Spin)
        },
        _ => (state, Pause::Go),
    }
}

} // verus!
