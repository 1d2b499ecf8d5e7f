//! The memory that threads share, what each thread is doing, and what can happen
//! next.

use crate::lap::{Index, Laps};
use crate::model::{force_push_answer, pop_answer, push_answer, Op};
use crate::protocol::{
    pop_action_spec, pop_next_spec, push_action_spec, push_next_spec, Action, Event, OnFull,
    PopState, PushState,
};
use crate::slot::Slot;
use vstd::prelude::*;

verus! {

/// The memory that the threads share.
pub ghost struct Memory<T> {
    /// The head cursor.
    pub head: Index,
    /// The tail cursor.
    pub tail: Index,
    /// The slots.
    pub slots: Seq<Slot<T>>,
}

/// What an operation answers.
pub ghost enum Answer<T> {
    /// The answer of `push`.
    Push(Result<(), T>),
    /// The answer of `force_push`.
    ForcePush(Option<T>),
    /// The answer of `pop`.
    Pop(Option<T>),
}

/// What a thread is doing.
#[allow(inconsistent_fields)]
pub ghost enum Agent<T> {
    /// Nothing.
    Idle,
    /// A push of `value`.
    Push {
        /// Whether it is `push` or `force_push`.
        on_full: OnFull,
        /// The argument.
        value: T,
        /// The value in the thread's hands.
        item: Option<T>,
        /// Where the push stands.
        state: PushState,
        /// The position of the cursor in `state`.
        pos: int,
        /// The answer that is owed, once the push has taken effect.
        answer: Option<Answer<T>>,
    },
    /// A pop.
    Pop {
        /// The value in the thread's hands.
        item: Option<T>,
        /// Where the pop stands.
        state: PopState,
        /// The position of the cursor in `state`.
        pos: int,
        /// The answer that is owed, once the pop has taken effect.
        answer: Option<Answer<T>>,
    },
}

/// What the stamp of a slot says.
pub ghost enum Phase {
    /// The slot is free for the element of this position.
    Free(int),
    /// The slot holds the element of this position.
    Filled(int),
}

/// What has happened so far.
pub ghost struct History<T> {
    /// The elements of all positions that have been claimed.
    pub log: Seq<T>,
    /// The first position that no consumer has claimed.
    pub front: int,
    /// What the stamps say.
    pub phases: Seq<Phase>,
    /// The threads that own the slots.
    pub owners: Seq<Option<int>>,
    /// The thread that has advanced the head for a forced push and not yet the
    /// tail.
    pub pending: Option<int>,
}

/// The shared memory, the threads and their history.
pub ghost struct World<T> {
    /// The geometry.
    pub laps: Laps,
    /// The shared memory.
    pub memory: Memory<T>,
    /// The threads.
    pub agents: Seq<Agent<T>>,
    /// What has happened so far. No thread can see it.
    pub history: History<T>,
}

impl Phase {
    /// The stamp that says so.
    pub open spec fn stamp(self, laps: Laps) -> int {
        match self {
            Phase::Free(p) => laps.cursor_at(p) as int,
            Phase::Filled(p) => laps.cursor_at(p) + 1,
        }
    }

    /// The position that it is about.
    pub open spec fn position(self) -> int {
        match self {
            Phase::Free(p) => p,
            Phase::Filled(p) => p,
        }
    }

    /// The phases of a slot follow one another in this order.
    pub open spec fn rank(self) -> int {
        match self {
            Phase::Free(p) => 2 * p,
            Phase::Filled(p) => 2 * p + 1,
        }
    }
}

impl<T> World<T> {
    /// One past the last position that a producer has claimed.
    pub open spec fn back(self) -> int {
        self.history.log.len() as int
    }

    /// The position of the tail cursor.
    pub open spec fn tail_pos(self) -> int {
        self.back() - if self.history.pending is Some {
            1int
        } else {
            0
        }
    }

    /// The elements in the queue, oldest first.
    pub open spec fn contents(self) -> Seq<T> {
        self.history.log.skip(self.history.front)
    }
}

/// The effect of an access on the memory, its result, and the value that is in
/// the thread's hands afterwards. A compare-and-exchange without `luck` fails.
pub open spec fn perform<T>(m: Memory<T>, action: Action, item: Option<T>, luck: bool) -> (
    Memory<T>,
    Event,
    Option<T>,
) {
    match action {
        Action::LoadTail | Action::FenceLoadTail => (m, Event::Loaded(m.tail), item),
        Action::LoadHead | Action::FenceLoadHead => (m, Event::Loaded(m.head), item),
        Action::LoadStamp(i) => (m, Event::Loaded(m.slots[i as int].stamp), item),
        Action::SwapTail(from, to) => if luck && m.tail == from {
            (Memory { tail: to, ..m }, Event::Swapped, item)
        } else {
            (m, Event::Found(m.tail), item)
        },
        Action::SwapHead(from, to) | Action::FenceSwapHead(from, to) => if luck && m.head == from {
            (Memory { head: to, ..m }, Event::Swapped, item)
        } else {
            (m, Event::Found(m.head), item)
        },
        Action::StoreTail(to) => (Memory { tail: to, ..m }, Event::Done, item),
        Action::StoreStamp(i, to) => (
            Memory {
                slots: m.slots.update(
                    i as int,
                    Slot { stamp: to, value: m.slots[i as int].value },
                ),
                ..m
            },
            Event::Done,
            item,
        ),
        Action::Write(i) => (
            Memory {
                slots: m.slots.update(
                    i as int,
                    Slot { stamp: m.slots[i as int].stamp, value: item },
                ),
                ..m
            },
            Event::Done,
            None,
        ),
        Action::Take(i) => (
            Memory {
                slots: m.slots.update(
                    i as int,
                    Slot { stamp: m.slots[i as int].stamp, value: None },
                ),
                ..m
            },
            Event::Done,
            m.slots[i as int].value,
        ),
        Action::Replace(i) => (
            Memory {
                slots: m.slots.update(
                    i as int,
                    Slot { stamp: m.slots[i as int].stamp, value: item },
                ),
                ..m
            },
            Event::Done,
            m.slots[i as int].value,
        ),
        Action::Return => (m, Event::Done, item),
    }
}

/// The operation that a thread is at.
pub open spec fn operation<T>(agent: Agent<T>) -> Op<T> {
    match agent {
        Agent::Push { on_full: OnFull::Reject, value, .. } => Op::Push(value),
        Agent::Push { on_full: OnFull::Overwrite, value, .. } => Op::ForcePush(value),
        _ => Op::Pop,
    }
}

/// What `op` answers on a queue that holds `s`.
pub open spec fn answer_of<T>(s: Seq<T>, cap: nat, op: Op<T>) -> Answer<T> {
    match op {
        Op::Push(v) => Answer::Push(push_answer(s, cap, v)),
        Op::ForcePush(_) => Answer::ForcePush(force_push_answer(s, cap)),
        Op::Pop => Answer::Pop(pop_answer(s)),
    }
}

/// The access that thread `id` is about to make.
pub open spec fn action_of<T>(w: World<T>, id: int) -> Action {
    match w.agents[id] {
        Agent::Idle => Action::Return,
        Agent::Push { state, .. } => push_action_spec(w.laps, state),
        Agent::Pop { state, .. } => pop_action_spec(w.laps, state),
    }
}

/// The access that thread `id` is about to make is the one at which its operation
/// takes effect: the claim of a slot, or the look that finds the queue full or
/// empty.
pub open spec fn takes_effect<T>(w: World<T>, id: int, luck: bool) -> bool {
    match w.agents[id] {
        Agent::Idle => false,
        Agent::Push { state: PushState::ClaimTail(t), .. } => luck && w.memory.tail == t,
        Agent::Push { state: PushState::ClaimHead(t), .. } => luck && w.memory.head == w.laps.behind_spec(t),
        Agent::Push { state: PushState::CheckHead(t), .. } => w.laps.full_spec(w.memory.head, t),
        Agent::Pop { state: PopState::ClaimHead(h), .. } => luck && w.memory.head == h,
        Agent::Pop { state: PopState::CheckTail(h), .. } => w.memory.tail == h,
        _ => false,
    }
}

/// The history after the next access of thread `id`.
pub open spec fn history_after<T>(w: World<T>, id: int, luck: bool) -> History<T> {
    let h = w.history;
    match w.agents[id] {
        Agent::Idle => h,
        Agent::Push { value, state, pos, .. } => {
            let i = w.laps.slot_at(pos);
            match state {
                PushState::ClaimTail(_) if takes_effect(w, id, luck) => History {
                    log: h.log.push(value),
                    owners: h.owners.update(i, Some(id)),
                    ..h
                },
                PushState::ClaimHead(_) if takes_effect(w, id, luck) => History {
                    log: h.log.push(value),
                    front: h.front + 1,
                    owners: h.owners.update(i, Some(id)),
                    pending: Some(id),
                    ..h
                },
                PushState::AdvanceTail(_) => History { pending: None, ..h },
                PushState::Publish(_) | PushState::Republish(_) => History {
                    phases: h.phases.update(i, Phase::Filled(pos)),
                    owners: h.owners.update(i, None),
                    ..h
                },
                _ => h,
            }
        },
        Agent::Pop { state, pos, .. } => {
            let i = w.laps.slot_at(pos);
            match state {
                PopState::ClaimHead(_) if takes_effect(w, id, luck) => History {
                    front: h.front + 1,
                    owners: h.owners.update(i, Some(id)),
                    ..h
                },
                PopState::Release(_) => History {
                    phases: h.phases.update(i, Phase::Free(pos + w.laps.cap)),
                    owners: h.owners.update(i, None),
                    ..h
                },
                _ => h,
            }
        },
    }
}

/// Thread `id` after its next access.
pub open spec fn agent_after<T>(w: World<T>, id: int, luck: bool) -> Agent<T> {
    let owed = Some(answer_of(w.contents(), w.laps.cap as nat, operation(w.agents[id])));
    match w.agents[id] {
        Agent::Idle => Agent::Idle,
        Agent::Push { on_full, value, item, state, pos, answer } => {
            let (_, event, item2) = perform(w.memory, action_of(w, id), item, luck);
            Agent::Push {
                on_full,
                value,
                item: item2,
                state: push_next_spec(w.laps, on_full, state, event).0,
                pos: match state {
                    PushState::LoadTail => w.tail_pos(),
                    PushState::ClaimTail(_) if !takes_effect(w, id, luck) => w.tail_pos(),
                    _ => pos,
                },
                answer: if takes_effect(w, id, luck) {
                    owed
                } else {
                    answer
                },
            }
        },
        Agent::Pop { item, state, pos, answer } => {
            let (_, event, item2) = perform(w.memory, action_of(w, id), item, luck);
            Agent::Pop {
                item: item2,
                state: pop_next_spec(w.laps, state, event).0,
                pos: match state {
                    PopState::LoadHead => w.history.front,
                    PopState::ClaimHead(_) if !takes_effect(w, id, luck) => w.history.front,
                    _ => pos,
                },
                answer: if takes_effect(w, id, luck) {
                    owed
                } else {
                    answer
                },
            }
        },
    }
}

/// The value in the hands of thread `id`.
pub open spec fn item_of<T>(agent: Agent<T>) -> Option<T> {
    match agent {
        Agent::Idle => None,
        Agent::Push { item, .. } => item,
        Agent::Pop { item, .. } => item,
    }
}

/// The world after the next access of thread `id`.
pub open spec fn step<T>(w: World<T>, id: int, luck: bool) -> World<T> {
    World {
        laps: w.laps,
        memory: perform(w.memory, action_of(w, id), item_of(w.agents[id]), luck).0,
        agents: w.agents.update(id, agent_after(w, id, luck)),
        history: history_after(w, id, luck),
    }
}

/// The position of the cursor that a thread has read and not yet claimed.
pub open spec fn unclaimed_cursor<T>(agent: Agent<T>) -> Option<int> {
    match agent {
        Agent::Idle => None,
        Agent::Push { state, pos, .. } => match state {
            PushState::LoadStamp(_)
            | PushState::ClaimTail(_)
            | PushState::CheckHead(_)
            | PushState::ClaimHead(_) => Some(pos),
            _ => None,
        },
        Agent::Pop { state, pos, .. } => match state {
            PopState::LoadStamp(_) | PopState::ClaimHead(_) | PopState::CheckTail(_) => Some(pos),
            _ => None,
        },
    }
}

/// The comparison that thread `id` is about to make does not mistake a cursor for
/// its namesake of another round: equal cursors stand for equal positions. Only a
/// thread that has slept while cursors went all the way round can be mistaken.
pub open spec fn in_step<T>(w: World<T>, id: int) -> bool {
    match w.agents[id] {
        Agent::Idle => true,
        Agent::Push { state, pos, .. } => match state {
            PushState::ClaimTail(t) => w.memory.tail == t ==> w.tail_pos() == pos,
            PushState::CheckHead(t) => w.laps.full_spec(w.memory.head, t) ==> w.history.front
                + w.laps.cap == pos,
            PushState::ClaimHead(t) => w.memory.head == w.laps.behind_spec(t)
                ==> w.history.front == pos - w.laps.cap,
            _ => true,
        },
        Agent::Pop { state, pos, .. } => match state {
            PopState::ClaimHead(h) => w.memory.head == h ==> w.history.front == pos,
            PopState::CheckTail(h) => w.memory.tail == h ==> w.tail_pos() == pos,
            _ => true,
        },
    }
}

/// A thread that begins `op`.
pub open spec fn started<T>(op: Op<T>) -> Agent<T> {
    match op {
        Op::Push(value) => Agent::Push {
            on_full: OnFull::Reject,
            value,
            item: Some(value),
            state: PushState::LoadTail,
            pos: 0,
            answer: None,
        },
        Op::ForcePush(value) => Agent::Push {
            on_full: OnFull::Overwrite,
            value,
            item: Some(value),
            state: PushState::LoadTail,
            pos: 0,
            answer: None,
        },
        Op::Pop => Agent::Pop { item: None, state: PopState::LoadHead, pos: 0, answer: None },
    }
}

/// The answer of a push that has found a free slot.
pub open spec fn stored_answer<T>(on_full: OnFull) -> Answer<T> {
    match on_full {
        OnFull::Reject => Answer::Push(Ok(())),
        OnFull::Overwrite => Answer::ForcePush(None),
    }
}

/// What a thread replies to its caller, once nothing is left to do.
pub open spec fn reply<T>(agent: Agent<T>) -> Option<Answer<T>> {
    match agent {
        Agent::Push { on_full, state: PushState::Stored, .. } => Some(stored_answer(on_full)),
        Agent::Push { item: Some(v), state: PushState::Rejected, .. } => Some(Answer::Push(Err(v))),
        Agent::Push { item, state: PushState::Replaced, .. } => Some(Answer::ForcePush(item)),
        Agent::Pop { item, state: PopState::Taken, .. } => Some(Answer::Pop(item)),
        Agent::Pop { state: PopState::Empty, .. } => Some(Answer::Pop(None)),
        _ => None,
    }
}

/// The answer that a thread owes, once its operation has taken effect.
pub open spec fn owed_answer<T>(agent: Agent<T>) -> Option<Answer<T>> {
    match agent {
        Agent::Idle => None,
        Agent::Push { answer, .. } => answer,
        Agent::Pop { answer, .. } => answer,
    }
}

/// What can happen next.
pub ghost enum Move<T> {
    /// An idle thread begins an operation.
    Call(int, Op<T>),
    /// A thread makes its next access; a compare-and-exchange may have no luck.
    Access(int, bool),
    /// A thread replies to its caller and is idle again.
    Return(int),
}

/// `m` can happen in `w`.
pub open spec fn enabled<T>(w: World<T>, m: Move<T>) -> bool {
    match m {
        Move::Call(id, _) => 0 <= id < w.agents.len() && w.agents[id] is Idle,
        Move::Access(id, _) => {
            &&& 0 <= id < w.agents.len()
            &&& !(w.agents[id] is Idle)
            &&& reply(w.agents[id]) is None
            &&& in_step(w, id)
        },
        Move::Return(id) => 0 <= id < w.agents.len() && reply(w.agents[id]) is Some,
    }
}

/// The world after `m`.
pub open spec fn moved<T>(w: World<T>, m: Move<T>) -> World<T> {
    match m {
        Move::Call(id, op) => World { agents: w.agents.update(id, started(op)), ..w },
        Move::Access(id, luck) => step(w, id, luck),
        Move::Return(id) => World { agents: w.agents.update(id, Agent::Idle), ..w },
    }
}

/// A new queue that any number of idle threads share.
pub open spec fn fresh<T>(w: World<T>) -> bool {
    &&& w.laps.wf()
    &&& w.memory.head == 0
    &&& w.memory.tail == 0
    &&& w.memory.slots == Seq::new(
        w.laps.cap as nat,
        |i: int| Slot { stamp: i as Index, value: None::<T> },
    )
    &&& forall|id: int| 0 <= id < w.agents.len() ==> #[trigger] w.agents[id] is Idle
    &&& w.history == History {
        log: Seq::<T>::empty(),
        front: 0,
        phases: Seq::new(w.laps.cap as nat, |i: int| Phase::Free(i)),
        owners: Seq::new(w.laps.cap as nat, |i: int| None),
        pending: None,
    }
}

/// The world after all of `ms`.
pub open spec fn moved_all<T>(w: World<T>, ms: Seq<Move<T>>) -> World<T>
    decreases ms.len(),
{
    if ms.len() == 0 {
        w
    } else {
        moved(moved_all(w, ms.drop_last()), ms.last())
    }
}

/// All of `ms` can happen, one after the other.
pub open spec fn enabled_all<T>(w: World<T>, ms: Seq<Move<T>>) -> bool
    decreases ms.len(),
{
    ms.len() == 0 || enabled_all(w, ms.drop_last()) && enabled(
        moved_all(w, ms.drop_last()),
        ms.last(),
    )
}

} // verus!
