//! What holds of a shared queue at every instant.

use super::world::{
    enabled, enabled_all, fresh, in_step, moved, moved_all, step, stored_answer, takes_effect,
    unclaimed_cursor, Agent, Answer, Move, Phase, World,
};
use crate::lap::Laps;
use crate::protocol::{OnFull, PopState, PushState};
use vstd::prelude::*;

verus! {

/// The slot that thread `agent` owns, if it owns one.
pub open spec fn owned_slot<T>(laps: Laps, agent: Agent<T>) -> Option<int> {
    match agent {
        Agent::Push { state, pos, .. } => match state {
            PushState::Write(_)
            | PushState::Publish(_)
            | PushState::AdvanceTail(_)
            | PushState::Replace(_)
            | PushState::Republish(_) => Some(laps.slot_at(pos)),
            _ => None,
        },
        Agent::Pop { state, pos, .. } => match state {
            PopState::Take(_) | PopState::Release(_) => Some(laps.slot_at(pos)),
            _ => None,
        },
        Agent::Idle => None,
    }
}

/// Slot `i` is what its stamp and its owner say.
pub open spec fn slot_inv<T>(w: World<T>, i: int) -> bool {
    let slot = w.memory.slots[i];
    let phase = w.history.phases[i];
    &&& slot.stamp == phase.stamp(w.laps)
    &&& phase.position() >= 0
    &&& w.laps.slot_at(phase.position()) == i
    &&& match w.history.owners[i] {
        None => match phase {
            Phase::Free(p) => {
                &&& w.back() <= p < w.history.front + w.laps.cap
                &&& slot.value is None
            },
            Phase::Filled(p) => {
                &&& w.history.front <= p < w.back()
                &&& slot.value == Some(w.history.log[p])
            },
        },
        Some(id) => {
            &&& 0 <= id < w.agents.len()
            &&& owned_slot(w.laps, w.agents[id]) == Some(i)
        },
    }
}

/// A push is where its state says.
pub open spec fn push_inv<T>(
    w: World<T>,
    id: int,
    on_full: OnFull,
    value: T,
    item: Option<T>,
    state: PushState,
    pos: int,
    answer: Option<Answer<T>>,
) -> bool {
    let i = w.laps.slot_at(pos);
    let cap = w.laps.cap as int;
    let slot = w.memory.slots[i];
    let phase = w.history.phases[i];
    let owned = w.history.owners[i] == Some(id);
    let claimed = 0 <= w.history.front <= pos < w.back() && w.history.log[pos] == value;
    let evicts = pos >= cap && answer == Some(
        Answer::ForcePush(Some(w.history.log[pos - cap])),
    );
    match state {
        PushState::LoadTail => {
            &&& answer is None
            &&& item == Some(value)
        },
        PushState::LoadStamp(t) => {
            &&& answer is None
            &&& item == Some(value)
            &&& t == w.laps.cursor_at(pos)
            &&& 0 <= pos <= w.tail_pos()
        },
        PushState::ClaimTail(t) => {
            &&& answer is None
            &&& item == Some(value)
            &&& t == w.laps.cursor_at(pos)
            &&& 0 <= pos <= w.tail_pos()
            &&& phase.rank() >= 2 * pos
        },
        PushState::CheckHead(t) => {
            &&& answer is None
            &&& item == Some(value)
            &&& t == w.laps.cursor_at(pos)
            &&& 0 <= pos <= w.tail_pos()
            &&& on_full is Reject
        },
        PushState::ClaimHead(t) => {
            &&& answer is None
            &&& item == Some(value)
            &&& t == w.laps.cursor_at(pos)
            &&& 0 <= pos <= w.tail_pos()
            &&& phase.rank() >= 2 * (pos - cap) + 1
            &&& on_full is Overwrite
        },
        PushState::Write(t) => {
            &&& t == w.laps.cursor_at(pos)
            &&& claimed
            &&& owned
            &&& phase == Phase::Free(pos)
            &&& slot.value is None
            &&& item == Some(value)
            &&& answer == Some(stored_answer::<T>(on_full))
        },
        PushState::Publish(t) => {
            &&& t == w.laps.cursor_at(pos)
            &&& claimed
            &&& owned
            &&& phase == Phase::Free(pos)
            &&& slot.value == Some(value)
            &&& item is None
            &&& answer == Some(stored_answer::<T>(on_full))
        },
        PushState::AdvanceTail(t) => {
            &&& t == w.laps.cursor_at(pos)
            &&& claimed
            &&& owned
            &&& w.history.pending == Some(id)
            &&& pos == w.back() - 1
            &&& phase == Phase::Filled(pos - cap)
            &&& slot.value == Some(w.history.log[pos - cap])
            &&& item == Some(value)
            &&& evicts
            &&& on_full is Overwrite
        },
        PushState::Replace(t) => {
            &&& t == w.laps.cursor_at(pos)
            &&& claimed
            &&& owned
            &&& phase == Phase::Filled(pos - cap)
            &&& slot.value == Some(w.history.log[pos - cap])
            &&& item == Some(value)
            &&& evicts
            &&& on_full is Overwrite
        },
        PushState::Republish(t) => {
            &&& t == w.laps.cursor_at(pos)
            &&& claimed
            &&& owned
            &&& phase == Phase::Filled(pos - cap)
            &&& slot.value == Some(value)
            &&& item == Some(w.history.log[pos - cap])
            &&& evicts
            &&& on_full is Overwrite
        },
        PushState::Stored => {
            &&& item is None
            &&& answer == Some(stored_answer::<T>(on_full))
        },
        PushState::Rejected => {
            &&& on_full is Reject
            &&& item == Some(value)
            &&& answer == Some(Answer::Push(Err(value)))
        },
        PushState::Replaced => {
            &&& on_full is Overwrite
            &&& item is Some
            &&& answer == Some(Answer::ForcePush(item))
        },
    }
}

/// A pop is where its state says.
pub open spec fn pop_inv<T>(
    w: World<T>,
    id: int,
    item: Option<T>,
    state: PopState,
    pos: int,
    answer: Option<Answer<T>>,
) -> bool {
    let i = w.laps.slot_at(pos);
    let cap = w.laps.cap as int;
    let slot = w.memory.slots[i];
    let phase = w.history.phases[i];
    let owned = w.history.owners[i] == Some(id);
    let claimed = 0 <= pos < w.history.front && w.back() <= pos + cap;
    let owed = answer == Some(Answer::Pop(Some(w.history.log[pos])));
    match state {
        PopState::LoadHead => {
            &&& answer is None
            &&& item is None
        },
        PopState::LoadStamp(h) => {
            &&& answer is None
            &&& item is None
            &&& h == w.laps.cursor_at(pos)
            &&& 0 <= pos <= w.history.front
        },
        PopState::ClaimHead(h) => {
            &&& answer is None
            &&& item is None
            &&& h == w.laps.cursor_at(pos)
            &&& 0 <= pos <= w.history.front
            &&& phase.rank() >= 2 * pos + 1
        },
        PopState::CheckTail(h) => {
            &&& answer is None
            &&& item is None
            &&& h == w.laps.cursor_at(pos)
            &&& 0 <= pos <= w.history.front
            &&& phase.rank() >= 2 * pos
        },
        PopState::Take(h) => {
            &&& h == w.laps.cursor_at(pos)
            &&& claimed
            &&& owned
            &&& phase == Phase::Filled(pos)
            &&& slot.value == Some(w.history.log[pos])
            &&& item is None
            &&& owed
        },
        PopState::Release(h) => {
            &&& h == w.laps.cursor_at(pos)
            &&& claimed
            &&& owned
            &&& phase == Phase::Filled(pos)
            &&& slot.value is None
            &&& item == Some(w.history.log[pos])
            &&& owed
        },
        PopState::Taken => {
            &&& item is Some
            &&& answer == Some(Answer::Pop(item))
        },
        PopState::Empty => {
            &&& item is None
            &&& answer == Some(Answer::Pop(None::<T>))
        },
    }
}

/// Thread `id` is where its state says.
pub open spec fn agent_inv<T>(w: World<T>, id: int) -> bool {
    match w.agents[id] {
        Agent::Idle => true,
        Agent::Push { on_full, value, item, state, pos, answer } => push_inv(
            w,
            id,
            on_full,
            value,
            item,
            state,
            pos,
            answer,
        ),
        Agent::Pop { item, state, pos, answer } => pop_inv(w, id, item, state, pos, answer),
    }
}

/// What holds of the world at every instant.
pub open spec fn world_inv<T>(w: World<T>) -> bool {
    &&& w.laps.wf()
    &&& w.memory.slots.len() == w.laps.cap
    &&& w.history.phases.len() == w.laps.cap
    &&& w.history.owners.len() == w.laps.cap
    &&& 0 <= w.history.front <= w.back() <= w.history.front + w.laps.cap
    &&& w.memory.head == w.laps.cursor_at(w.history.front)
    &&& w.memory.tail == w.laps.cursor_at(w.tail_pos())
    &&& match w.history.pending {
        Some(id) => 0 <= id < w.agents.len() && (w.agents[id] matches Agent::Push {
            state: PushState::AdvanceTail(_),
            ..
        }),
        None => true,
    }
    &&& forall|i: int| 0 <= i < w.laps.cap ==> #[trigger] slot_inv(w, i)
    &&& forall|id: int| 0 <= id < w.agents.len() ==> #[trigger] agent_inv(w, id)
}

/// `v` follows from `w` by an access of thread `id` that leaves alone what the
/// other threads rely on.
spec fn undisturbed<T>(w: World<T>, v: World<T>, id: int) -> bool {
    &&& v.laps == w.laps
    &&& v.agents.len() == w.agents.len()
    &&& v.history.phases.len() == w.laps.cap
    &&& w.history.log.is_prefix_of(v.history.log)
    &&& w.tail_pos() <= v.tail_pos()
    &&& forall|k: int| 0 <= k < w.agents.len() && k != id ==> v.agents[k] == #[trigger] w.agents[k]
    &&& forall|i: int|
        0 <= i < w.laps.cap ==> (#[trigger] v.history.phases[i]).rank()
            >= w.history.phases[i].rank()
    &&& forall|i: int|
        0 <= i < w.laps.cap && #[trigger] w.history.owners[i] is Some && w.history.owners[i] != Some(
            id,
        ) ==> {
            &&& v.history.owners[i] == w.history.owners[i]
            &&& v.history.phases[i] == w.history.phases[i]
            &&& v.memory.slots[i] == w.memory.slots[i]
        }
    &&& v.history.front == w.history.front || v.history.front == w.history.front + 1
        && w.history.owners[w.laps.slot_at(w.history.front)] is None
    &&& v.back() == w.back() || v.back() == w.back() + 1 && w.history.owners[w.laps.slot_at(
        w.back(),
    )] is None
    &&& w.history.pending is Some && w.history.pending != Some(id) ==> v.history.pending == w.history.pending
        && v.back() == w.back()
}

/// A thread that is left alone stays where its state says.
proof fn lemma_undisturbed<T>(w: World<T>, v: World<T>, id: int, k: int)
    requires
        world_inv(w),
        undisturbed(w, v, id),
        0 <= k < w.agents.len(),
        k != id,
    ensures
        agent_inv(v, k),
{
    assert(agent_inv(w, k));
    assert(v.agents[k] == w.agents[k]);
    match w.agents[k] {
        Agent::Idle => {},
        Agent::Push { pos, .. } => {
            w.laps.lemma_cursor_parts(pos);
            w.laps.lemma_cursor_parts(w.history.front);
            w.laps.lemma_cursor_parts(w.back());
            let i = w.laps.slot_at(pos);
            assert(v.history.phases[i].rank() >= w.history.phases[i].rank());
        },
        Agent::Pop { pos, .. } => {
            w.laps.lemma_cursor_parts(pos);
            w.laps.lemma_cursor_parts(w.history.front);
            w.laps.lemma_cursor_parts(w.back());
            w.laps.lemma_ahead(pos);
            let i = w.laps.slot_at(pos);
            assert(v.history.phases[i].rank() >= w.history.phases[i].rank());
        },
    }
}

/// Slots other than `touched` stay what their stamps and owners say.
proof fn lemma_other_slots<T>(w: World<T>, v: World<T>, id: int, touched: int)
    requires
        world_inv(w),
        0 <= id < w.agents.len(),
        v.laps == w.laps,
        w.history.log.is_prefix_of(v.history.log),
        v.agents.len() == w.agents.len(),
        forall|k: int|
            0 <= k < w.agents.len() && k != id ==> v.agents[k] == #[trigger] w.agents[k],
        forall|i: int|
            0 <= i < w.laps.cap && i != touched ==> {
                &&& #[trigger] v.memory.slots[i] == w.memory.slots[i]
                &&& v.history.phases[i] == w.history.phases[i]
                &&& v.history.owners[i] == w.history.owners[i]
            },
        owned_slot(w.laps, w.agents[id]) is None || owned_slot(w.laps, w.agents[id]) == Some(
            touched,
        ),
        v.history.front == w.history.front || v.history.front == w.history.front + 1
            && w.laps.slot_at(w.history.front) == touched,
        v.back() == w.back() || v.back() == w.back() + 1 && w.laps.slot_at(w.back()) == touched,
    ensures
        forall|i: int| 0 <= i < w.laps.cap && i != touched ==> #[trigger] slot_inv(v, i),
{
    assert forall|i: int| 0 <= i < w.laps.cap && i != touched implies #[trigger] slot_inv(v, i) by {
        assert(slot_inv(w, i));
        assert(v.memory.slots[i] == w.memory.slots[i]);
    }
}

/// Each thread stays where its state says if thread `id` does and leaves the
/// others alone.
proof fn lemma_agents<T>(w: World<T>, v: World<T>, id: int)
    requires
        world_inv(w),
        undisturbed(w, v, id),
        0 <= id < w.agents.len(),
        agent_inv(v, id),
    ensures
        forall|k: int| 0 <= k < v.agents.len() ==> #[trigger] agent_inv(v, k),
{
    assert forall|k: int| 0 <= k < v.agents.len() implies #[trigger] agent_inv(v, k) by {
        if k != id {
            lemma_undisturbed(w, v, id, k);
        }
    }
}

/// If the slot of position `back` has been seen free for it, it still is, and
/// nobody owns it.
pub(crate) proof fn lemma_slot_free<T>(w: World<T>)
    requires
        world_inv(w),
        w.history.phases[w.laps.slot_at(w.back())].rank() >= 2 * w.back(),
    ensures
        ({
            let i = w.laps.slot_at(w.back());
            &&& w.history.owners[i] is None
            &&& w.history.phases[i] == Phase::Free(w.back())
            &&& w.memory.slots[i].value is None
            &&& w.back() < w.history.front + w.laps.cap
        }),
{
    let i = w.laps.slot_at(w.back());
    w.laps.lemma_cursor_parts(w.back());
    assert(slot_inv(w, i));
    match w.history.owners[i] {
        Some(k) => {
            assert(agent_inv(w, k));
        },
        None => {
            w.laps.lemma_same_slot(w.history.phases[i].position(), w.back());
        },
    }
}

/// If the slot of position `front` has been seen filled, it still is, and nobody
/// owns it.
pub(crate) proof fn lemma_slot_filled<T>(w: World<T>)
    requires
        world_inv(w),
        w.history.phases[w.laps.slot_at(w.history.front)].rank() >= 2 * w.history.front + 1,
    ensures
        ({
            let i = w.laps.slot_at(w.history.front);
            &&& w.history.owners[i] is None
            &&& w.history.phases[i] == Phase::Filled(w.history.front)
            &&& w.memory.slots[i].value == Some(w.history.log[w.history.front])
            &&& w.history.front < w.back()
        }),
{
    let i = w.laps.slot_at(w.history.front);
    w.laps.lemma_cursor_parts(w.history.front);
    assert(slot_inv(w, i));
    match w.history.owners[i] {
        Some(k) => {
            assert(agent_inv(w, k));
            match w.agents[k] {
                Agent::Push { pos, .. } => {
                    if w.history.front <= pos < w.history.front + w.laps.cap {
                        w.laps.lemma_same_slot(pos, w.history.front);
                    }
                },
                _ => {},
            }
        },
        None => {
            let p = w.history.phases[i].position();
            if w.history.front <= p < w.history.front + w.laps.cap {
                w.laps.lemma_same_slot(p, w.history.front);
            }
        },
    }
}

/// Positions of slots stay within a buffer's length of the front.
proof fn lemma_slot_near<T>(w: World<T>, i: int)
    requires
        world_inv(w),
        0 <= i < w.laps.cap,
    ensures
        w.history.front - w.laps.cap <= w.history.phases[i].position() < w.history.front
            + w.laps.cap,
{
    assert(slot_inv(w, i));
    match w.history.owners[i] {
        Some(k) => {
            assert(agent_inv(w, k));
        },
        None => {},
    }
}

/// The tail is not behind the front.
pub(crate) proof fn lemma_tail_pos<T>(w: World<T>)
    requires
        world_inv(w),
    ensures
        w.history.front <= w.tail_pos(),
{
    match w.history.pending {
        Some(k) => {
            assert(agent_inv(w, k));
        },
        None => {},
    }
}

/// What a stamp tells a producer at position `pos`.
proof fn lemma_push_reads<T>(w: World<T>, pos: int)
    requires
        world_inv(w),
        0 <= pos <= w.tail_pos(),
    ensures
        ({
            let i = w.laps.slot_at(pos);
            let step = w.laps.push_step_spec(w.laps.cursor_at(pos), w.memory.slots[i].stamp);
            let rank = w.history.phases[i].rank();
            &&& step is Claim ==> rank >= 2 * pos
            &&& step is CheckHead ==> rank >= 2 * (pos - w.laps.cap) + 1
        }),
{
    let laps = w.laps;
    let i = laps.slot_at(pos);
    laps.lemma_cursor_parts(pos);
    laps.lemma_round();
    assert(slot_inv(w, i));
    lemma_slot_near(w, i);
    match w.history.phases[i] {
        Phase::Free(q) => {
            laps.lemma_cursor_parts(q);
            laps.lemma_ahead(q);
            if q < pos && laps.cursor_at(q) == laps.cursor_at(pos) {
                laps.lemma_distinct(q, pos);
            }
            laps.lemma_stamps_differ(pos, q + laps.cap);
        },
        Phase::Filled(q) => {
            laps.lemma_cursor_parts(q);
            laps.lemma_ahead(q);
            laps.lemma_stamps_differ(q, pos);
            if q + laps.cap < pos && laps.cursor_at(q + laps.cap) == laps.cursor_at(pos) {
                laps.lemma_distinct(q + laps.cap, pos);
            }
        },
    }
}

/// What a stamp tells a consumer at position `pos`.
proof fn lemma_pop_reads<T>(w: World<T>, pos: int)
    requires
        world_inv(w),
        0 <= pos <= w.history.front,
    ensures
        ({
            let i = w.laps.slot_at(pos);
            let step = w.laps.pop_step_spec(w.laps.cursor_at(pos), w.memory.slots[i].stamp);
            let rank = w.history.phases[i].rank();
            &&& step is Claim ==> rank >= 2 * pos + 1
            &&& step is CheckTail ==> rank >= 2 * pos
        }),
{
    let laps = w.laps;
    let i = laps.slot_at(pos);
    laps.lemma_cursor_parts(pos);
    laps.lemma_round();
    assert(slot_inv(w, i));
    lemma_slot_near(w, i);
    let q = w.history.phases[i].position();
    laps.lemma_cursor_parts(q);
    laps.lemma_stamps_differ(pos, q);
    laps.lemma_stamps_differ(q, pos);
    if q < pos && laps.cursor_at(q) == laps.cursor_at(pos) {
        laps.lemma_distinct(q, pos);
    }
}

/// An access of a push keeps the invariant.
proof fn lemma_push_step<T>(w: World<T>, id: int, luck: bool)
    requires
        world_inv(w),
        0 <= id < w.agents.len(),
        w.agents[id] is Push,
        in_step(w, id),
    ensures
        world_inv(step(w, id, luck)),
{
    let v = step(w, id, luck);
    let laps = w.laps;
    let cap = laps.cap as int;
    assert(agent_inv(w, id));
    if let Agent::Push { on_full, value, item, state, pos, answer } = w.agents[id] {
        let i = laps.slot_at(pos);
        laps.lemma_cursor_parts(pos);
        laps.lemma_cursor_parts(w.tail_pos());
        laps.lemma_lap_count();
        assert(slot_inv(w, i));
        match state {
            PushState::LoadTail => {
                lemma_tail_pos(w);
                lemma_other_slots(w, v, id, -1);
                lemma_agents(w, v, id);
            },
            PushState::LoadStamp(t) => {
                lemma_push_reads(w, pos);
                lemma_other_slots(w, v, id, -1);
                lemma_agents(w, v, id);
            },
            PushState::ClaimTail(t) => {
                if takes_effect(w, id, luck) {
                    if let Some(k) = w.history.pending {
                        assert(agent_inv(w, k));
                        assert(false);
                    }
                    lemma_slot_free(w);
                    laps.lemma_next(pos);
                    assert(w.contents().len() == w.back() - w.history.front);
                    lemma_other_slots(w, v, id, i);
                    assert(slot_inv(v, i));
                    lemma_agents(w, v, id);
                } else {
                    lemma_other_slots(w, v, id, -1);
                    lemma_agents(w, v, id);
                }
            },
            PushState::Write(t) => {
                lemma_other_slots(w, v, id, i);
                assert(slot_inv(v, i));
                lemma_agents(w, v, id);
            },
            PushState::Publish(t) => {
                lemma_other_slots(w, v, id, i);
                assert(slot_inv(v, i));
                lemma_agents(w, v, id);
            },
            PushState::CheckHead(t) => {
                if takes_effect(w, id, luck) {
                    laps.lemma_ahead(w.history.front);
                    assert(w.contents().len() == cap);
                }
                lemma_other_slots(w, v, id, -1);
                lemma_agents(w, v, id);
            },
            PushState::ClaimHead(t) => {
                if takes_effect(w, id, luck) {
                    laps.lemma_behind(pos);
                    laps.lemma_next(pos);
                    laps.lemma_behind(pos + 1);
                    laps.lemma_ahead(w.history.front);
                    lemma_slot_filled(w);
                    assert(w.contents().len() == cap);
                    assert(w.contents()[0] == w.history.log[pos - cap]);
                    lemma_other_slots(w, v, id, i);
                    assert(slot_inv(v, i));
                    lemma_agents(w, v, id);
                } else {
                    lemma_other_slots(w, v, id, -1);
                    lemma_agents(w, v, id);
                }
            },
            PushState::AdvanceTail(t) => {
                laps.lemma_next(pos);
                lemma_other_slots(w, v, id, i);
                assert(slot_inv(v, i));
                lemma_agents(w, v, id);
            },
            PushState::Replace(t) => {
                lemma_other_slots(w, v, id, i);
                assert(slot_inv(v, i));
                lemma_agents(w, v, id);
            },
            PushState::Republish(t) => {
                lemma_other_slots(w, v, id, i);
                assert(slot_inv(v, i));
                lemma_agents(w, v, id);
            },
            PushState::Stored | PushState::Rejected | PushState::Replaced => {
                lemma_other_slots(w, v, id, -1);
                lemma_agents(w, v, id);
            },
        }
    }
}

/// An access of a pop keeps the invariant.
proof fn lemma_pop_step<T>(w: World<T>, id: int, luck: bool)
    requires
        world_inv(w),
        0 <= id < w.agents.len(),
        w.agents[id] is Pop,
        in_step(w, id),
    ensures
        world_inv(step(w, id, luck)),
{
    let v = step(w, id, luck);
    let laps = w.laps;
    let cap = laps.cap as int;
    assert(agent_inv(w, id));
    if let Agent::Pop { item, state, pos, answer } = w.agents[id] {
        let i = laps.slot_at(pos);
        laps.lemma_cursor_parts(pos);
        laps.lemma_lap_count();
        assert(slot_inv(w, i));
        match state {
            PopState::LoadHead => {
                lemma_other_slots(w, v, id, -1);
                lemma_agents(w, v, id);
            },
            PopState::LoadStamp(h) => {
                lemma_pop_reads(w, pos);
                lemma_other_slots(w, v, id, -1);
                lemma_agents(w, v, id);
            },
            PopState::ClaimHead(h) => {
                if takes_effect(w, id, luck) {
                    lemma_slot_filled(w);
                    laps.lemma_next(pos);
                    assert(w.contents().len() == w.back() - w.history.front);
                    assert(w.contents()[0] == w.history.log[pos]);
                    lemma_other_slots(w, v, id, i);
                    assert(slot_inv(v, i));
                    lemma_agents(w, v, id);
                } else {
                    lemma_other_slots(w, v, id, -1);
                    lemma_agents(w, v, id);
                }
            },
            PopState::Take(h) => {
                lemma_other_slots(w, v, id, i);
                assert(slot_inv(v, i));
                lemma_agents(w, v, id);
            },
            PopState::Release(h) => {
                laps.lemma_ahead(pos);
                lemma_other_slots(w, v, id, i);
                assert(slot_inv(v, i));
                lemma_agents(w, v, id);
            },
            PopState::CheckTail(h) => {
                if takes_effect(w, id, luck) {
                    lemma_tail_pos(w);
                    if let Some(k) = w.history.pending {
                        assert(agent_inv(w, k));
                        assert(false);
                    }
                    assert(w.contents().len() == 0);
                }
                lemma_other_slots(w, v, id, -1);
                lemma_agents(w, v, id);
            },
            PopState::Taken | PopState::Empty => {
                lemma_other_slots(w, v, id, -1);
                lemma_agents(w, v, id);
            },
        }
    }
}

/// The invariant holds of a new queue.
pub proof fn law_fresh<T>(w: World<T>)
    requires
        fresh(w),
    ensures
        world_inv(w),
        w.contents() == Seq::<T>::empty(),
{
    assert forall|i: int| 0 <= i < w.laps.cap implies #[trigger] slot_inv(w, i) by {
        w.laps.lemma_first_lap(i);
    }
    w.laps.lemma_first_lap(0);
    assert forall|id: int| 0 <= id < w.agents.len() implies #[trigger] agent_inv(w, id) by {
        assert(w.agents[id] is Idle);
    }
    assert(w.contents() =~= Seq::<T>::empty());
}

/// Whatever happens next, the invariant is kept.
pub proof fn law_invariant<T>(w: World<T>, m: Move<T>)
    requires
        world_inv(w),
        enabled(w, m),
    ensures
        world_inv(moved(w, m)),
{
    let v = moved(w, m);
    match m {
        Move::Call(id, _) => {
            lemma_other_slots(w, v, id, -1);
            lemma_agents(w, v, id);
        },
        Move::Access(id, luck) => match w.agents[id] {
            Agent::Push { .. } => {
                lemma_push_step(w, id, luck);
            },
            Agent::Pop { .. } => {
                lemma_pop_step(w, id, luck);
            },
            Agent::Idle => {},
        },
        Move::Return(id) => {
            assert(agent_inv(w, id));
            lemma_other_slots(w, v, id, -1);
            lemma_agents(w, v, id);
        },
    }
}

/// A thread is in step if fewer positions than a round of cursors has, less one
/// buffer's worth, have been claimed since it read the cursor that it works with.
pub proof fn law_in_step<T>(w: World<T>, id: int)
    requires
        world_inv(w),
        0 <= id < w.agents.len(),
        unclaimed_cursor(w.agents[id]) matches Some(pos) ==> w.back() - pos < w.laps.cap
            * w.laps.lap_count() - w.laps.cap,
    ensures
        in_step(w, id),
{
    let laps = w.laps;
    let cap = laps.cap as int;
    laps.lemma_round();
    assert(agent_inv(w, id));
    lemma_tail_pos(w);
    laps.lemma_ahead(w.history.front);
    match w.agents[id] {
        Agent::Push { state, pos, .. } => {
            laps.lemma_behind(pos);
            if state is ClaimTail && w.memory.tail == laps.cursor_at(pos) {
                laps.lemma_distinct(w.tail_pos(), pos);
            }
            if state is CheckHead && laps.cursor_at(w.history.front + cap) == laps.cursor_at(pos) {
                laps.lemma_distinct(w.history.front + cap, pos);
            }
            if state is ClaimHead && w.memory.head == laps.cursor_at(pos - cap) {
                laps.lemma_distinct(w.history.front, pos - cap);
            }
        },
        Agent::Pop { state, pos, .. } => {
            if state is ClaimHead && w.memory.head == laps.cursor_at(pos) {
                laps.lemma_distinct(w.history.front, pos);
            }
            if state is CheckTail && w.memory.tail == laps.cursor_at(pos) {
                laps.lemma_distinct(w.tail_pos(), pos);
            }
        },
        Agent::Idle => {},
    }
}

/// The invariant is kept over any number of moves, and neither end of the queue
/// ever moves back.
pub proof fn law_monotone<T>(w: World<T>, ms: Seq<Move<T>>)
    requires
        world_inv(w),
        enabled_all(w, ms),
    ensures
        world_inv(moved_all(w, ms)),
        moved_all(w, ms).laps == w.laps,
        w.history.front <= moved_all(w, ms).history.front,
        w.tail_pos() <= moved_all(w, ms).tail_pos(),
        w.back() <= moved_all(w, ms).back(),
    decreases ms.len(),
{
    if ms.len() > 0 {
        law_monotone(w, ms.drop_last());
        law_invariant(moved_all(w, ms.drop_last()), ms.last());
    }
}

} // verus!
