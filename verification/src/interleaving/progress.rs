//! Why threads have to try again, and when they do not.

use super::always::{
    agent_inv, law_invariant, law_monotone, lemma_slot_filled, lemma_tail_pos, owned_slot, slot_inv,
    world_inv,
};
use super::linearizability::law_one_instant;
use super::world::{
    enabled, enabled_all, moved, moved_all, reply, started, step, takes_effect, Agent, Move, Phase,
    World,
};
use crate::model::Op;
use crate::protocol::{PopState, PushState};
use vstd::prelude::*;

verus! {

/// Another operation has got ahead of thread `id`: it has claimed the position of the
/// cursor, or the element that stood in the way of a push, or the position whose element
/// a pop has missed. It may have done so before thread `id` read its cursor: a forced
/// push claims its position before it advances the tail.
pub open spec fn overtaken<T>(w: World<T>, id: int) -> bool {
    match w.agents[id] {
        Agent::Idle => false,
        Agent::Push { pos, state, .. } => match state {
            PushState::CheckHead(_) | PushState::ClaimHead(_) => pos - w.laps.cap < w.history.front,
            _ => pos < w.tail_pos(),
        },
        Agent::Pop { pos, state, .. } => match state {
            PopState::CheckTail(_) => pos < w.tail_pos(),
            _ => pos < w.history.front,
        },
    }
}

/// Thread `id` is about to read the stamp of a slot that another thread owns.
pub open spec fn blocked<T>(w: World<T>, id: int) -> bool {
    let owner = match w.agents[id] {
        Agent::Push { state: PushState::LoadStamp(_), pos, .. } => w.history.owners[w.laps.slot_at(
            pos,
        )],
        Agent::Pop { state: PopState::LoadStamp(_), pos, .. } => w.history.owners[w.laps.slot_at(
            pos,
        )],
        _ => None,
    };
    owner is Some && owner != Some(id)
}

/// Thread `id` gives up its cursor and reads it anew.
pub open spec fn turns_back<T>(before: Agent<T>, after: Agent<T>) -> bool {
    match (before, after) {
        (Agent::Push { state: s, .. }, Agent::Push { state: t, .. }) => {
            ||| !(s is LoadTail) && t is LoadTail
            ||| s is ClaimTail && t is LoadStamp
        },
        (Agent::Pop { state: s, .. }, Agent::Pop { state: t, .. }) => {
            ||| !(s is LoadHead) && t is LoadHead
            ||| s is ClaimHead && t is LoadStamp
        },
        _ => false,
    }
}

/// Apart from bad luck, a thread turns back only because of others: another
/// operation has claimed what it is after, or another thread is at work on its
/// slot.
pub proof fn law_turns_back<T>(w: World<T>, id: int)
    requires
        world_inv(w),
        enabled(w, Move::Access(id, true)),
        turns_back(w.agents[id], step(w, id, true).agents[id]),
    ensures
        overtaken(w, id) || blocked(w, id),
{
    let laps = w.laps;
    assert(agent_inv(w, id));
    lemma_tail_pos(w);
    match w.agents[id] {
        Agent::Push { pos, .. } => {
            let i = laps.slot_at(pos);
            laps.lemma_cursor_parts(pos);
            assert(slot_inv(w, i));
            laps.lemma_behind(pos);
            laps.lemma_ahead(w.history.front);
            match w.history.pending {
                Some(k) => {
                    assert(agent_inv(w, k));
                },
                None => {},
            }
            if pos == w.back() && w.history.owners[i] is None {
                match w.history.phases[i] {
                    Phase::Free(p) => {
                        laps.lemma_same_slot(p, pos);
                    },
                    Phase::Filled(p) => {
                        laps.lemma_ahead(p);
                        laps.lemma_same_slot(p + laps.cap, pos);
                    },
                }
            }
        },
        Agent::Pop { pos, .. } => {
            let i = laps.slot_at(pos);
            laps.lemma_cursor_parts(pos);
            assert(slot_inv(w, i));
            let p = w.history.phases[i].position();
            if pos == w.history.front && w.history.owners[i] is None {
                laps.lemma_same_slot(p, pos);
            }
        },
        Agent::Idle => {},
    }
}

/// The world after `n` lucky accesses of thread `id`, while the others pause.
pub open spec fn alone<T>(w: World<T>, id: int, n: nat) -> World<T>
    decreases n,
{
    if n == 0 {
        w
    } else {
        step(alone(w, id, (n - 1) as nat), id, true)
    }
}

/// No thread owns a slot.
spec fn unowned<T>(w: World<T>) -> bool {
    &&& w.history.pending is None
    &&& forall|i: int| 0 <= i < w.laps.cap ==> #[trigger] w.history.owners[i] is None
}

/// Thread `id` has just read its cursor.
spec fn has_read<T>(w: World<T>, id: int) -> bool {
    match w.agents[id] {
        Agent::Push { state: PushState::LoadStamp(_), pos, .. } => pos == w.tail_pos(),
        Agent::Pop { state: PopState::LoadStamp(_), pos, .. } => pos == w.history.front,
        _ => false,
    }
}

/// The next access of thread `id`, with luck, is the one that takes effect.
spec fn has_decided<T>(w: World<T>, id: int) -> bool {
    match w.agents[id] {
        Agent::Push { state, pos, .. } => match state {
            PushState::ClaimTail(_) => pos == w.tail_pos(),
            PushState::CheckHead(_) | PushState::ClaimHead(_) => pos == w.history.front
                + w.laps.cap,
            _ => false,
        },
        Agent::Pop { state, pos, .. } => match state {
            PopState::ClaimHead(_) => pos == w.history.front,
            PopState::CheckTail(_) => pos == w.tail_pos(),
            _ => false,
        },
        Agent::Idle => false,
    }
}

/// Thread `id` has claimed a slot and not touched it yet.
spec fn has_claimed<T>(agent: Agent<T>) -> bool {
    match agent {
        Agent::Push { state, .. } => state is Write || state is AdvanceTail,
        Agent::Pop { state, .. } => state is Take,
        Agent::Idle => false,
    }
}

/// With nobody else at work on the slot, its stamp leads to a decision.
proof fn lemma_decides<T>(w: World<T>, id: int)
    requires
        world_inv(w),
        0 <= id < w.agents.len(),
        has_read(w, id),
        !blocked(w, id),
    ensures
        has_decided(step(w, id, true), id),
        step(w, id, true).history == w.history,
{
    let laps = w.laps;
    assert(agent_inv(w, id));
    lemma_tail_pos(w);
    if let Some(k) = w.history.pending {
        assert(agent_inv(w, k));
    }
    match w.agents[id] {
        Agent::Push { pos, .. } => {
            let i = laps.slot_at(pos);
            laps.lemma_cursor_parts(pos);
            assert(slot_inv(w, i));
            match w.history.phases[i] {
                Phase::Free(p) => {
                    laps.lemma_same_slot(p, pos);
                },
                Phase::Filled(p) => {
                    laps.lemma_ahead(p);
                    laps.lemma_same_slot(p + laps.cap, pos);
                    laps.lemma_cursor_parts(p);
                    laps.lemma_stamps_differ(p, pos);
                },
            }
        },
        Agent::Pop { pos, .. } => {
            let i = laps.slot_at(pos);
            laps.lemma_cursor_parts(pos);
            assert(slot_inv(w, i));
            laps.lemma_same_slot(w.history.phases[i].position(), pos);
        },
        Agent::Idle => {},
    }
}

/// A decision that nobody has interfered with is carried out.
proof fn lemma_claims<T>(w: World<T>, id: int)
    requires
        world_inv(w),
        0 <= id < w.agents.len(),
        has_decided(w, id),
    ensures
        ({
            let agent = step(w, id, true).agents[id];
            reply(agent) is Some || has_claimed(agent)
        }),
{
    let laps = w.laps;
    assert(agent_inv(w, id));
    match w.agents[id] {
        Agent::Push { pos, .. } => {
            laps.lemma_behind(pos);
            laps.lemma_ahead(w.history.front);
        },
        _ => {},
    }
}

/// A thread that has just claimed a slot is done after two or three accesses.
proof fn lemma_finishes<T>(w: World<T>, id: int)
    requires
        0 <= id < w.agents.len(),
        has_claimed(w.agents[id]),
    ensures
        ({
            let u = step(step(w, id, true), id, true);
            reply(u.agents[id]) is Some || reply(step(u, id, true).agents[id]) is Some
        }),
{
    let v = step(w, id, true);
    let u = step(v, id, true);
    match w.agents[id] {
        Agent::Push { state, .. } => {
            if state is AdvanceTail {
                assert(v.agents[id] matches Agent::Push { state: PushState::Replace(_), .. });
                assert(u.agents[id] matches Agent::Push { state: PushState::Republish(_), .. });
            } else {
                assert(v.agents[id] matches Agent::Push { state: PushState::Publish(_), .. });
            }
        },
        Agent::Pop { state, .. } => {
            assert(v.agents[id] matches Agent::Pop { state: PopState::Release(_), .. });
        },
        Agent::Idle => {},
    }
}

/// A thread that begins an operation while no other thread owns a slot, and then runs
/// alone, is done after at most six accesses. The others may have paused anywhere else.
pub proof fn law_alone<T>(w: World<T>, id: int, op: Op<T>)
    requires
        world_inv(w),
        0 <= id < w.agents.len(),
        w.agents[id] == started(op),
        forall|k: int|
            0 <= k < w.agents.len() && k != id ==> owned_slot(w.laps, #[trigger] w.agents[k]) is None,
    ensures
        exists|n: nat| n <= 6 && reply((#[trigger] alone(w, id, n)).agents[id]) is Some,
{
    let laps = w.laps;
    let cap = laps.cap as int;
    let m = Move::<T>::Access(id, true);
    let w1 = step(w, id, true);
    let w2 = step(w1, id, true);
    let w3 = step(w2, id, true);
    let w5 = step(step(w3, id, true), id, true);
    reveal_with_fuel(alone, 7);
    assert(w3 == alone(w, id, 3));
    assert(w5 == alone(w, id, 5));
    assert(step(w5, id, true) == alone(w, id, 6));
    assert(unowned(w)) by {
        assert forall|i: int| 0 <= i < cap implies #[trigger] w.history.owners[i] is None by {
            assert(slot_inv(w, i));
        }
    }
    law_invariant(w, m);
    assert(w1.history == w.history);
    assert(has_read(w1, id));
    lemma_decides(w1, id);
    law_invariant(w1, m);
    lemma_claims(w2, id);
    if reply(w3.agents[id]) is None {
        lemma_finishes(w3, id);
    }
}

/// How many accesses thread `id` can still make, with luck and without being blocked,
/// while no operation takes effect.
pub open spec fn accesses_left<T>(w: World<T>, id: int) -> int {
    let pending = w.history.pending is Some;
    match w.agents[id] {
        Agent::Idle => 5,
        Agent::Push { state, pos, .. } => match state {
            PushState::LoadTail => if pending {
                5
            } else {
                2
            },
            PushState::LoadStamp(_) => if pos == w.back() {
                1
            } else if pending && pos < w.tail_pos() {
                7
            } else {
                4
            },
            PushState::ClaimTail(_) => if pos == w.tail_pos() {
                0
            } else if pending {
                5
            } else {
                2
            },
            PushState::CheckHead(_) | PushState::ClaimHead(_) => if pos == w.history.front
                + w.laps.cap {
                0
            } else if pending {
                6
            } else {
                3
            },
            PushState::AdvanceTail(_) => 8,
            PushState::Write(_) | PushState::Replace(_) => 7,
            PushState::Publish(_) | PushState::Republish(_) => 6,
            PushState::Stored | PushState::Rejected | PushState::Replaced => 5,
        },
        Agent::Pop { state, pos, .. } => match state {
            PopState::LoadHead => 2,
            PopState::LoadStamp(_) => if pos == w.history.front {
                1
            } else {
                4
            },
            PopState::ClaimHead(_) => if pos == w.history.front {
                0
            } else {
                2
            },
            PopState::CheckTail(_) => if pos == w.tail_pos() {
                0
            } else {
                3
            },
            PopState::Take(_) => 7,
            PopState::Release(_) => 6,
            PopState::Taken | PopState::Empty => 5,
        },
    }
}

/// The sum of [`accesses_left`] over the first `n` threads.
pub open spec fn all_accesses_left<T>(w: World<T>, n: int) -> int
    decreases n,
{
    if n <= 0 {
        0
    } else {
        all_accesses_left(w, n - 1) + accesses_left(w, n - 1)
    }
}

/// How many of `ms` are accesses.
pub open spec fn accesses<T>(ms: Seq<Move<T>>) -> int
    decreases ms.len(),
{
    if ms.len() == 0 {
        0
    } else {
        accesses(ms.drop_last()) + if ms.last() is Access {
            1int
        } else {
            0
        }
    }
}

/// In none of `ms` does an operation take effect or a thread lack luck.
pub open spec fn fruitless<T>(w: World<T>, ms: Seq<Move<T>>) -> bool
    decreases ms.len(),
{
    ms.len() == 0 || fruitless(w, ms.drop_last()) && match ms.last() {
        Move::Access(id, luck) => {
            let u = moved_all(w, ms.drop_last());
            luck && !takes_effect(u, id, luck)
        },
        _ => true,
    }
}

/// In none of `ms` does a blocked thread make an access.
pub open spec fn unblocked<T>(w: World<T>, ms: Seq<Move<T>>) -> bool
    decreases ms.len(),
{
    ms.len() == 0 || unblocked(w, ms.drop_last()) && match ms.last() {
        Move::Access(id, luck) => !blocked(moved_all(w, ms.drop_last()), id),
        _ => true,
    }
}

/// A fruitless access uses up one of those that its thread has left.
proof fn lemma_access_used<T>(w: World<T>, id: int)
    requires
        world_inv(w),
        enabled(w, Move::Access(id, true)),
        !takes_effect(w, id, true),
        !blocked(w, id),
    ensures
        accesses_left(step(w, id, true), id) <= accesses_left(w, id) - 1,
{
    let laps = w.laps;
    assert(agent_inv(w, id));
    lemma_tail_pos(w);
    match w.agents[id] {
        Agent::Push { state, pos, .. } => {
            laps.lemma_cursor_parts(pos);
            laps.lemma_behind(pos);
            laps.lemma_ahead(w.history.front);
            if let Some(k) = w.history.pending {
                assert(agent_inv(w, k));
            }
            if state is LoadStamp && pos == w.tail_pos() {
                lemma_decides(w, id);
            }
        },
        Agent::Pop { state, pos, .. } => {
            laps.lemma_cursor_parts(pos);
            if state is LoadStamp && pos == w.history.front {
                lemma_decides(w, id);
            }
        },
        Agent::Idle => {},
    }
}

/// A move of thread `id` by which nothing takes effect adds to nobody's accesses.
proof fn lemma_accesses_of_others<T>(w: World<T>, m: Move<T>, id: int, k: int)
    requires
        world_inv(w),
        enabled(w, m),
        match m {
            Move::Call(i, _) => i == id,
            Move::Access(i, luck) => i == id && !takes_effect(w, id, luck),
            Move::Return(i) => i == id,
        },
        0 <= k < w.agents.len(),
        k != id,
    ensures
        accesses_left(moved(w, m), k) <= accesses_left(w, k),
{
    assert(agent_inv(w, k));
    assert(agent_inv(w, id));
    assert(moved(w, m).agents[k] == w.agents[k]);
    lemma_tail_pos(w);
    if let Some(j) = w.history.pending {
        assert(agent_inv(w, j));
    }
}

/// A sum is at most another if each of its parts is.
proof fn lemma_sum_at_most<T>(w: World<T>, v: World<T>, n: int, id: int, d: int)
    requires
        0 <= n,
        0 <= d,
        forall|k: int|
            0 <= k < n && k != id ==> #[trigger] accesses_left(v, k) <= accesses_left(w, k),
        0 <= id < n ==> accesses_left(v, id) <= accesses_left(w, id) - d,
    ensures
        0 <= id < n ==> all_accesses_left(v, n) <= all_accesses_left(w, n) - d,
        !(0 <= id < n) ==> all_accesses_left(v, n) <= all_accesses_left(w, n),
    decreases n,
{
    if n > 0 {
        lemma_sum_at_most(w, v, n - 1, id, d);
    }
}

/// What threads have left is between none and eight accesses each.
proof fn lemma_sum_bounds<T>(w: World<T>, n: int)
    requires
        0 <= n,
    ensures
        0 <= all_accesses_left(w, n) <= 8 * n,
    decreases n,
{
    if n > 0 {
        lemma_sum_bounds(w, n - 1);
    }
}

/// The accesses that have been made and those that are left are together no more than
/// were left at first.
proof fn lemma_fruitless<T>(w: World<T>, ms: Seq<Move<T>>)
    requires
        world_inv(w),
        enabled_all(w, ms),
        fruitless(w, ms),
        unblocked(w, ms),
    ensures
        moved_all(w, ms).agents.len() == w.agents.len(),
        accesses(ms) + all_accesses_left(moved_all(w, ms), w.agents.len() as int)
            <= all_accesses_left(w, w.agents.len() as int),
    decreases ms.len(),
{
    if ms.len() > 0 {
        let most = ms.drop_last();
        let m = ms.last();
        lemma_fruitless(w, most);
        law_monotone(w, most);
        let u = moved_all(w, most);
        let v = moved(u, m);
        let n = w.agents.len() as int;
        let id = match m {
            Move::Call(i, _) => i,
            Move::Access(i, _) => i,
            Move::Return(i) => i,
        };
        assert forall|k: int| 0 <= k < n && k != id implies #[trigger] accesses_left(v, k)
            <= accesses_left(u, k) by {
            lemma_accesses_of_others(u, m, id, k);
        }
        match m {
            Move::Access(_, _) => {
                lemma_access_used(u, id);
                lemma_sum_at_most(u, v, n, id, 1);
            },
            _ => {
                assert(agent_inv(u, id));
                lemma_sum_at_most(u, v, n, id, 0);
            },
        }
    }
}

/// Together, threads make progress: among any eight accesses per thread, and one more,
/// there is one at which an operation takes effect, or a compare-and-exchange that fails
/// without reason, or a thread that reads the stamp of a slot on which another thread is
/// at work. Threads may begin and end operations meanwhile.
pub proof fn law_progress<T>(w: World<T>, ms: Seq<Move<T>>)
    requires
        world_inv(w),
        enabled_all(w, ms),
        fruitless(w, ms),
        unblocked(w, ms),
    ensures
        accesses(ms) <= 8 * w.agents.len(),
{
    lemma_fruitless(w, ms);
    lemma_sum_bounds(w, w.agents.len() as int);
    lemma_sum_bounds(moved_all(w, ms), w.agents.len() as int);
}

/// Without an effect, no thread comes to own a slot.
proof fn lemma_stays_unowned<T>(w: World<T>, ms: Seq<Move<T>>)
    requires
        world_inv(w),
        enabled_all(w, ms),
        fruitless(w, ms),
        unowned(w),
    ensures
        unowned(moved_all(w, ms)),
        unblocked(w, ms),
    decreases ms.len(),
{
    if ms.len() > 0 {
        let most = ms.drop_last();
        lemma_stays_unowned(w, most);
        law_monotone(w, most);
        let u = moved_all(w, most);
        assert(forall|id: int| 0 <= id < u.agents.len() ==> #[trigger] agent_inv(u, id));
        match ms.last() {
            Move::Access(id, _) => {
                assert(agent_inv(u, id));
                match u.agents[id] {
                    Agent::Push { pos, .. } => {
                        u.laps.lemma_cursor_parts(pos);
                    },
                    Agent::Pop { pos, .. } => {
                        u.laps.lemma_cursor_parts(pos);
                    },
                    Agent::Idle => {},
                }
            },
            _ => {},
        }
    }
}

/// Threads that have stopped without owning a slot hold nobody up: once no thread owns a
/// slot, among any eight accesses per thread, and one more, there is one at which an
/// operation takes effect, or a compare-and-exchange that fails without reason, whichever
/// threads make the accesses.
pub proof fn law_stopped_threads<T>(w: World<T>, ms: Seq<Move<T>>)
    requires
        world_inv(w),
        enabled_all(w, ms),
        forall|k: int|
            0 <= k < w.agents.len() ==> owned_slot(w.laps, #[trigger] w.agents[k]) is None,
        fruitless(w, ms),
    ensures
        accesses(ms) <= 8 * w.agents.len(),
{
    assert(unowned(w)) by {
        assert forall|i: int| 0 <= i < w.laps.cap implies #[trigger] w.history.owners[i] is None by {
            assert(slot_inv(w, i));
        }
    }
    lemma_stays_unowned(w, ms);
    law_progress(w, ms);
}

/// While a thread owns the slot of the oldest element, which it has claimed and not yet
/// filled, no pop takes effect: consumers wait for it.
pub proof fn law_pop_waits<T>(w: World<T>, id: int, luck: bool)
    requires
        world_inv(w),
        enabled(w, Move::Access(id, luck)),
        w.contents().len() > 0,
        w.history.owners[w.laps.slot_at(w.history.front)] is Some,
    ensures
        w.agents[id] is Pop ==> !takes_effect(w, id, luck),
{
    assert(agent_inv(w, id));
    if w.agents[id] is Pop && takes_effect(w, id, luck) {
        law_one_instant(w, Move::Access(id, luck));
        lemma_slot_filled(w);
    }
}

} // verus!
