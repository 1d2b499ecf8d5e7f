//! What threads find in the memory that they share.

use super::always::{
    agent_inv, law_monotone, lemma_tail_pos, owned_slot, slot_inv, world_inv,
};
use super::linearizability::law_one_instant;
use super::world::{action_of, enabled_all, item_of, moved_all, Agent, Move, World};
use crate::protocol::Action;
use crate::ring::{elements, resting};
use vstd::prelude::*;

verus! {

/// The slot whose element an access moves.
pub open spec fn payload_access(action: Action) -> Option<int> {
    match action {
        Action::Write(i) | Action::Take(i) | Action::Replace(i) => Some(i as int),
        _ => None,
    }
}

/// A thread moves the element of the slot that it owns.
proof fn lemma_payload_slot<T>(w: World<T>, id: int)
    requires
        world_inv(w),
        0 <= id < w.agents.len(),
        payload_access(action_of(w, id)) is Some,
    ensures
        payload_access(action_of(w, id)) == owned_slot(w.laps, w.agents[id]),
        0 <= payload_access(action_of(w, id))->0 < w.laps.cap,
        w.history.owners[payload_access(action_of(w, id))->0] == Some(id),
{
    assert(agent_inv(w, id));
    match w.agents[id] {
        Agent::Push { pos, .. } => {
            w.laps.lemma_cursor_parts(pos);
        },
        Agent::Pop { pos, .. } => {
            w.laps.lemma_cursor_parts(pos);
        },
        Agent::Idle => {},
    }
}

/// While a thread moves an element into a slot or out of it, no other thread does
/// so: there are no data races on elements.
pub proof fn law_exclusive<T>(w: World<T>, a: int, b: int)
    requires
        world_inv(w),
        0 <= a < w.agents.len(),
        0 <= b < w.agents.len(),
        a != b,
        payload_access(action_of(w, a)) is Some,
    ensures
        payload_access(action_of(w, a)) != payload_access(action_of(w, b)),
{
    assert(agent_inv(w, a));
    assert(agent_inv(w, b));
    lemma_payload_slot(w, a);
    if payload_access(action_of(w, b)) is Some {
        lemma_payload_slot(w, b);
    }
}

/// An element is written only where there is none, and read only where there is
/// one: nothing is overwritten, and nothing is read that has not been written.
pub proof fn law_payload_ready<T>(w: World<T>, id: int)
    requires
        world_inv(w),
        0 <= id < w.agents.len(),
    ensures
        match action_of(w, id) {
            Action::Write(i) => {
                &&& i < w.laps.cap
                &&& w.memory.slots[i as int].value is None
                &&& item_of(w.agents[id]) is Some
            },
            Action::Take(i) => {
                &&& i < w.laps.cap
                &&& w.memory.slots[i as int].value is Some
                &&& item_of(w.agents[id]) is None
            },
            Action::Replace(i) => {
                &&& i < w.laps.cap
                &&& w.memory.slots[i as int].value is Some
                &&& item_of(w.agents[id]) is Some
            },
            Action::LoadStamp(i) | Action::StoreStamp(i, _) => i < w.laps.cap,
            _ => true,
        },
{
    assert(agent_inv(w, id));
    match w.agents[id] {
        Agent::Push { pos, .. } => {
            w.laps.lemma_cursor_parts(pos);
        },
        Agent::Pop { pos, .. } => {
            w.laps.lemma_cursor_parts(pos);
        },
        Agent::Idle => {},
    }
}

/// When no operation is under way, the memory is that of a queue at rest, and
/// holds what the operations have left in it.
pub proof fn law_at_rest<T>(w: World<T>)
    requires
        world_inv(w),
        forall|id: int| 0 <= id < w.agents.len() ==> #[trigger] w.agents[id] is Idle,
    ensures
        resting(
            w.laps,
            w.memory.slots,
            w.memory.head,
            w.memory.tail,
            w.history.front,
            w.back(),
        ),
        elements(w.laps, w.memory.slots, w.history.front, w.back()) == w.contents(),
{
    let laps = w.laps;
    let front = w.history.front;
    let back = w.back();
    assert forall|i: int| 0 <= i < laps.cap implies #[trigger] w.history.owners[i] is None by {
        assert(slot_inv(w, i));
    }
    assert forall|p: int| front <= p < back implies {
        let slot = w.memory.slots[#[trigger] laps.slot_at(p)];
        slot.stamp == laps.cursor_at(p) + 1 && slot.value == Some(w.history.log[p])
    } by {
        laps.lemma_cursor_parts(p);
        let i = laps.slot_at(p);
        assert(slot_inv(w, i));
        assert(w.history.owners[i] is None);
        laps.lemma_same_slot(w.history.phases[i].position(), p);
    }
    assert forall|p: int| back <= p < front + laps.cap implies {
        let slot = w.memory.slots[#[trigger] laps.slot_at(p)];
        slot.stamp == laps.cursor_at(p) && slot.value is None
    } by {
        laps.lemma_cursor_parts(p);
        let i = laps.slot_at(p);
        assert(slot_inv(w, i));
        assert(w.history.owners[i] is None);
        laps.lemma_same_slot(w.history.phases[i].position(), p);
    }
    assert(elements(laps, w.memory.slots, front, back) =~= w.contents());
}

/// `len` reads the tail, then the head, then the tail again. If the tail is the
/// same, and no whole round of cursors has gone by, the count is right at the
/// moment of the second read, but for a forced push that has not yet advanced the
/// tail.
pub proof fn law_len<T>(u: World<T>, ms: Seq<Move<T>>, ns: Seq<Move<T>>)
    requires
        world_inv(u),
        enabled_all(u, ms),
        enabled_all(moved_all(u, ms), ns),
        ({
            let w = moved_all(moved_all(u, ms), ns);
            &&& w.memory.tail == u.memory.tail
            &&& w.tail_pos() - u.tail_pos() < u.laps.cap * u.laps.lap_count()
        }),
    ensures
        ({
            let v = moved_all(u, ms);
            let n = u.laps.occupied_spec(v.memory.head, u.memory.tail);
            &&& v.history.pending is None ==> n == v.contents().len()
            &&& v.history.pending is Some ==> n == v.contents().len() - 1
        }),
{
    let v = moved_all(u, ms);
    let w = moved_all(v, ns);
    law_monotone(u, ms);
    law_monotone(v, ns);
    lemma_tail_pos(u);
    lemma_tail_pos(v);
    lemma_tail_pos(w);
    u.laps.lemma_distinct(u.tail_pos(), w.tail_pos());
    u.laps.lemma_occupied(v.history.front, v.tail_pos());
}

/// `is_empty` reads the head, then the tail. If they are the same, and no whole
/// round of cursors has gone by, the queue is empty at the moment of the second
/// read, but for the value of a forced push that has not yet advanced the tail.
pub proof fn law_is_empty<T>(u: World<T>, ms: Seq<Move<T>>)
    requires
        world_inv(u),
        enabled_all(u, ms),
        moved_all(u, ms).memory.tail == u.memory.head,
        moved_all(u, ms).tail_pos() - u.history.front < u.laps.cap * u.laps.lap_count(),
    ensures
        ({
            let v = moved_all(u, ms);
            &&& v.history.pending is None ==> v.contents().len() == 0
            &&& v.history.pending is Some ==> v.contents().len() == 1
        }),
{
    let v = moved_all(u, ms);
    law_monotone(u, ms);
    lemma_tail_pos(u);
    lemma_tail_pos(v);
    u.laps.lemma_distinct(u.history.front, v.tail_pos());
}

/// `is_full` reads the tail, then the head. If they are one lap apart, and no
/// whole round of cursors has gone by, the queue is full at the moment of the
/// second read.
pub proof fn law_is_full<T>(u: World<T>, ms: Seq<Move<T>>)
    requires
        world_inv(u),
        enabled_all(u, ms),
        u.laps.full_spec(moved_all(u, ms).memory.head, u.memory.tail),
        moved_all(u, ms).history.front + u.laps.cap - u.tail_pos() < u.laps.cap * u.laps.lap_count(),
    ensures
        moved_all(u, ms).contents().len() == u.laps.cap,
{
    let v = moved_all(u, ms);
    law_monotone(u, ms);
    lemma_tail_pos(u);
    lemma_tail_pos(v);
    u.laps.lemma_ahead(v.history.front);
    u.laps.lemma_distinct(v.history.front + u.laps.cap, u.tail_pos());
}

/// While a queue stays empty, no position is claimed.
proof fn lemma_stays_empty<T>(u: World<T>, ms: Seq<Move<T>>)
    requires
        world_inv(u),
        enabled_all(u, ms),
        forall|k: int|
            0 <= k <= ms.len() ==> (#[trigger] moved_all(u, ms.take(k))).contents().len() == 0,
    ensures
        moved_all(u, ms).back() == u.back(),
    decreases ms.len(),
{
    if ms.len() > 0 {
        let most = ms.drop_last();
        assert forall|k: int| 0 <= k <= most.len() implies (#[trigger] moved_all(
            u,
            most.take(k),
        )).contents().len() == 0 by {
            assert(most.take(k) =~= ms.take(k));
        }
        lemma_stays_empty(u, most);
        law_monotone(u, most);
        assert(most =~= ms.take(ms.len() - 1));
        assert(ms =~= ms.take(ms.len() as int));
        law_one_instant(moved_all(u, most), ms.last());
    }
}

/// If `is_empty` reads a head and a tail that differ, there was an instant between the
/// two reads at which the queue held an element.
pub proof fn law_not_empty<T>(u: World<T>, ms: Seq<Move<T>>)
    requires
        world_inv(u),
        enabled_all(u, ms),
        moved_all(u, ms).memory.tail != u.memory.head,
    ensures
        exists|k: int|
            0 <= k <= ms.len() && (#[trigger] moved_all(u, ms.take(k))).contents().len() > 0,
{
    law_monotone(u, ms);
    lemma_tail_pos(u);
    if forall|k: int|
        0 <= k <= ms.len() ==> (#[trigger] moved_all(u, ms.take(k))).contents().len() == 0 {
        lemma_stays_empty(u, ms);
        assert(ms.take(0) =~= Seq::<Move<T>>::empty());
        assert(moved_all(u, ms.take(0)).contents().len() == 0);
        lemma_tail_pos(moved_all(u, ms));
    }
}

/// While a queue stays full and no forced push is under way, no element is claimed.
proof fn lemma_stays_full<T>(u: World<T>, ms: Seq<Move<T>>)
    requires
        world_inv(u),
        enabled_all(u, ms),
        forall|k: int|
            0 <= k <= ms.len() ==> {
                let w = #[trigger] moved_all(u, ms.take(k));
                w.contents().len() == u.laps.cap && w.history.pending is None
            },
    ensures
        moved_all(u, ms).history.front == u.history.front,
    decreases ms.len(),
{
    if ms.len() > 0 {
        let most = ms.drop_last();
        assert forall|k: int| 0 <= k <= most.len() implies {
            let w = #[trigger] moved_all(u, most.take(k));
            w.contents().len() == u.laps.cap && w.history.pending is None
        } by {
            assert(most.take(k) =~= ms.take(k));
        }
        lemma_stays_full(u, most);
        law_monotone(u, most);
        assert(most =~= ms.take(ms.len() - 1));
        assert(ms =~= ms.take(ms.len() as int));
        assert(moved_all(u, ms.take(ms.len() as int)).history.pending is None);
        law_one_instant(moved_all(u, most), ms.last());
    }
}

/// If `is_full` reads a tail and a head that are not one lap apart, there was an instant
/// between the two reads at which the queue had room, or at which a forced push had
/// advanced the head and not yet the tail.
pub proof fn law_not_full<T>(u: World<T>, ms: Seq<Move<T>>)
    requires
        world_inv(u),
        enabled_all(u, ms),
        !u.laps.full_spec(moved_all(u, ms).memory.head, u.memory.tail),
    ensures
        exists|k: int|
            0 <= k <= ms.len() && {
                let w = #[trigger] moved_all(u, ms.take(k));
                w.contents().len() < u.laps.cap || w.history.pending is Some
            },
{
    law_monotone(u, ms);
    if forall|k: int|
        0 <= k <= ms.len() ==> {
            let w = #[trigger] moved_all(u, ms.take(k));
            w.contents().len() >= u.laps.cap && w.history.pending is None
        } {
        assert forall|k: int| 0 <= k <= ms.len() implies {
            let w = #[trigger] moved_all(u, ms.take(k));
            w.contents().len() == u.laps.cap && w.history.pending is None
        } by {
            lemma_enabled_prefix(u, ms, k);
            law_monotone(u, ms.take(k));
        }
        lemma_stays_full(u, ms);
        assert(ms.take(0) =~= Seq::<Move<T>>::empty());
        assert(moved_all(u, ms.take(0)).contents().len() == u.laps.cap);
        u.laps.lemma_ahead(u.history.front);
    }
}

/// What can happen can happen in part.
proof fn lemma_enabled_prefix<T>(u: World<T>, ms: Seq<Move<T>>, k: int)
    requires
        enabled_all(u, ms),
        0 <= k <= ms.len(),
    ensures
        enabled_all(u, ms.take(k)),
    decreases ms.len(),
{
    if k < ms.len() {
        lemma_enabled_prefix(u, ms.drop_last(), k);
        assert(ms.drop_last().take(k) =~= ms.take(k));
    } else {
        assert(ms.take(k) =~= ms);
    }
}

} // verus!
