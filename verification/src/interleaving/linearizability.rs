//! Every operation takes effect at one instant between its call and its return.

use super::always::{
    agent_inv, law_invariant, lemma_slot_filled, lemma_slot_free, lemma_tail_pos,
    world_inv,
};
use super::world::{
    answer_of, enabled, enabled_all, item_of, moved, moved_all, operation, owed_answer,
    reply, step, takes_effect, Agent, Answer, Move, World,
};
use crate::model::{after, after_all, arrivals, departures, law_fifo, Op};
use crate::protocol::{PopState, PushState};
use vstd::prelude::*;

verus! {

/// The queue changes at one instant of an operation, and then as the operation
/// says; nothing else changes it.
pub proof fn law_one_instant<T>(w: World<T>, m: Move<T>)
    requires
        world_inv(w),
        enabled(w, m),
    ensures
        match m {
            Move::Access(id, luck) if takes_effect(w, id, luck) => {
                let op = operation(w.agents[id]);
                let cap = w.laps.cap as nat;
                &&& moved(w, m).contents() == after(w.contents(), cap, op)
                &&& owed_answer(w.agents[id]) is None
                &&& owed_answer(moved(w, m).agents[id]) == Some(answer_of(w.contents(), cap, op))
            },
            Move::Access(id, luck) => {
                &&& moved(w, m).contents() == w.contents()
                &&& owed_answer(moved(w, m).agents[id]) == owed_answer(w.agents[id])
            },
            _ => moved(w, m).contents() == w.contents(),
        },
{
    if let Move::Access(id, luck) = m {
        let laps = w.laps;
        let cap = laps.cap as int;
        assert(agent_inv(w, id));
        if takes_effect(w, id, luck) {
            laps.lemma_lap_count();
            lemma_tail_pos(w);
            assert(w.contents().len() == w.back() - w.history.front);
            match w.agents[id] {
                Agent::Push { state, pos, value, .. } => {
                    match state {
                        PushState::ClaimTail(t) => {
                            if let Some(k) = w.history.pending {
                                assert(agent_inv(w, k));
                                assert(false);
                            }
                            lemma_slot_free(w);
                            assert(moved(w, m).contents() =~= w.contents().push(value));
                        },
                        PushState::CheckHead(t) => {
                            laps.lemma_ahead(w.history.front);
                        },
                        PushState::ClaimHead(t) => {
                            laps.lemma_behind(pos);
                            assert(moved(w, m).contents() =~= w.contents().drop_first().push(value));
                        },
                        _ => {},
                    }
                },
                Agent::Pop { state, pos, .. } => {
                    match state {
                        PopState::ClaimHead(h) => {
                            lemma_slot_filled(w);
                            assert(moved(w, m).contents() =~= w.contents().drop_first());
                        },
                        PopState::CheckTail(h) => {
                            if let Some(k) = w.history.pending {
                                assert(agent_inv(w, k));
                                assert(false);
                            }
                        },
                        _ => {},
                    }
                },
                Agent::Idle => {},
            }
        }
    }
}

/// However many threads contend, a push is refused only at an instant at which the
/// queue is full, and a pop finds nothing only at one at which it is empty.
pub proof fn law_no_false_refusal<T>(w: World<T>, id: int, luck: bool)
    requires
        world_inv(w),
        enabled(w, Move::Access(id, luck)),
        takes_effect(w, id, luck),
    ensures
        owed_answer(step(w, id, luck).agents[id]) matches Some(Answer::Push(Err(_)))
            ==> w.contents().len() == w.laps.cap,
        owed_answer(step(w, id, luck).agents[id]) == Some(Answer::Pop(None::<T>))
            ==> w.contents().len() == 0,
{
    law_one_instant(w, Move::Access(id, luck));
}

/// What a thread replies is the answer of the instant at which its operation took
/// effect; an operation that has not taken effect has no reply yet.
pub proof fn law_reply<T>(w: World<T>, id: int)
    requires
        world_inv(w),
        0 <= id < w.agents.len(),
        reply(w.agents[id]) is Some,
    ensures
        reply(w.agents[id]) == owed_answer(w.agents[id]),
{
    assert(agent_inv(w, id));
}

/// When nothing is left to do, the value in the thread's hands is all of its reply: a
/// refused push holds its value, a forced push the element that made way, a pop the
/// element that it took; otherwise the hands are empty.
pub proof fn law_item_is_reply<T>(w: World<T>, id: int)
    requires
        world_inv(w),
        0 <= id < w.agents.len(),
        reply(w.agents[id]) is Some,
    ensures
        reply(w.agents[id]) == Some(
            match operation(w.agents[id]) {
                Op::Push(_) => Answer::Push(
                    match item_of(w.agents[id]) {
                        Some(v) => Err(v),
                        None => Ok(()),
                    },
                ),
                Op::ForcePush(_) => Answer::ForcePush(item_of(w.agents[id])),
                Op::Pop => Answer::Pop(item_of(w.agents[id])),
            },
        ),
{
    assert(agent_inv(w, id));
}

/// An operation takes effect.
pub ghost struct Effect<T> {
    /// The thread.
    pub id: int,
    /// Its operation.
    pub op: Op<T>,
    /// The answer that it owes from now on.
    pub answer: Option<Answer<T>>,
}

/// The effect of `m`, if an operation takes effect by it.
pub open spec fn effect<T>(w: World<T>, m: Move<T>) -> Seq<Effect<T>> {
    match m {
        Move::Access(id, luck) if takes_effect(w, id, luck) => seq![
            Effect {
                id,
                op: operation(w.agents[id]),
                answer: owed_answer(moved(w, m).agents[id]),
            },
        ],
        _ => Seq::empty(),
    }
}

/// The effects of `ms`, in the order in which they happen.
pub open spec fn effects<T>(w: World<T>, ms: Seq<Move<T>>) -> Seq<Effect<T>>
    decreases ms.len(),
{
    if ms.len() == 0 {
        Seq::empty()
    } else {
        effects(w, ms.drop_last()) + effect(moved_all(w, ms.drop_last()), ms.last())
    }
}

/// The operations of `es`.
pub open spec fn operations<T>(es: Seq<Effect<T>>) -> Seq<Op<T>> {
    es.map_values(|e: Effect<T>| e.op)
}

/// `es` is what a queue does that starts with `s` and is used by one thread alone:
/// each operation answers as its predecessors have left the queue.
pub open spec fn sequential<T>(s: Seq<T>, cap: nat, es: Seq<Effect<T>>) -> bool {
    forall|k: int|
        0 <= k < es.len() ==> #[trigger] es[k].answer == Some(
            answer_of(after_all(s, cap, operations(es.take(k))), cap, es[k].op),
        )
}

/// Linearizability: from a new queue on, or from any later instant on, whatever any
/// number of threads do in whatever interleaving, the effects of their operations, put
/// in the order in which they happen, are the doings of a queue that is used by one
/// thread alone, and the queue holds what that thread would have left in it.
pub proof fn law_linearizable<T>(w: World<T>, ms: Seq<Move<T>>)
    requires
        world_inv(w),
        enabled_all(w, ms),
    ensures
        world_inv(moved_all(w, ms)),
        moved_all(w, ms).laps == w.laps,
        moved_all(w, ms).agents.len() == w.agents.len(),
        sequential(w.contents(), w.laps.cap as nat, effects(w, ms)),
        moved_all(w, ms).contents() == after_all(
            w.contents(),
            w.laps.cap as nat,
            operations(effects(w, ms)),
        ),
    decreases ms.len(),
{
    let s = w.contents();
    let cap = w.laps.cap as nat;
    if ms.len() > 0 {
        let most = ms.drop_last();
        let m = ms.last();
        law_linearizable(w, most);
        let u = moved_all(w, most);
        law_invariant(u, m);
        law_one_instant(u, m);
        let before = effects(w, most);
        let es = effects(w, ms);
        let e = effect(u, m);
        if e.len() == 0 {
            assert(es =~= before);
        } else {
            assert(es =~= before.push(e[0]));
            assert(operations(es).drop_last() =~= operations(before));
            assert forall|k: int| 0 <= k < es.len() implies #[trigger] es[k].answer == Some(
                answer_of(after_all(s, cap, operations(es.take(k))), cap, es[k].op),
            ) by {
                if k < before.len() {
                    assert(es.take(k) =~= before.take(k));
                    assert(before[k].answer == es[k].answer);
                } else {
                    assert(es.take(k) =~= before);
                }
            }
        }
    }
}

/// However many threads contend, the elements that have left the queue, followed by
/// those that are in it, are the elements it began with followed by those that have
/// come in, in the same order.
pub proof fn law_conserved<T>(w: World<T>, ms: Seq<Move<T>>)
    requires
        world_inv(w),
        enabled_all(w, ms),
    ensures
        ({
            let s = w.contents();
            let cap = w.laps.cap as nat;
            let ops = operations(effects(w, ms));
            departures(s, cap, ops) + moved_all(w, ms).contents() == s + arrivals(s, cap, ops)
        }),
{
    law_linearizable(w, ms);
    law_fifo(w.contents(), w.laps.cap as nat, operations(effects(w, ms)));
}

/// The operations that thread `id` has been called for, in order.
pub open spec fn calls_of<T>(ms: Seq<Move<T>>, id: int) -> Seq<Op<T>>
    decreases ms.len(),
{
    if ms.len() == 0 {
        Seq::empty()
    } else {
        let most = calls_of(ms.drop_last(), id);
        match ms.last() {
            Move::Call(k, op) if k == id => most.push(op),
            _ => most,
        }
    }
}

/// The effects of the operations of thread `id`, in order.
pub open spec fn effects_of<T>(es: Seq<Effect<T>>, id: int) -> Seq<Effect<T>> {
    es.filter(|e: Effect<T>| e.id == id)
}

/// The replies of thread `id`, in order.
pub open spec fn replies_of<T>(w: World<T>, ms: Seq<Move<T>>, id: int) -> Seq<Option<Answer<T>>>
    decreases ms.len(),
{
    if ms.len() == 0 {
        Seq::empty()
    } else {
        let most = replies_of(w, ms.drop_last(), id);
        match ms.last() {
            Move::Return(k) if k == id => most.push(
                reply(moved_all(w, ms.drop_last()).agents[id]),
            ),
            _ => most,
        }
    }
}

/// The answers of `es`.
pub open spec fn answers<T>(es: Seq<Effect<T>>) -> Seq<Option<Answer<T>>> {
    es.map_values(|e: Effect<T>| e.answer)
}

/// What `agent` has been called for and has not taken effect yet: one operation
/// or none.
pub open spec fn outstanding<T>(agent: Agent<T>) -> Seq<Op<T>> {
    if !(agent is Idle) && owed_answer(agent) is None {
        seq![operation(agent)]
    } else {
        Seq::empty()
    }
}

/// What `agent` has yet to reply: one answer or none.
pub open spec fn unsaid<T>(agent: Agent<T>) -> Seq<Option<Answer<T>>> {
    if owed_answer(agent) is Some {
        seq![owed_answer(agent)]
    } else {
        Seq::empty()
    }
}

/// Between its call and its return every operation takes effect exactly once, the
/// operations of a thread do so in the order of the calls, and each reply is the
/// answer of the effect.
pub proof fn law_between_call_and_return<T>(w: World<T>, ms: Seq<Move<T>>, id: int)
    requires
        world_inv(w),
        enabled_all(w, ms),
        0 <= id < w.agents.len(),
        w.agents[id] is Idle,
    ensures
        ({
            let es = effects_of(effects(w, ms), id);
            let agent = moved_all(w, ms).agents[id];
            &&& calls_of(ms, id) == operations(es) + outstanding(agent)
            &&& answers(es) == replies_of(w, ms, id) + unsaid(agent)
        }),
    decreases ms.len(),
{
    if ms.len() == 0 {
        reveal(Seq::filter);
        assert(effects_of(effects(w, ms), id) =~= Seq::<Effect<T>>::empty());
        assert(calls_of(ms, id) =~= operations(effects_of(effects(w, ms), id)) + outstanding(
            w.agents[id],
        ));
        assert(answers(effects_of(effects(w, ms), id)) =~= replies_of(w, ms, id) + unsaid(
            w.agents[id],
        ));
    } else {
        let most = ms.drop_last();
        let m = ms.last();
        law_between_call_and_return(w, most, id);
        law_linearizable(w, most);
        let u = moved_all(w, most);
        let v = moved_all(w, ms);
        law_one_instant(u, m);
        assert(agent_inv(u, id));
        let before = effects_of(effects(w, most), id);
        let es = effects_of(effects(w, ms), id);
        let e = effect(u, m);
        if e.len() == 0 {
            assert(effects(w, ms) =~= effects(w, most));
        } else {
            assert(effects(w, ms) =~= effects(w, most).push(e[0]));
            assert(effects(w, ms).drop_last() =~= effects(w, most));
            reveal(Seq::filter);
            if e[0].id == id {
                assert(es =~= before.push(e[0]));
            } else {
                assert(es =~= before);
            }
        }
        assert(calls_of(ms, id) =~= operations(es) + outstanding(v.agents[id]));
        assert(answers(es) =~= replies_of(w, ms, id) + unsaid(v.agents[id]));
    }
}

} // verus!
