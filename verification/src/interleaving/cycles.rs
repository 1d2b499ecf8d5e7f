//! Threads that give back what they take, and threads that take out what they put in.
//!
//! On a full queue, threads that pop and then push what they have popped are never
//! refused. On a queue with room for one element per thread, threads that push and then
//! pop are never refused either, and always find an element.

use super::always::{agent_inv, law_invariant, world_inv};
use super::linearizability::{
    answers, effect, effects, effects_of, law_between_call_and_return, law_linearizable,
    law_one_instant, law_reply, replies_of, Effect,
};
use super::world::{
    enabled_all, moved, moved_all, operation, reply, takes_effect, Agent, Answer, Move, World,
};
use crate::model::Op;
use vstd::multiset::Multiset;
use vstd::prelude::*;

verus! {

/// No thread is at an operation.
pub open spec fn all_idle<T>(w: World<T>) -> bool {
    forall|id: int| 0 <= id < w.agents.len() ==> #[trigger] w.agents[id] is Idle
}

/// A push was refused.
pub open spec fn is_refusal<T>(answer: Option<Answer<T>>) -> bool {
    answer matches Some(Answer::Push(Err(_)))
}

/// A pop found nothing.
pub open spec fn is_miss<T>(answer: Option<Answer<T>>) -> bool {
    answer == Some(Answer::Pop(None::<T>))
}

/// The element that thread `id`, between two operations, has got from the last one.
pub open spec fn in_hand<T>(w: World<T>, ms: Seq<Move<T>>, id: int) -> Option<T>
    decreases ms.len(),
{
    if ms.len() == 0 {
        None
    } else {
        match ms.last() {
            Move::Call(k, _) if k == id => None,
            Move::Return(k) if k == id => match reply(moved_all(w, ms.drop_last()).agents[id]) {
                Some(Answer::Pop(item)) => item,
                Some(Answer::Push(Err(value))) => Some(value),
                _ => None,
            },
            _ => in_hand(w, ms.drop_last(), id),
        }
    }
}

/// Every thread only pops, and pushes what it has popped before it pops again.
pub open spec fn gives_back<T>(w: World<T>, ms: Seq<Move<T>>) -> bool
    decreases ms.len(),
{
    ms.len() == 0 || gives_back(w, ms.drop_last()) && match ms.last() {
        Move::Call(id, op) => match in_hand(w, ms.drop_last(), id) {
            Some(v) => op == Op::Push(v),
            None => op is Pop,
        },
        _ => true,
    }
}

/// The element that thread `id` has taken out of the queue and not put back yet, whether
/// it is between operations or at one.
pub open spec fn carried<T>(w: World<T>, ms: Seq<Move<T>>, id: int) -> Option<T> {
    match moved_all(w, ms).agents[id] {
        Agent::Idle => in_hand(w, ms, id),
        Agent::Push { value, answer, .. } => match answer {
            None => Some(value),
            Some(Answer::Push(Err(v))) => Some(v),
            _ => None,
        },
        Agent::Pop { answer, .. } => match answer {
            Some(Answer::Pop(item)) => item,
            _ => None,
        },
    }
}

/// One element or none, as a multiset.
pub open spec fn bag_of<T>(item: Option<T>) -> Multiset<T> {
    match item {
        Some(v) => Multiset::singleton(v),
        None => Multiset::empty(),
    }
}

/// What the first `n` threads carry.
pub open spec fn all_carried<T>(w: World<T>, ms: Seq<Move<T>>, n: int) -> Multiset<T>
    decreases n,
{
    if n <= 0 {
        Multiset::empty()
    } else {
        all_carried(w, ms, n - 1).add(bag_of(carried(w, ms, n - 1)))
    }
}

/// If one thread carries something else, that is the difference in all that is carried.
proof fn lemma_carried_changes<T>(
    w: World<T>,
    ms: Seq<Move<T>>,
    ns: Seq<Move<T>>,
    id: int,
    n: int,
)
    requires
        0 <= n,
        forall|k: int|
            0 <= k < n && k != id ==> #[trigger] carried(w, ms, k) == carried(w, ns, k),
    ensures
        0 <= id < n ==> all_carried(w, ms, n).add(bag_of(carried(w, ns, id))) =~= all_carried(
            w,
            ns,
            n,
        ).add(bag_of(carried(w, ms, id))),
        !(0 <= id < n) ==> all_carried(w, ms, n) =~= all_carried(w, ns, n),
    decreases n,
{
    if n > 0 {
        lemma_carried_changes(w, ms, ns, id, n - 1);
        if 0 <= id < n - 1 {
            lemma_balance(
                all_carried(w, ms, n - 1),
                bag_of(carried(w, ns, id)),
                all_carried(w, ns, n - 1),
                bag_of(carried(w, ms, id)),
                bag_of(carried(w, ms, n - 1)),
            );
        }
    }
}

/// The same may be added on both sides.
proof fn lemma_balance<T>(
    a: Multiset<T>,
    b: Multiset<T>,
    c: Multiset<T>,
    d: Multiset<T>,
    e: Multiset<T>,
)
    requires
        a.add(b) == c.add(d),
    ensures
        a.add(e).add(b) == c.add(e).add(d),
{
    assert(a.add(e).add(b) =~= a.add(b).add(e));
    assert(c.add(e).add(d) =~= c.add(d).add(e));
}

/// What one part loses the other gains.
proof fn lemma_exchange<T>(
    a: Multiset<T>,
    b: Multiset<T>,
    a2: Multiset<T>,
    b2: Multiset<T>,
    c: Multiset<T>,
    d: Multiset<T>,
)
    requires
        b.add(d) == b2.add(c),
        a2.add(d) == a.add(c),
    ensures
        a2.add(b2) == a.add(b),
{
    assert forall|x: T| #[trigger] a2.add(b2).count(x) == a.add(b).count(x) by {
        assert(b.add(d).count(x) == b.count(x) + d.count(x));
        assert(b2.add(c).count(x) == b2.count(x) + c.count(x));
        assert(a2.add(d).count(x) == a2.count(x) + d.count(x));
        assert(a.add(c).count(x) == a.count(x) + c.count(x));
    }
    assert(a2.add(b2) =~= a.add(b));
}

/// What one thread carries is part of all that is carried.
proof fn lemma_carried_len<T>(w: World<T>, ms: Seq<Move<T>>, id: int, n: int)
    requires
        0 <= id < n,
        carried(w, ms, id) is Some,
    ensures
        all_carried(w, ms, n).len() >= 1,
    decreases n,
{
    if id < n - 1 {
        lemma_carried_len(w, ms, id, n - 1);
    }
}

/// No thread is at a forced push.
spec fn no_force<T>(w: World<T>) -> bool {
    forall|id: int| 0 <= id < w.agents.len() ==> !(operation(#[trigger] w.agents[id]) is ForcePush)
}

/// What is in the queue and what is carried stay the same together.
proof fn lemma_give_back<T>(w: World<T>, ms: Seq<Move<T>>)
    requires
        world_inv(w),
        all_idle(w),
        enabled_all(w, ms),
        gives_back(w, ms),
    ensures
        moved_all(w, ms).agents.len() == w.agents.len(),
        no_force(moved_all(w, ms)),
        moved_all(w, ms).contents().to_multiset().add(
            all_carried(w, ms, w.agents.len() as int),
        ) =~= w.contents().to_multiset(),
        forall|k: int| 0 <= k < effects(w, ms).len() ==> !is_refusal(#[trigger] effects(w, ms)[k].answer),
    decreases ms.len(),
{
    broadcast use vstd::seq_lib::group_to_multiset_ensures;

    let n = w.agents.len() as int;
    if ms.len() == 0 {
        lemma_nothing_carried(w, ms, n);
    } else {
        let most = ms.drop_last();
        let m = ms.last();
        lemma_give_back(w, most);
        law_linearizable(w, most);
        let u = moved_all(w, most);
        let v = moved(u, m);
        law_one_instant(u, m);
        law_invariant(u, m);
        let id = match m {
            Move::Call(i, _) => i,
            Move::Access(i, _) => i,
            Move::Return(i) => i,
        };
        assert(agent_inv(u, id));
        assert(agent_inv(v, id));
        assert forall|k: int| 0 <= k < n && k != id implies #[trigger] carried(w, most, k)
            == carried(w, ms, k) by {
            assert(v.agents[k] == u.agents[k]);
        }
        lemma_carried_changes(w, most, ms, id, n);
        assert(!(operation(u.agents[id]) is ForcePush));
        assert forall|k: int| 0 <= k < n implies !(operation(#[trigger] v.agents[k]) is ForcePush) by {
            if k != id {
                assert(v.agents[k] == u.agents[k]);
            }
        }
        let c = bag_of(carried(w, most, id));
        let d = bag_of(carried(w, ms, id));
        match m {
            Move::Access(_, luck) if takes_effect(u, id, luck) => {
                let s = u.contents();
                match operation(u.agents[id]) {
                    Op::Push(value) => {
                        lemma_carried_len(w, most, id, n);
                        assert(s.to_multiset().len() == s.len());
                        assert(w.contents().to_multiset().len() == w.contents().len());
                        assert(s.len() < w.laps.cap);
                        assert(v.contents() == s.push(value));
                        assert(carried(w, ms, id) is None);
                        assert(v.contents().to_multiset().add(d) =~= s.to_multiset().add(c));
                    },
                    Op::Pop => {
                        if s.len() > 0 {
                            lemma_multiset_front(s);
                            assert(carried(w, ms, id) == Some(s[0]));
                        }
                        assert(v.contents().to_multiset().add(d) =~= s.to_multiset().add(c));
                    },
                    _ => {},
                }
                assert(effects(w, ms) =~= effects(w, most).push(effect(u, m)[0]));
            },
            Move::Return(_) => {
                law_reply(u, id);
                assert(carried(w, ms, id) == carried(w, most, id));
                assert(effects(w, ms) =~= effects(w, most));
            },
            _ => {
                assert(carried(w, ms, id) == carried(w, most, id));
                assert(effects(w, ms) =~= effects(w, most));
            },
        }
        assert(v.contents().to_multiset().add(d) == u.contents().to_multiset().add(c));
        lemma_exchange(
            u.contents().to_multiset(),
            all_carried(w, most, n),
            v.contents().to_multiset(),
            all_carried(w, ms, n),
            c,
            d,
        );
        assert forall|k: int| 0 <= k < effects(w, ms).len() implies !is_refusal(
            #[trigger] effects(w, ms)[k].answer,
        ) by {
            if k < effects(w, most).len() {
                assert(effects(w, ms)[k] == effects(w, most)[k]);
            }
        }
    }
}

/// At first nothing is carried.
proof fn lemma_nothing_carried<T>(w: World<T>, ms: Seq<Move<T>>, n: int)
    requires
        all_idle(w),
        ms.len() == 0,
        0 <= n <= w.agents.len(),
    ensures
        all_carried(w, ms, n) =~= Multiset::<T>::empty(),
    decreases n,
{
    if n > 0 {
        lemma_nothing_carried(w, ms, n - 1);
        assert(w.agents[n - 1] is Idle);
    }
}

/// The multiset of a sequence is its first element and the multiset of the rest.
proof fn lemma_multiset_front<T>(s: Seq<T>)
    requires
        s.len() > 0,
    ensures
        s.to_multiset() =~= s.drop_first().to_multiset().add(Multiset::singleton(s[0])),
{
    broadcast use vstd::seq_lib::group_to_multiset_ensures;

    assert(s.remove(0) =~= s.drop_first());
}

/// What holds of no answer of `es` holds of no answer of one thread's part of it.
proof fn lemma_part<T>(es: Seq<Effect<T>>, id: int, bad: spec_fn(Option<Answer<T>>) -> bool)
    requires
        forall|k: int| 0 <= k < es.len() ==> !bad(#[trigger] es[k].answer),
    ensures
        forall|k: int|
            0 <= k < effects_of(es, id).len() ==> !bad(#[trigger] effects_of(es, id)[k].answer),
    decreases es.len(),
{
    reveal(Seq::filter);
    if es.len() > 0 {
        let most = es.drop_last();
        assert forall|k: int| 0 <= k < most.len() implies !bad(#[trigger] most[k].answer) by {
            assert(!bad(es[k].answer));
        }
        lemma_part(most, id, bad);
        let fs = effects_of(most, id);
        assert(!bad(es[es.len() - 1].answer));
        assert forall|k: int| 0 <= k < effects_of(es, id).len() implies !bad(
            #[trigger] effects_of(es, id)[k].answer,
        ) by {
            if k < fs.len() {
                assert(!bad(fs[k].answer));
            }
        }
    }
}

/// What holds of no answer of an effect holds of no reply.
proof fn lemma_replies<T>(
    w: World<T>,
    ms: Seq<Move<T>>,
    id: int,
    bad: spec_fn(Option<Answer<T>>) -> bool,
)
    requires
        world_inv(w),
        all_idle(w),
        enabled_all(w, ms),
        0 <= id < w.agents.len(),
        forall|k: int| 0 <= k < effects(w, ms).len() ==> !bad(#[trigger] effects(w, ms)[k].answer),
    ensures
        forall|j: int|
            0 <= j < replies_of(w, ms, id).len() ==> !bad(#[trigger] replies_of(w, ms, id)[j]),
{
    assert(w.agents[id] is Idle);
    law_between_call_and_return(w, ms, id);
    lemma_part(effects(w, ms), id, bad);
    let fs = effects_of(effects(w, ms), id);
    let rs = replies_of(w, ms, id);
    assert(answers(fs).len() == fs.len());
    assert forall|j: int| 0 <= j < rs.len() implies !bad(#[trigger] rs[j]) by {
        assert(answers(fs)[j] == rs[j]);
        assert(!bad(fs[j].answer));
    }
}

/// Threads that share a queue, however full, and do nothing but pop and push what they
/// have popped, are never refused: no push takes effect as a refusal, and none replies
/// with one. What is in the queue, and what the threads have taken and not put back yet,
/// are together what the queue held at first.
pub proof fn law_gives_back<T>(w: World<T>, ms: Seq<Move<T>>)
    requires
        world_inv(w),
        all_idle(w),
        enabled_all(w, ms),
        gives_back(w, ms),
    ensures
        forall|k: int|
            0 <= k < effects(w, ms).len() ==> !is_refusal(#[trigger] effects(w, ms)[k].answer),
        forall|id: int, j: int|
            0 <= id < w.agents.len() && 0 <= j < replies_of(w, ms, id).len() ==> !is_refusal(
                #[trigger] replies_of(w, ms, id)[j],
            ),
        moved_all(w, ms).contents().to_multiset().add(
            all_carried(w, ms, w.agents.len() as int),
        ) == w.contents().to_multiset(),
        (forall|id: int| 0 <= id < w.agents.len() ==> #[trigger] carried(w, ms, id) is None)
            ==> moved_all(w, ms).contents().to_multiset() == w.contents().to_multiset(),
{
    lemma_give_back(w, ms);
    let bad = |a: Option<Answer<T>>| is_refusal(a);
    assert forall|id: int, j: int|
        0 <= id < w.agents.len() && 0 <= j < replies_of(w, ms, id).len() implies !is_refusal(
        #[trigger] replies_of(w, ms, id)[j],
    ) by {
        lemma_replies(w, ms, id, bad);
        assert(!bad(replies_of(w, ms, id)[j]));
    }
    if forall|id: int| 0 <= id < w.agents.len() ==> #[trigger] carried(w, ms, id) is None {
        lemma_none_carried(w, ms, w.agents.len() as int);
        assert(moved_all(w, ms).contents().to_multiset() =~= w.contents().to_multiset());
    }
}

/// If nobody carries anything, nothing is carried.
proof fn lemma_none_carried<T>(w: World<T>, ms: Seq<Move<T>>, n: int)
    requires
        0 <= n,
        forall|id: int| 0 <= id < n ==> #[trigger] carried(w, ms, id) is None,
    ensures
        all_carried(w, ms, n) =~= Multiset::<T>::empty(),
    decreases n,
{
    if n > 0 {
        lemma_none_carried(w, ms, n - 1);
        assert(carried(w, ms, n - 1) is None);
    }
}

/// Thread `id`, between two operations, has last put an element in.
pub open spec fn has_put<T>(w: World<T>, ms: Seq<Move<T>>, id: int) -> bool
    decreases ms.len(),
{
    if ms.len() == 0 {
        false
    } else {
        match ms.last() {
            Move::Call(k, _) if k == id => false,
            Move::Return(k) if k == id => reply(moved_all(w, ms.drop_last()).agents[id]) == Some(
                Answer::<T>::Push(Ok(())),
            ),
            _ => has_put(w, ms.drop_last(), id),
        }
    }
}

/// Every thread only pushes, and pops once after it has put an element in.
pub open spec fn takes_out<T>(w: World<T>, ms: Seq<Move<T>>) -> bool
    decreases ms.len(),
{
    ms.len() == 0 || takes_out(w, ms.drop_last()) && match ms.last() {
        Move::Call(id, op) => if has_put(w, ms.drop_last(), id) {
            op is Pop
        } else {
            op is Push
        },
        _ => true,
    }
}

/// Thread `id` has put an element in and not taken one out for it yet, whether it is
/// between operations or at one.
pub open spec fn in_credit<T>(w: World<T>, ms: Seq<Move<T>>, id: int) -> bool {
    match moved_all(w, ms).agents[id] {
        Agent::Idle => has_put(w, ms, id),
        Agent::Push { answer, .. } => answer == Some(Answer::<T>::Push(Ok(()))),
        Agent::Pop { answer, .. } => answer is None,
    }
}

/// How many of the first `n` threads are in credit.
pub open spec fn credits<T>(w: World<T>, ms: Seq<Move<T>>, n: int) -> int
    decreases n,
{
    if n <= 0 {
        0
    } else {
        credits(w, ms, n - 1) + if in_credit(w, ms, n - 1) {
            1int
        } else {
            0
        }
    }
}

/// A thread that comes into credit, or falls out of it, makes a difference of one.
proof fn lemma_credits_change<T>(
    w: World<T>,
    ms: Seq<Move<T>>,
    ns: Seq<Move<T>>,
    id: int,
    n: int,
)
    requires
        0 <= n,
        forall|k: int|
            0 <= k < n && k != id ==> #[trigger] in_credit(w, ms, k) == in_credit(w, ns, k),
    ensures
        0 <= credits(w, ms, n) <= n,
        0 <= id < n && in_credit(w, ms, id) ==> credits(w, ms, n) >= 1,
        0 <= id < n && !in_credit(w, ms, id) ==> credits(w, ms, n) <= n - 1,
        credits(w, ns, n) == credits(w, ms, n) + if 0 <= id < n && in_credit(w, ns, id)
            && !in_credit(w, ms, id) {
            1int
        } else if 0 <= id < n && !in_credit(w, ns, id) && in_credit(w, ms, id) {
            -1
        } else {
            0
        },
    decreases n,
{
    if n > 0 {
        lemma_credits_change(w, ms, ns, id, n - 1);
    }
}

/// At first nobody is in credit.
proof fn lemma_no_credits<T>(w: World<T>, ms: Seq<Move<T>>, n: int)
    requires
        all_idle(w),
        ms.len() == 0,
        0 <= n <= w.agents.len(),
    ensures
        credits(w, ms, n) == 0,
    decreases n,
{
    if n > 0 {
        lemma_no_credits(w, ms, n - 1);
        assert(w.agents[n - 1] is Idle);
    }
}

/// The queue holds one element more than at first for each thread in credit.
proof fn lemma_take_out<T>(w: World<T>, ms: Seq<Move<T>>)
    requires
        world_inv(w),
        all_idle(w),
        w.contents().len() + w.agents.len() <= w.laps.cap,
        enabled_all(w, ms),
        takes_out(w, ms),
    ensures
        moved_all(w, ms).agents.len() == w.agents.len(),
        no_force(moved_all(w, ms)),
        moved_all(w, ms).contents().len() == w.contents().len() + credits(
            w,
            ms,
            w.agents.len() as int,
        ),
        forall|k: int|
            0 <= k < effects(w, ms).len() ==> !is_refusal(#[trigger] effects(w, ms)[k].answer)
                && !is_miss(effects(w, ms)[k].answer),
    decreases ms.len(),
{
    let n = w.agents.len() as int;
    if ms.len() == 0 {
        lemma_no_credits(w, ms, n);
    } else {
        let most = ms.drop_last();
        let m = ms.last();
        lemma_take_out(w, most);
        law_linearizable(w, most);
        let u = moved_all(w, most);
        let v = moved(u, m);
        law_one_instant(u, m);
        law_invariant(u, m);
        let id = match m {
            Move::Call(i, _) => i,
            Move::Access(i, _) => i,
            Move::Return(i) => i,
        };
        assert(agent_inv(u, id));
        assert(agent_inv(v, id));
        assert forall|k: int| 0 <= k < n && k != id implies #[trigger] in_credit(w, most, k)
            == in_credit(w, ms, k) by {
            assert(v.agents[k] == u.agents[k]);
        }
        lemma_credits_change(w, most, ms, id, n);
        assert(!(operation(u.agents[id]) is ForcePush));
        assert forall|k: int| 0 <= k < n implies !(operation(#[trigger] v.agents[k]) is ForcePush) by {
            if k != id {
                assert(v.agents[k] == u.agents[k]);
            }
        }
        match m {
            Move::Access(_, luck) if takes_effect(u, id, luck) => {
                assert(effects(w, ms) =~= effects(w, most).push(effect(u, m)[0]));
            },
            Move::Return(_) => {
                law_reply(u, id);
                assert(effects(w, ms) =~= effects(w, most));
            },
            _ => {
                assert(effects(w, ms) =~= effects(w, most));
            },
        }
        assert forall|k: int| 0 <= k < effects(w, ms).len() implies !is_refusal(
            #[trigger] effects(w, ms)[k].answer,
        ) && !is_miss(effects(w, ms)[k].answer) by {
            if k < effects(w, most).len() {
                assert(effects(w, ms)[k] == effects(w, most)[k]);
            }
        }
    }
}

/// Threads that share a queue with room for one element each, and do nothing but push and
/// then pop, are never refused and never find nothing: no push takes effect as a refusal,
/// no pop as a miss, and no reply is either. On a queue that begins empty, as many threads
/// as it has slots may do so.
pub proof fn law_takes_out<T>(w: World<T>, ms: Seq<Move<T>>)
    requires
        world_inv(w),
        all_idle(w),
        w.contents().len() + w.agents.len() <= w.laps.cap,
        enabled_all(w, ms),
        takes_out(w, ms),
    ensures
        forall|k: int|
            0 <= k < effects(w, ms).len() ==> !is_refusal(#[trigger] effects(w, ms)[k].answer)
                && !is_miss(effects(w, ms)[k].answer),
        forall|id: int, j: int|
            0 <= id < w.agents.len() && 0 <= j < replies_of(w, ms, id).len() ==> !is_refusal(
                #[trigger] replies_of(w, ms, id)[j],
            ) && !is_miss(replies_of(w, ms, id)[j]),
{
    lemma_take_out(w, ms);
    let bad = |a: Option<Answer<T>>| is_refusal(a) || is_miss(a);
    assert forall|id: int, j: int|
        0 <= id < w.agents.len() && 0 <= j < replies_of(w, ms, id).len() implies !is_refusal(
        #[trigger] replies_of(w, ms, id)[j],
    ) && !is_miss(replies_of(w, ms, id)[j]) by {
        lemma_replies(w, ms, id, bad);
        assert(!bad(replies_of(w, ms, id)[j]));
    }
}

} // verus!
