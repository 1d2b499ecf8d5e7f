//! What a bounded queue means: operations on the sequence of its elements,
//! oldest first, and the laws that follow from them.

use vstd::prelude::*;

verus! {

/// The elements after a push: the value is the newest, if there was room.
pub open spec fn after_push<T>(s: Seq<T>, cap: nat, value: T) -> Seq<T> {
    if s.len() < cap {
        s.push(value)
    } else {
        s
    }
}

/// What a push answers: the value comes back if there was no room.
pub open spec fn push_answer<T>(s: Seq<T>, cap: nat, value: T) -> Result<(), T> {
    if s.len() < cap {
        Ok(())
    } else {
        Err(value)
    }
}

/// The elements after a forced push: without room, the oldest makes way.
pub open spec fn after_force_push<T>(s: Seq<T>, cap: nat, value: T) -> Seq<T> {
    if s.len() < cap {
        s.push(value)
    } else {
        s.drop_first().push(value)
    }
}

/// What a forced push answers: the element that made way, if one did.
pub open spec fn force_push_answer<T>(s: Seq<T>, cap: nat) -> Option<T> {
    if s.len() < cap {
        None
    } else {
        Some(s[0])
    }
}

/// The elements after a pop: the oldest is gone.
pub open spec fn after_pop<T>(s: Seq<T>) -> Seq<T> {
    if s.len() == 0 {
        s
    } else {
        s.drop_first()
    }
}

/// What a pop answers: the oldest element, if there is one.
pub open spec fn pop_answer<T>(s: Seq<T>) -> Option<T> {
    if s.len() == 0 {
        None
    } else {
        Some(s[0])
    }
}

/// An operation that may change a queue.
pub enum Op<T> {
    /// `push` or `enqueue`.
    Push(T),
    /// `force_push`.
    ForcePush(T),
    /// `pop` or `dequeue`.
    Pop,
}

/// The elements after `op`.
pub open spec fn after<T>(s: Seq<T>, cap: nat, op: Op<T>) -> Seq<T> {
    match op {
        Op::Push(v) => after_push(s, cap, v),
        Op::ForcePush(v) => after_force_push(s, cap, v),
        Op::Pop => after_pop(s),
    }
}

/// The values that `op` puts into the queue: one or none.
pub open spec fn entering<T>(s: Seq<T>, cap: nat, op: Op<T>) -> Seq<T> {
    match op {
        Op::Push(v) => match push_answer(s, cap, v) {
            Ok(_) => seq![v],
            Err(_) => Seq::empty(),
        },
        Op::ForcePush(v) => seq![v],
        Op::Pop => Seq::empty(),
    }
}

/// The elements that `op` hands out: one or none.
pub open spec fn leaving<T>(s: Seq<T>, cap: nat, op: Op<T>) -> Seq<T> {
    let answer = match op {
        Op::Push(_) => None,
        Op::ForcePush(_) => force_push_answer(s, cap),
        Op::Pop => pop_answer(s),
    };
    match answer {
        Some(v) => seq![v],
        None => Seq::empty(),
    }
}

/// The elements after all of `ops`.
pub open spec fn after_all<T>(s: Seq<T>, cap: nat, ops: Seq<Op<T>>) -> Seq<T>
    decreases ops.len(),
{
    if ops.len() == 0 {
        s
    } else {
        after(after_all(s, cap, ops.drop_last()), cap, ops.last())
    }
}

/// All values that `ops` put into the queue, in order.
pub open spec fn arrivals<T>(s: Seq<T>, cap: nat, ops: Seq<Op<T>>) -> Seq<T>
    decreases ops.len(),
{
    if ops.len() == 0 {
        Seq::empty()
    } else {
        arrivals(s, cap, ops.drop_last()) + entering(
            after_all(s, cap, ops.drop_last()),
            cap,
            ops.last(),
        )
    }
}

/// All elements that `ops` hand out, in order.
pub open spec fn departures<T>(s: Seq<T>, cap: nat, ops: Seq<Op<T>>) -> Seq<T>
    decreases ops.len(),
{
    if ops.len() == 0 {
        Seq::empty()
    } else {
        departures(s, cap, ops.drop_last()) + leaving(
            after_all(s, cap, ops.drop_last()),
            cap,
            ops.last(),
        )
    }
}

/// First in, first out: whatever is done to a queue, the elements that have left
/// it, followed by those that are in it, are the elements it began with followed
/// by those that have come in, in the same order. Nothing is lost, made up,
/// doubled or overtaken.
pub proof fn law_fifo<T>(s: Seq<T>, cap: nat, ops: Seq<Op<T>>)
    requires
        cap > 0,
    ensures
        departures(s, cap, ops) + after_all(s, cap, ops) == s + arrivals(s, cap, ops),
    decreases ops.len(),
{
    if ops.len() == 0 {
        assert(Seq::<T>::empty() + s =~= s + Seq::<T>::empty());
    } else {
        let most = ops.drop_last();
        law_fifo(s, cap, most);
        let mid = after_all(s, cap, most);
        let op = ops.last();
        assert(leaving(mid, cap, op) + after(mid, cap, op) =~= mid + entering(mid, cap, op));
        assert(departures(s, cap, ops) + after_all(s, cap, ops) =~= departures(s, cap, most) + (
        leaving(mid, cap, op) + after(mid, cap, op)));
        assert(departures(s, cap, most) + (mid + entering(mid, cap, op)) =~= (departures(
            s,
            cap,
            most,
        ) + mid) + entering(mid, cap, op));
        assert((s + arrivals(s, cap, most)) + entering(mid, cap, op) =~= s + arrivals(s, cap, ops));
    }
}

/// A queue never holds more than its capacity.
pub proof fn law_bounded<T>(s: Seq<T>, cap: nat, ops: Seq<Op<T>>)
    requires
        cap > 0,
        s.len() <= cap,
    ensures
        after_all(s, cap, ops).len() <= cap,
    decreases ops.len(),
{
    if ops.len() > 0 {
        law_bounded(s, cap, ops.drop_last());
    }
}

/// The number of elements is that at the beginning, plus those that have come in,
/// minus those that have left.
pub proof fn law_length<T>(s: Seq<T>, cap: nat, ops: Seq<Op<T>>)
    requires
        cap > 0,
    ensures
        after_all(s, cap, ops).len() == s.len() + arrivals(s, cap, ops).len() - departures(
            s,
            cap,
            ops,
        ).len(),
{
    law_fifo(s, cap, ops);
    assert((departures(s, cap, ops) + after_all(s, cap, ops)).len() == departures(s, cap, ops).len()
        + after_all(s, cap, ops).len());
    assert((s + arrivals(s, cap, ops)).len() == s.len() + arrivals(s, cap, ops).len());
}

/// A push that gives back an element that somebody has taken never fails: while
/// more elements have left than have come in, there is room.
pub proof fn law_give_back<T>(s: Seq<T>, cap: nat, ops: Seq<Op<T>>, value: T)
    requires
        cap > 0,
        s.len() <= cap,
        arrivals(s, cap, ops).len() < departures(s, cap, ops).len(),
    ensures
        push_answer(after_all(s, cap, ops), cap, value) is Ok,
{
    law_length(s, cap, ops);
}

/// A pop for which somebody has put an element in never finds nothing: while more
/// elements have come in than have left, there is one.
pub proof fn law_take_out<T>(s: Seq<T>, cap: nat, ops: Seq<Op<T>>)
    requires
        cap > 0,
        departures(s, cap, ops).len() < s.len() + arrivals(s, cap, ops).len(),
    ensures
        pop_answer(after_all(s, cap, ops)) is Some,
{
    law_length(s, cap, ops);
}

/// A push fails exactly on a full queue, and then changes nothing; a pop finds
/// nothing exactly on an empty one, and then changes nothing.
pub proof fn law_refusals<T>(s: Seq<T>, cap: nat, value: T)
    ensures
        push_answer(s, cap, value) is Err <==> s.len() >= cap,
        push_answer(s, cap, value) is Err ==> push_answer(s, cap, value) == Err::<(), T>(value)
            && after_push(s, cap, value) == s,
        pop_answer(s) is None <==> s.len() == 0,
        pop_answer(s) is None ==> after_pop(s) == s,
{
}

/// Whoever has just taken an element finds room to put one back, however full
/// the queue was.
pub proof fn law_room_after_pop<T>(s: Seq<T>, cap: nat, value: T)
    requires
        s.len() <= cap,
        pop_answer(s) is Some,
    ensures
        push_answer(after_pop(s), cap, value) is Ok,
        after_push(after_pop(s), cap, value) == s.drop_first().push(value),
{
}

/// Whoever has just put an element in finds one to take.
pub proof fn law_element_after_push<T>(s: Seq<T>, cap: nat, value: T)
    requires
        push_answer(s, cap, value) is Ok,
    ensures
        pop_answer(after_push(s, cap, value)) is Some,
        s.len() == 0 ==> pop_answer(after_push(s, cap, value)) == Some(value) && after_pop(
            after_push(s, cap, value),
        ) == s,
{
    if s.len() == 0 {
        assert(s.push(value).drop_first() =~= s);
    }
}

/// A forced push with room is a push; without room it is a pop and a push.
pub proof fn law_force_push<T>(s: Seq<T>, cap: nat, value: T)
    requires
        0 < cap,
        s.len() <= cap,
    ensures
        s.len() < cap ==> {
            &&& after_force_push(s, cap, value) == after_push(s, cap, value)
            &&& force_push_answer(s, cap) is None
            &&& push_answer(s, cap, value) is Ok
        },
        s.len() == cap ==> {
            &&& after_force_push(s, cap, value) == after_push(after_pop(s), cap, value)
            &&& force_push_answer(s, cap) == pop_answer(s)
            &&& push_answer(after_pop(s), cap, value) is Ok
        },
{
}

/// The last `cap` elements of `s`, or all of them.
pub open spec fn newest<T>(s: Seq<T>, cap: nat) -> Seq<T> {
    if s.len() <= cap {
        s
    } else {
        s.skip(s.len() - cap)
    }
}

/// Ring mode: forced pushes leave the newest elements in the queue.
pub proof fn law_ring_mode<T>(s: Seq<T>, cap: nat, values: Seq<T>)
    requires
        0 < cap,
        s.len() <= cap,
    ensures
        after_all(s, cap, values.map_values(|v: T| Op::ForcePush(v))) == newest(s + values, cap),
    decreases values.len(),
{
    let ops = values.map_values(|v: T| Op::ForcePush(v));
    if values.len() == 0 {
        assert(s + values =~= s);
    } else {
        let most = values.drop_last();
        law_ring_mode(s, cap, most);
        assert(ops.drop_last() =~= most.map_values(|v: T| Op::ForcePush(v)));
        assert(newest(s + values, cap) =~= after_force_push(
            newest(s + most, cap),
            cap,
            values.last(),
        ));
    }
}

/// As many pops as there are elements hand them all out, oldest first.
pub proof fn law_drain<T>(s: Seq<T>, cap: nat, ops: Seq<Op<T>>)
    requires
        cap > 0,
        ops.len() == s.len(),
        forall|i: int| 0 <= i < ops.len() ==> #[trigger] ops[i] is Pop,
    ensures
        departures(s, cap, ops) == s,
        after_all(s, cap, ops) == Seq::<T>::empty(),
{
    lemma_pops(s, cap, ops);
    law_fifo(s, cap, ops);
    assert(s + Seq::<T>::empty() =~= s);
    assert(departures(s, cap, ops) + Seq::<T>::empty() =~= departures(s, cap, ops));
}

/// Pops let nothing in and shorten the queue one by one.
proof fn lemma_pops<T>(s: Seq<T>, cap: nat, ops: Seq<Op<T>>)
    requires
        ops.len() <= s.len(),
        forall|i: int| 0 <= i < ops.len() ==> #[trigger] ops[i] is Pop,
    ensures
        arrivals(s, cap, ops) =~= Seq::<T>::empty(),
        after_all(s, cap, ops) =~= s.skip(ops.len() as int),
    decreases ops.len(),
{
    if ops.len() > 0 {
        let most = ops.drop_last();
        assert forall|i: int| 0 <= i < most.len() implies #[trigger] most[i] is Pop by {
            assert(ops[i] is Pop);
        }
        lemma_pops(s, cap, most);
        assert(ops[ops.len() - 1] is Pop);
    }
}

} // verus!
