//! Every interleaving of a few small threads that run the protocol.

use nure_queue::lap::Laps;
use nure_queue::protocol::{
    pop_action, pop_next, push_action, push_next, Action, Event, OnFull, Pause, PopState,
    PushState,
};
use std::collections::HashSet;

#[derive(Debug, Clone, Copy, PartialEq, Eq)]
enum Task {
    Push(u32),
    ForcePush(u32),
    Pop,
    /// Pop, then push what was popped.
    Cycle,
}

#[derive(Debug, Clone, PartialEq, Eq)]
enum Doing {
    Nothing,
    Push(OnFull, PushState),
    Pop(PopState),
}

#[derive(Debug, Clone)]
struct Thread {
    tasks: Vec<Task>,
    doing: Doing,
    item: Option<u32>,
    refused: Vec<u32>,
    got: Vec<u32>,
    missed: u32,
}

impl Thread {
    fn new(tasks: &[Task]) -> Self {
        Thread {
            tasks: tasks.to_vec(),
            doing: Doing::Nothing,
            item: None,
            refused: Vec::new(),
            got: Vec::new(),
            missed: 0,
        }
    }

    fn done(&self) -> bool {
        self.tasks.is_empty()
    }

    fn push(&mut self, v: u32, on_full: OnFull) {
        self.item = Some(v);
        self.doing = Doing::Push(on_full, PushState::LoadTail);
    }
}

#[derive(Debug, Clone)]
struct World {
    laps: Laps,
    head: u64,
    tail: u64,
    stamps: Vec<u64>,
    values: Vec<Option<u32>>,
    threads: Vec<Thread>,
}

impl World {
    fn new(cap: usize, filled: &[u32], threads: &[&[Task]]) -> Self {
        World::with(Laps::new(cap), filled, threads)
    }

    fn with(laps: Laps, filled: &[u32], threads: &[&[Task]]) -> Self {
        let cap = laps.cap;
        let mut w = World {
            laps,
            head: 0,
            tail: 0,
            stamps: (0..cap as u64).collect(),
            values: vec![None; cap],
            threads: Vec::new(),
        };
        for &v in filled {
            w.threads = vec![Thread::new(&[Task::Push(v)])];
            while !w.threads[0].done() {
                w.step(0, true);
            }
        }
        w.threads = threads.iter().map(|tasks| Thread::new(tasks)).collect();
        w
    }

    /// Lets thread `id` finish its tasks alone, and counts its accesses.
    fn finish(&mut self, id: usize) -> usize {
        let mut accesses = 0;
        while !self.threads[id].done() {
            if self.threads[id].doing != Doing::Nothing {
                accesses += 1;
            }
            self.step(id, true);
        }
        accesses
    }

    fn action(&self, id: usize) -> Option<Action> {
        match self.threads[id].doing {
            Doing::Nothing => None,
            Doing::Push(_, s) => Some(push_action(&self.laps, s)),
            Doing::Pop(s) => Some(pop_action(&self.laps, s)),
        }
    }

    fn perform(&mut self, action: Action, item: &mut Option<u32>, luck: bool) -> Event {
        match action {
            Action::LoadTail | Action::FenceLoadTail => Event::Loaded(self.tail),
            Action::LoadHead | Action::FenceLoadHead => Event::Loaded(self.head),
            Action::LoadStamp(i) => Event::Loaded(self.stamps[i]),
            Action::SwapTail(from, to) => {
                if luck && self.tail == from {
                    self.tail = to;
                    Event::Swapped
                } else {
                    Event::Found(self.tail)
                }
            }
            Action::SwapHead(from, to) | Action::FenceSwapHead(from, to) => {
                if luck && self.head == from {
                    self.head = to;
                    Event::Swapped
                } else {
                    Event::Found(self.head)
                }
            }
            Action::StoreTail(to) => {
                self.tail = to;
                Event::Done
            }
            Action::StoreStamp(i, to) => {
                self.stamps[i] = to;
                Event::Done
            }
            Action::Write(i) => {
                assert_eq!(self.values[i], None);
                self.values[i] = item.take();
                Event::Done
            }
            Action::Take(i) => {
                assert!(self.values[i].is_some());
                *item = self.values[i].take();
                Event::Done
            }
            Action::Replace(i) => {
                assert!(self.values[i].is_some());
                std::mem::swap(item, &mut self.values[i]);
                Event::Done
            }
            Action::Return => unreachable!(),
        }
    }

    /// One access of thread `id`, or the beginning of its next task.
    fn step(&mut self, id: usize, luck: bool) {
        let mut t = self.threads[id].clone();
        match t.doing.clone() {
            Doing::Nothing => match t.tasks[0] {
                Task::Push(v) => t.push(v, OnFull::Reject),
                Task::ForcePush(v) => t.push(v, OnFull::Overwrite),
                Task::Pop | Task::Cycle => {
                    t.item = None;
                    t.doing = Doing::Pop(PopState::LoadHead);
                }
            },
            Doing::Push(on_full, s) => {
                let action = push_action(&self.laps, s);
                let event = self.perform(action, &mut t.item, luck);
                let (next, _) = push_next(&self.laps, on_full, s, event);
                t.doing = Doing::Push(on_full, next);
                match next {
                    PushState::Stored => {
                        assert_eq!(t.item, None);
                        t.doing = Doing::Nothing;
                        t.tasks.remove(0);
                    }
                    PushState::Rejected => {
                        t.refused.push(t.item.take().unwrap());
                        t.doing = Doing::Nothing;
                        t.tasks.remove(0);
                    }
                    PushState::Replaced => {
                        t.got.push(t.item.take().unwrap());
                        t.doing = Doing::Nothing;
                        t.tasks.remove(0);
                    }
                    _ => {}
                }
            }
            Doing::Pop(s) => {
                let action = pop_action(&self.laps, s);
                let event = self.perform(action, &mut t.item, luck);
                let (next, _) = pop_next(&self.laps, s, event);
                t.doing = Doing::Pop(next);
                let over = next == PopState::Taken || next == PopState::Empty;
                if over {
                    match (t.tasks[0], t.item.take()) {
                        (Task::Cycle, Some(v)) => t.push(v, OnFull::Reject),
                        (_, Some(v)) => {
                            t.got.push(v);
                            t.doing = Doing::Nothing;
                            t.tasks.remove(0);
                        }
                        (_, None) => {
                            t.missed += 1;
                            t.doing = Doing::Nothing;
                            t.tasks.remove(0);
                        }
                    }
                }
            }
        }
        self.threads[id] = t;
    }

    fn payload_slot(&self, id: usize) -> Option<usize> {
        match self.action(id) {
            Some(Action::Write(i)) | Some(Action::Take(i)) | Some(Action::Replace(i)) => Some(i),
            _ => None,
        }
    }

    fn contents(&self) -> Vec<u32> {
        let n = self.laps.occupied(self.head, self.tail);
        (0..n).map(|i| self.values[self.laps.nth_slot(self.head, i)].unwrap()).collect()
    }
}

/// Visits every world that can come about, and hands `check` those in which all
/// threads are done.
fn explore<F: FnMut(&World)>(start: World, mut check: F) -> usize {
    let mut seen: HashSet<String> = HashSet::new();
    let mut open = vec![start];
    let mut finished = 0;
    while let Some(w) = open.pop() {
        if !seen.insert(format!("{:?}", w)) {
            continue;
        }
        let n = w.threads.len();
        for a in 0..n {
            for b in 0..a {
                if let Some(i) = w.payload_slot(a) {
                    assert_ne!(w.payload_slot(b), Some(i), "two threads in one slot");
                }
            }
        }
        if w.threads.iter().all(|t| t.done()) {
            finished += 1;
            check(&w);
        }
        for id in 0..n {
            if !w.threads[id].done() {
                for luck in [true, false] {
                    let mut v = w.clone();
                    v.step(id, luck);
                    open.push(v);
                }
            }
        }
    }
    finished
}

fn sorted(mut v: Vec<u32>) -> Vec<u32> {
    v.sort_unstable();
    v
}

#[test]
fn full_queue_never_refuses_what_was_taken_from_it() {
    for cap in 1..4usize {
        let filled: Vec<u32> = (0..cap as u32).collect();
        let start = World::new(cap, &filled, &[&[Task::Cycle, Task::Cycle], &[Task::Cycle]]);
        let finished = explore(start, |w| {
            for t in &w.threads {
                assert!(t.refused.is_empty());
                if cap > 2 {
                    assert_eq!(t.missed, 0);
                }
            }
            assert_eq!(sorted(w.contents()), filled);
        });
        assert!(finished > 0);
    }
}

#[test]
fn pop_after_own_push_finds_an_element() {
    let tasks: &[Task] = &[Task::Push(1), Task::Pop];
    let start = World::new(3, &[], &[tasks, &[Task::Push(2), Task::Pop]]);
    let finished = explore(start, |w| {
        let mut all = Vec::new();
        for t in &w.threads {
            assert!(t.refused.is_empty());
            assert_eq!(t.missed, 0);
            all.extend(t.got.clone());
        }
        assert_eq!(sorted(all), vec![1, 2]);
        assert!(w.contents().is_empty());
    });
    assert!(finished > 0);
}

#[test]
fn producers_and_consumer_conserve_elements() {
    for cap in 1..3 {
        let start = World::new(
            cap,
            &[],
            &[&[Task::Push(1), Task::Push(2)], &[Task::Push(10)], &[Task::Pop, Task::Pop]],
        );
        let finished = explore(start, |w| {
            let mut all = w.contents();
            for t in &w.threads {
                all.extend(t.refused.clone());
                all.extend(t.got.clone());
            }
            assert_eq!(sorted(all), vec![1, 2, 10]);
            let mut order = w.threads[2].got.clone();
            order.extend(w.contents());
            let one = order.iter().position(|&v| v == 1);
            let two = order.iter().position(|&v| v == 2);
            if let (Some(a), Some(b)) = (one, two) {
                assert!(a < b);
            }
        });
        assert!(finished > 0);
    }
}

#[test]
fn forced_pushes_race_with_a_pop() {
    for cap in 1..3usize {
        let filled: Vec<u32> = (0..cap as u32).collect();
        let start = World::new(
            cap,
            &filled,
            &[&[Task::ForcePush(10)], &[Task::ForcePush(20)], &[Task::Pop]],
        );
        let finished = explore(start, |w| {
            let mut all = w.contents();
            for t in &w.threads {
                assert!(t.refused.is_empty());
                assert_eq!(t.missed, 0);
                all.extend(t.got.clone());
            }
            let mut expected = filled.clone();
            expected.extend([10, 20]);
            assert_eq!(sorted(all), expected);
        });
        assert!(finished > 0);
    }
}

#[test]
fn one_thread_is_done_after_few_accesses() {
    let laps = Laps::new(2);
    let mut w = World::new(2, &[], &[&[Task::Push(1)]]);
    let mut accesses = 0;
    w.step(0, true);
    while !w.threads[0].done() {
        w.step(0, true);
        accesses += 1;
    }
    assert_eq!(accesses, 5);
    let mut w = World::new(2, &[1, 2], &[&[Task::ForcePush(3)]]);
    accesses = 0;
    w.step(0, true);
    while !w.threads[0].done() {
        w.step(0, true);
        accesses += 1;
    }
    assert_eq!(accesses, 6);
    assert_eq!(w.threads[0].got, vec![1]);
    assert_eq!(w.contents(), vec![2, 3]);
    assert_eq!(laps.one_lap, w.laps.one_lap);
}

#[test]
fn failed_claims_rest_and_read_again() {
    let laps = Laps::new(2);
    let claim = PushState::ClaimTail(0);
    assert_eq!(push_action(&laps, claim), Action::SwapTail(0, 1));
    assert_eq!(
        push_next(&laps, OnFull::Reject, claim, Event::Found(1)),
        (PushState::LoadStamp(1), Pause::Spin)
    );
    assert_eq!(
        push_next(&laps, OnFull::Reject, PushState::LoadStamp(1), Event::Loaded(9)),
        (PushState::LoadTail, Pause::Snooze)
    );
    assert_eq!(
        push_next(&laps, OnFull::Reject, PushState::LoadStamp(4), Event::Loaded(1)),
        (PushState::CheckHead(4), Pause::Go)
    );
    assert_eq!(
        push_next(&laps, OnFull::Reject, PushState::CheckHead(4), Event::Loaded(0)),
        (PushState::Rejected, Pause::Go)
    );
    assert_eq!(
        push_next(&laps, OnFull::Reject, PushState::CheckHead(4), Event::Loaded(1)),
        (PushState::LoadTail, Pause::Spin)
    );
    assert_eq!(
        push_next(&laps, OnFull::Overwrite, PushState::LoadStamp(4), Event::Loaded(1)),
        (PushState::ClaimHead(4), Pause::Go)
    );
    assert_eq!(
        push_action(&laps, PushState::ClaimHead(4)),
        Action::FenceSwapHead(0, 1)
    );
    assert_eq!(
        pop_next(&laps, PopState::ClaimHead(0), Event::Found(4)),
        (PopState::LoadStamp(4), Pause::Spin)
    );
    assert_eq!(
        pop_next(&laps, PopState::LoadStamp(0), Event::Loaded(4)),
        (PopState::LoadHead, Pause::Snooze)
    );
    assert_eq!(
        pop_next(&laps, PopState::CheckTail(0), Event::Loaded(1)),
        (PopState::LoadHead, Pause::Spin)
    );
    assert_eq!(
        pop_next(&laps, PopState::CheckTail(0), Event::Loaded(0)),
        (PopState::Empty, Pause::Go)
    );
    assert_eq!(pop_action(&laps, PopState::Release(1)), Action::StoreStamp(1, 5));
    assert_eq!(
        pop_next(&laps, PopState::Take(1), Event::Loaded(7)),
        (PopState::Take(1), Pause::Go)
    );
}

#[test]
fn as_many_threads_as_slots_find_what_they_put_in() {
    let one: &[Task] = &[Task::Push(1), Task::Pop, Task::Push(3), Task::Pop];
    let two: &[Task] = &[Task::Push(2), Task::Pop];
    let finished = explore(World::new(2, &[], &[one, two]), |w| {
        for t in &w.threads {
            assert!(t.refused.is_empty());
            assert_eq!(t.missed, 0);
        }
        assert!(w.contents().is_empty());
    });
    assert!(finished > 0);
}

#[test]
fn cursors_that_wrap_change_nothing() {
    let laps = Laps::within(2, 31);
    let mut w = World::with(laps, &[0, 1], &[&[]]);
    for v in 2..15 {
        w.threads = vec![Thread::new(&[Task::Pop, Task::Push(v)])];
        w.finish(0);
        assert_eq!(w.threads[0].got, vec![v - 2]);
        assert_eq!(w.contents(), vec![v - 1, v]);
    }
    assert_eq!((w.head, w.tail), (25, 29));
    w.threads = vec![Thread::new(&[Task::Cycle, Task::Cycle]), Thread::new(&[Task::ForcePush(9)])];
    let finished = explore(w, |w| {
        let mut all = w.contents();
        for t in &w.threads {
            all.extend(t.got.clone());
            all.extend(t.refused.clone());
        }
        assert_eq!(sorted(all), vec![9, 13, 14]);
    });
    assert!(finished > 0);
}

#[test]
fn a_thread_stopped_without_a_slot_holds_up_nobody() {
    // Stopped before each of its accesses up to the claim.
    for stop in [1, 2, 3] {
        let mut w = World::new(2, &[1], &[&[Task::Push(5)], &[Task::Pop, Task::Push(6), Task::Pop]]);
        for _ in 0..stop {
            w.step(0, true);
        }
        assert!(w.finish(1) <= 8 * 3);
        assert_eq!(w.threads[1].got, vec![1, 6]);
        w.finish(0);
        assert_eq!(w.contents(), vec![5]);
    }
}

#[test]
fn a_pop_waits_for_the_oldest_slot_to_be_filled() {
    let mut w = World::new(2, &[], &[&[Task::Push(5)], &[Task::Pop]]);
    while w.action(0) != Some(Action::Write(0)) {
        w.step(0, true);
    }
    for _ in 0..100 {
        w.step(1, true);
        assert!(!w.threads[1].done());
    }
    w.finish(0);
    w.finish(1);
    assert_eq!(w.threads[1].got, vec![5]);
}

#[test]
fn a_claimed_slot_holds_up_only_those_who_need_it() {
    // A producer that has claimed the second slot does not hold up a pop of the first.
    let mut w = World::new(2, &[1], &[&[Task::Push(5)], &[Task::Pop]]);
    while w.action(0) != Some(Action::Write(1)) {
        w.step(0, true);
    }
    assert!(w.finish(1) <= 8);
    assert_eq!(w.threads[1].got, vec![1]);
}

#[test]
fn elements_lie_in_the_slots_from_the_head_on() {
    let laps = Laps::new(3);
    let mut w = World::with(laps, &[1, 2, 3], &[&[Task::Pop, Task::Pop, Task::Push(4)]]);
    w.finish(0);
    assert_eq!(laps.occupied(w.head, w.tail), 2);
    assert_eq!(laps.nth_slot(w.head, 0), 2);
    assert_eq!(laps.nth_slot(w.head, 1), 0);
    assert_eq!(w.values, vec![Some(4), None, Some(3)]);
}
