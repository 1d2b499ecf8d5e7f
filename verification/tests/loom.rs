use loom::sync::atomic::{fence, AtomicU64, Ordering};
use loom::sync::Arc;
use nure_queue::lap::Laps;
use nure_queue::protocol::{
    pop_action, pop_next, push_action, push_next, Action, Event, OnFull, Pause, PopState,
    PushState,
};
use nure_queue::Queue;

#[test]
fn loom_sequential_ops() {
    loom::model(|| {
        let mut q = Queue::<u32, 4>::new();
        assert!(q.is_empty());
        q.enqueue(10).unwrap();
        q.enqueue(20).unwrap();
        assert_eq!(q.len(), 2);
        assert_eq!(q.dequeue(), Some(10));
        assert_eq!(q.force_push(30), None);
        assert_eq!(q.force_push(40), None);
        q.enqueue(50).unwrap();
        assert!(q.is_full());
        assert_eq!(q.enqueue(60), Err(60));
        assert_eq!(q.force_push(60), Some(20));
        assert_eq!(q.pop(), Some(30));
        assert_eq!(q.pop(), Some(40));
        assert_eq!(q.pop(), Some(50));
        assert_eq!(q.pop(), Some(60));
        assert_eq!(q.pop(), None);
        assert!(q.is_empty());
    });
}

/// The protocol over loom's atomics. Elements are plain numbers in relaxed cells, so
/// a hand-over that the stamps do not order shows up as a stale number.
struct Shared {
    laps: Laps,
    head: AtomicU64,
    tail: AtomicU64,
    stamps: Vec<AtomicU64>,
    values: Vec<AtomicU64>,
}

impl Shared {
    fn new(cap: usize) -> Self {
        Shared {
            laps: Laps::new(cap),
            head: AtomicU64::new(0),
            tail: AtomicU64::new(0),
            stamps: (0..cap as u64).map(AtomicU64::new).collect(),
            values: (0..cap).map(|_| AtomicU64::new(0)).collect(),
        }
    }

    fn swap(cell: &AtomicU64, from: u64, to: u64) -> Event {
        match cell.compare_exchange_weak(from, to, Ordering::SeqCst, Ordering::Relaxed) {
            Ok(_) => Event::Swapped,
            Err(found) => Event::Found(found),
        }
    }

    fn perform(&self, action: Action, item: &mut u64) -> Event {
        match action {
            Action::LoadTail => Event::Loaded(self.tail.load(Ordering::Relaxed)),
            Action::LoadHead => Event::Loaded(self.head.load(Ordering::Relaxed)),
            Action::FenceLoadTail => {
                fence(Ordering::SeqCst);
                Event::Loaded(self.tail.load(Ordering::Relaxed))
            }
            Action::FenceLoadHead => {
                fence(Ordering::SeqCst);
                Event::Loaded(self.head.load(Ordering::Relaxed))
            }
            Action::LoadStamp(i) => Event::Loaded(self.stamps[i].load(Ordering::Acquire)),
            Action::SwapTail(from, to) => Self::swap(&self.tail, from, to),
            Action::SwapHead(from, to) => Self::swap(&self.head, from, to),
            Action::FenceSwapHead(from, to) => {
                fence(Ordering::SeqCst);
                Self::swap(&self.head, from, to)
            }
            Action::StoreTail(to) => {
                self.tail.store(to, Ordering::SeqCst);
                Event::Done
            }
            Action::StoreStamp(i, to) => {
                self.stamps[i].store(to, Ordering::Release);
                Event::Done
            }
            Action::Write(i) => {
                self.values[i].store(*item, Ordering::Relaxed);
                Event::Done
            }
            Action::Take(i) => {
                *item = self.values[i].load(Ordering::Relaxed);
                Event::Done
            }
            Action::Replace(i) => {
                let old = self.values[i].load(Ordering::Relaxed);
                self.values[i].store(*item, Ordering::Relaxed);
                *item = old;
                Event::Done
            }
            Action::Return => Event::Done,
        }
    }

    fn run_push(&self, value: u64, on_full: OnFull) -> (PushState, u64) {
        let mut item = value;
        let mut state = PushState::LoadTail;
        loop {
            let action = push_action(&self.laps, state);
            if action == Action::Return {
                return (state, item);
            }
            let event = self.perform(action, &mut item);
            let (next, pause) = push_next(&self.laps, on_full, state, event);
            state = next;
            if pause != Pause::Go {
                loom::thread::yield_now();
            }
        }
    }

    fn run_pop(&self) -> Option<u64> {
        let mut item = 0;
        let mut state = PopState::LoadHead;
        loop {
            let action = pop_action(&self.laps, state);
            if action == Action::Return {
                return if state == PopState::Taken { Some(item) } else { None };
            }
            let event = self.perform(action, &mut item);
            let (next, pause) = pop_next(&self.laps, state, event);
            state = next;
            if pause != Pause::Go {
                loom::thread::yield_now();
            }
        }
    }
}

#[test]
fn loom_push_and_pop_in_two_threads() {
    loom::model(|| {
        let q = Arc::new(Shared::new(1));
        let producer = Arc::clone(&q);
        let t = loom::thread::spawn(move || {
            assert_eq!(producer.run_push(7, OnFull::Reject).0, PushState::Stored);
        });
        let early = q.run_pop();
        t.join().unwrap();
        match early {
            Some(v) => assert_eq!(v, 7),
            None => assert_eq!(q.run_pop(), Some(7)),
        }
        assert_eq!(q.run_pop(), None);
    });
}

fn bounded() -> loom::model::Builder {
    let mut builder = loom::model::Builder::new();
    builder.preemption_bound = Some(2);
    builder
}

#[test]
fn loom_two_producers() {
    bounded().check(|| {
        let q = Arc::new(Shared::new(2));
        let other = Arc::clone(&q);
        let t = loom::thread::spawn(move || {
            assert_eq!(other.run_push(1, OnFull::Reject).0, PushState::Stored);
        });
        assert_eq!(q.run_push(2, OnFull::Reject).0, PushState::Stored);
        t.join().unwrap();
        assert_eq!(q.run_push(3, OnFull::Reject), (PushState::Rejected, 3));
        let a = q.run_pop().unwrap();
        let b = q.run_pop().unwrap();
        assert_eq!(a + b, 3);
        assert_eq!(a * b, 2);
        assert_eq!(q.run_pop(), None);
    });
}

#[test]
fn loom_forced_push_and_pop() {
    bounded().check(|| {
        let q = Arc::new(Shared::new(1));
        assert_eq!(q.run_push(1, OnFull::Reject).0, PushState::Stored);
        let other = Arc::clone(&q);
        let t = loom::thread::spawn(move || other.run_push(2, OnFull::Overwrite));
        let popped = q.run_pop();
        let (state, item) = t.join().unwrap();
        match popped {
            Some(1) => {
                assert_eq!(state, PushState::Stored);
                assert_eq!(q.run_pop(), Some(2));
            }
            _ => {
                assert_eq!(popped, Some(2));
                assert_eq!((state, item), (PushState::Replaced, 1));
                assert_eq!(q.run_pop(), None);
            }
        }
    });
}

#[test]
fn loom_give_back_on_a_full_queue() {
    bounded().check(|| {
        let q = Arc::new(Shared::new(2));
        assert_eq!(q.run_push(1, OnFull::Reject).0, PushState::Stored);
        assert_eq!(q.run_push(2, OnFull::Reject).0, PushState::Stored);
        let other = Arc::clone(&q);
        let t = loom::thread::spawn(move || {
            let v = other.run_pop().unwrap();
            assert_eq!(other.run_push(v, OnFull::Reject).0, PushState::Stored);
        });
        let v = q.run_pop().unwrap();
        assert_eq!(q.run_push(v, OnFull::Reject).0, PushState::Stored);
        t.join().unwrap();
        assert_eq!(q.run_pop().unwrap() + q.run_pop().unwrap(), 3);
    });
}
