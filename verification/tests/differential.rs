//! Random operations keep the queue observably identical to a `VecDeque`.

use nure_queue::Queue;
use std::collections::VecDeque;
use std::sync::atomic::{AtomicUsize, Ordering};
use std::sync::Arc;

#[derive(Debug, Clone, Copy)]
enum Op {
    Push(u8),
    Pop,
    ForcePush(u8),
    Len,
    IsEmpty,
    IsFull,
}

/// A small linear congruential generator.
struct Dice(u64);

impl Dice {
    fn roll(&mut self) -> u64 {
        self.0 = self.0.wrapping_mul(6364136223846793005).wrapping_add(1442695040888963407);
        self.0 >> 33
    }

    fn ops(&mut self) -> Vec<Op> {
        let n = 1 + self.roll() % 2000;
        let mut ops = Vec::new();
        for _ in 0..n {
            let v = (self.roll() % 256) as u8;
            ops.push(match self.roll() % 6 {
                0 => Op::Push(v),
                1 => Op::Pop,
                2 => Op::ForcePush(v),
                3 => Op::Len,
                4 => Op::IsEmpty,
                _ => Op::IsFull,
            });
        }
        ops
    }
}

fn check_ops<const N: usize>(ops: &[Op]) {
    let mut q = Queue::<u8, N>::new();
    let mut model: VecDeque<u8> = VecDeque::new();
    for &op in ops {
        match op {
            Op::Push(v) => {
                let r = q.push(v);
                if model.len() < N {
                    model.push_back(v);
                    assert_eq!(r, Ok(()));
                } else {
                    assert_eq!(r, Err(v));
                }
            }
            Op::Pop => {
                assert_eq!(q.pop(), model.pop_front());
            }
            Op::ForcePush(v) => {
                let r = q.force_push(v);
                let expected = if model.len() == N { model.pop_front() } else { None };
                model.push_back(v);
                assert_eq!(r, expected);
            }
            Op::Len => assert_eq!(q.len(), model.len()),
            Op::IsEmpty => assert_eq!(q.is_empty(), model.is_empty()),
            Op::IsFull => assert_eq!(q.is_full(), model.len() == N),
        }
    }
}

#[test]
fn differential_vs_vecdeque() {
    let mut dice = Dice(1);
    for _ in 0..512 {
        let ops = dice.ops();
        check_ops::<1>(&ops);
        check_ops::<3>(&ops);
        check_ops::<16>(&ops);
    }
}

#[derive(Debug)]
struct Counted {
    v: u8,
    drops: Arc<AtomicUsize>,
}

impl Drop for Counted {
    fn drop(&mut self) {
        self.drops.fetch_add(1, Ordering::SeqCst);
    }
}

fn check_drops<const N: usize>(ops: &[Op], drain: bool) {
    let drops = Arc::new(AtomicUsize::new(0));
    let mut pushed_ok = 0usize;
    let mut failed = 0usize;
    {
        let mut q = Queue::<Counted, N>::new();
        let mut model: VecDeque<u8> = VecDeque::new();
        for &op in ops {
            match op {
                Op::Push(v) => {
                    let item = Counted { v, drops: Arc::clone(&drops) };
                    match q.push(item) {
                        Ok(()) => {
                            assert!(model.len() < N);
                            model.push_back(v);
                            pushed_ok += 1;
                        }
                        Err(returned) => {
                            assert_eq!(model.len(), N);
                            drop(returned);
                            failed += 1;
                        }
                    }
                }
                Op::Pop => {
                    assert_eq!(q.pop().map(|c| c.v), model.pop_front());
                }
                Op::ForcePush(v) => {
                    let r = q.force_push(Counted { v, drops: Arc::clone(&drops) });
                    if model.len() == N {
                        let old = model.pop_front().unwrap();
                        model.push_back(v);
                        assert_eq!(r.map(|c| c.v), Some(old));
                    } else {
                        assert!(r.is_none());
                        model.push_back(v);
                    }
                    pushed_ok += 1;
                }
                Op::Len => assert_eq!(q.len(), model.len()),
                Op::IsEmpty => assert_eq!(q.is_empty(), model.is_empty()),
                Op::IsFull => assert_eq!(q.is_full(), model.len() == N),
            }
        }
        while drain && q.pop().is_some() {}
    }
    assert_eq!(drops.load(Ordering::SeqCst), pushed_ok + failed);
}

#[test]
fn drops_match_pushes() {
    let mut dice = Dice(2);
    for round in 0..256 {
        let ops = dice.ops();
        check_drops::<1>(&ops, round % 2 == 0);
        check_drops::<8>(&ops, round % 2 == 0);
    }
}
