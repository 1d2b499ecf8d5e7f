//! The laws of the queue on concrete values.

use nure_queue::Queue;

fn drain<const N: usize>(q: &mut Queue<u32, N>) -> Vec<u32> {
    let mut out = Vec::new();
    while let Some(v) = q.pop() {
        out.push(v);
    }
    out
}

#[test]
fn fifo_departures_then_contents_are_the_arrivals() {
    let mut q = Queue::<u32, 3>::new();
    let mut arrived = Vec::new();
    let mut left = Vec::new();
    for v in 0..20 {
        if v % 3 == 0 {
            arrived.push(v);
            left.extend(q.force_push(v));
        } else if q.push(v).is_ok() {
            arrived.push(v);
        }
        if v % 5 == 0 {
            left.extend(q.pop());
        }
        assert_eq!(q.len(), arrived.len() - left.len());
        assert!(q.len() <= q.capacity());
    }
    left.extend(drain(&mut q));
    assert_eq!(left, arrived);
}

#[test]
fn refusals_change_nothing() {
    let mut q = Queue::<u32, 2>::new();
    assert_eq!(q.pop(), None);
    q.push(1).unwrap();
    q.push(2).unwrap();
    assert_eq!(q.push(3), Err(3));
    assert_eq!(q.len(), 2);
    assert_eq!(drain(&mut q), vec![1, 2]);
    assert_eq!(q.dequeue(), None);
}

#[test]
fn room_after_pop_on_a_full_queue() {
    let mut q = Queue::<u32, 4>::new();
    for v in 0..4 {
        q.push(v).unwrap();
    }
    for _ in 0..1000 {
        let v = q.dequeue().unwrap();
        assert_eq!(q.enqueue(v), Ok(()));
        assert!(q.is_full());
    }
    assert_eq!(drain(&mut q), vec![0, 1, 2, 3]);
}

#[test]
fn element_after_push() {
    let mut q = Queue::<u32, 4>::new();
    for v in 0..1000 {
        q.enqueue(v).unwrap();
        assert_eq!(q.dequeue(), Some(v));
    }
}

#[test]
fn ring_mode_keeps_the_newest() {
    let mut q = Queue::<u32, 3>::new();
    let mut replaced = Vec::new();
    for v in 0..8 {
        replaced.extend(q.force_push(v));
    }
    assert_eq!(replaced, vec![0, 1, 2, 3, 4]);
    assert_eq!(drain(&mut q), vec![5, 6, 7]);
}
