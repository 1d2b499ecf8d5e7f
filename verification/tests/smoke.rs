use nure_queue::Queue;
use std::sync::atomic::{AtomicUsize, Ordering};
use std::sync::{Arc, Mutex};

#[test]
fn fifo_order_and_full_empty() {
    let mut q = Queue::<u32, 4>::new();
    assert!(q.is_empty());
    assert_eq!(q.len(), 0);
    assert_eq!(q.capacity(), 4);
    for i in 0..4 {
        q.enqueue(i).unwrap();
    }
    assert!(q.is_full());
    assert_eq!(q.enqueue(99), Err(99));
    assert_eq!(q.len(), 4);
    for i in 0..4 {
        assert_eq!(q.dequeue(), Some(i));
    }
    assert_eq!(q.dequeue(), None);
    assert!(q.is_empty());
}

/// The queue lies inline in a static, which is filled at run time.
#[test]
fn static_construction_no_alloc() {
    static Q: Mutex<Option<Queue<u32, 8>>> = Mutex::new(None);
    let mut guard = Q.lock().unwrap();
    let q = guard.get_or_insert_with(Queue::new);
    q.enqueue(7).unwrap();
    assert_eq!(q.dequeue(), Some(7));
}

#[test]
fn force_push_ring_mode() {
    let mut q = Queue::<u32, 2>::new();
    assert_eq!(q.force_push(1), None);
    assert_eq!(q.force_push(2), None);
    assert_eq!(q.force_push(3), Some(1));
    assert_eq!(q.pop(), Some(2));
    assert_eq!(q.pop(), Some(3));
}

#[derive(Debug)]
struct Counted {
    drops: Arc<AtomicUsize>,
    _id: u32,
}

impl Drop for Counted {
    fn drop(&mut self) {
        self.drops.fetch_add(1, Ordering::SeqCst);
    }
}

#[test]
fn drops_remaining_items() {
    let drops = Arc::new(AtomicUsize::new(0));
    {
        let mut q = Queue::<Counted, 8>::new();
        for i in 0..5 {
            q.push(Counted { drops: Arc::clone(&drops), _id: i }).unwrap();
        }
        // Pop moves one out; the temporary drops at end of statement.
        assert!(q.pop().is_some());
        assert_eq!(drops.load(Ordering::SeqCst), 1);
        // 4 remain: queue `Drop` must release them.
    }
    assert_eq!(drops.load(Ordering::SeqCst), 5);
}

struct Logged {
    log: Arc<Mutex<Vec<u32>>>,
    id: u32,
}

impl Drop for Logged {
    fn drop(&mut self) {
        self.log.lock().unwrap().push(self.id);
    }
}

#[test]
fn drops_oldest_first_across_the_wrap() {
    let log = Arc::new(Mutex::new(Vec::new()));
    {
        let mut q = Queue::<Logged, 3>::new();
        for id in 0..5 {
            drop(q.force_push(Logged { log: Arc::clone(&log), id }));
        }
        assert_eq!(*log.lock().unwrap(), vec![0, 1]);
    }
    assert_eq!(*log.lock().unwrap(), vec![0, 1, 2, 3, 4]);
}

#[test]
fn default_is_empty() {
    let mut q = Queue::<u8, 3>::default();
    assert!(q.is_empty());
    assert!(!q.is_full());
    assert_eq!(q.capacity(), 3);
    assert_eq!(q.pop(), None);
}

#[test]
fn debug_text_hides_elements() {
    let mut q = Queue::<u8, 3>::new();
    q.push(1).unwrap();
    assert_eq!(q.debug_text(), "Queue { .. }");
}

#[test]
fn capacity_one() {
    let mut q = Queue::<u32, 1>::new();
    for i in 0..10 {
        assert_eq!(q.push(i), Ok(()));
        assert!(q.is_full());
        assert_eq!(q.push(100), Err(100));
        assert_eq!(q.force_push(i + 50), Some(i));
        assert_eq!(q.len(), 1);
        assert_eq!(q.pop(), Some(i + 50));
        assert!(q.is_empty());
    }
}
