# nure-queue

A bounded multi-producer multi-consumer first-in first-out queue (Vyukov's slot
protocol) with inline storage: no heap, no allocator. Verified with
[Verus](https://github.com/verus-lang/verus).

## The queue

```rust
use nure_queue::Queue;

let mut q = Queue::<u32, 8>::new();
q.enqueue(1).unwrap();
assert_eq!(q.dequeue(), Some(1));
```

`new`, `push`/`pop`, `enqueue`/`dequeue` (the same under other names), `force_push`
(on a full queue, takes the place of the oldest element), `len`, `is_empty`,
`is_full`, `capacity`. Elements that are left are dropped with the queue, from the
oldest on; the proofs cover that all are, the tests cover the order.

## Layout

- `src/`: the verified library.
  - `queue.rs`: the queue in the hands of one owner, with exact contracts over the
    sequence of its elements.
  - `model.rs`: what a queue means, and its laws.
  - `lap.rs`, `slot.rs`, `ring.rs`: cursor arithmetic and storage. Cursors may wrap
    around; the contracts hold across the wrap.
  - `protocol.rs`: what threads do to share a queue, as two state machines that
    decide on memory accesses and leave making them to the caller.
  - `interleaving/`: threads that run these machines, one access at a time in any
    order, see one queue: linearizability, no races for elements, progress, and no
    refusal for threads that only give back what they have taken.
  - `backoff.rs`: exponential backoff.
- `app/`: the queue that threads share through a plain reference and that a `static`
  can hold. It makes the accesses that the protocol asks for, with atomics and
  `unsafe` cells; its retry loops end only when other threads let them. Cursors are
  64 bits wide, or as wide as a pointer where atomics go no further. With the
  `std` feature, long rests yield the processor; with `--cfg loom` it runs on loom's
  types, and `--cfg fuzzing` adds a differential fuzz target.
- `tests/`: scenarios, random operations against a `VecDeque`, every interleaving of
  a few small threads, and the protocol under loom.

## What is trusted

`core::array::from_fn`, which makes the slots, and `core::hint::spin_loop`, of which
nothing is claimed.

## What is not covered

The interleaving laws take memory accesses to happen one after the other; the memory
orderings that `protocol.rs` documents are checked by the loom tests on small cases
only. A consumer can wait for a producer that stopped between claiming a slot and
filling it, and the other way round: no law says that such a wait ends. Threads that
stop anywhere else hold up nobody.
