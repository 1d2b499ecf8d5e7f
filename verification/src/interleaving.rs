//! Threads that share a queue.
//!
//! A [`world::World`] is the memory that the threads share together with what each
//! of them is doing. The threads run the machines of [`crate::protocol`], one memory
//! access at a time and in any order; moving an element counts as an access, and a
//! compare-and-exchange may fail without reason.
//!
//! - [`always`] states and proves what holds at every instant.
//! - [`linearizability`]: every operation takes effect at one instant between its
//!   call and its return, and answers as [`crate::model`] says at that instant.
//! - [`access`]: elements are never raced for, overwritten or read before they are
//!   written, and what `len`, `is_empty` and `is_full` see.
//! - [`cycles`]: threads that give back what they take are never refused, and threads
//!   that take out what they put in always find something.
//! - [`progress`]: threads go back only because of others, and some operation takes
//!   effect within a bounded number of accesses, unless a thread waits for one that
//!   has claimed a slot and not handed it on.
//!
//! Accesses are taken to happen one after the other; what weaker memory orderings
//! allow beyond that is not described. A thread that sleeps while cursors go all the
//! way round may mistake one cursor for another: [`world::in_step`] rules that out.

pub mod access;
pub mod always;
pub mod cycles;
pub mod linearizability;
pub mod progress;
pub mod world;
