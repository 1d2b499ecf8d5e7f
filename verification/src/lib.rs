//! A bounded multi-producer multi-consumer first-in first-out queue.
//!
//! - [`Queue`] is the queue in the hands of one owner.
//! - [`model`] says what a queue means, and states its laws.
//! - [`lap`] is the arithmetic of cursors, [`slot`] and [`ring`] the storage,
//!   [`disposal`] the place where elements end that nobody takes out.
//! - [`protocol`] is what threads do to share a queue without locks: two state
//!   machines that decide on memory accesses and leave making them to the caller.
//! - [`interleaving`] shows that threads that follow the protocol, in whatever
//!   order their accesses happen, see one queue.
//! - [`backoff`] passes the time between attempts.

pub mod backoff;
pub mod disposal;
pub mod interleaving;
pub mod lap;
pub mod model;
pub mod protocol;
pub mod queue;
pub mod ring;
pub mod slot;

pub use crate::queue::Queue;
