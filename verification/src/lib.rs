//! A read-copy-update lock over explicit state.
//!
//! An [`Rcu`] holds the latest value of a single writer, and the earlier values that some
//! [`Reader`] may still be using. A reader takes the latest value with [`Reader::read`], and keeps
//! that value until its last [`Guard`] is given back. Every value is stamped with the epoch in
//! which it was written, every reader publishes the epoch of the value it holds, and a value is
//! reclaimed as soon as all registered readers have published a later epoch.
//!
//! What a lock's write side and its readers have in common, [`Shared`], is an argument of every
//! operation of a reader, so that contracts say what a call changes. It outlives the write side. A
//! handle for concurrent use shares a lock between threads, and leaves the decisions to
//! [`Writer`] and [`Cursor`].
//!
//! The module [`model`] says what the state of a lock is and what every operation does to it. The
//! module [`laws`] holds what follows for the lock as a whole, and [`interleaving`] what holds when
//! the steps of readers and writer come in any order.

mod callers;
mod cursor;
pub mod interleaving;
pub mod laws;
pub mod model;
mod per_thread;
mod rcu;
mod registry;
mod writer;

pub use cursor::Cursor;
pub use model::{is_live, StampedValue, NOT_IN_USE};
pub use per_thread::ThreadLocal;
pub use rcu::{Guard, Pointer, Rcu, Reader, Shared};
pub use writer::Writer;
