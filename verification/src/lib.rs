//! Shared-memory message exchange between a master process and its workers.
//!
//! Every ordered pair of distinct workers `(writer, reader)` owns one message
//! cell in a shared memory region; a named semaphore per pair guards it.
//! This crate holds the layout of that region, the naming of the semaphores,
//! and the reading and writing of messages, with their contracts.

pub mod layout;
pub mod naming;
pub mod builder;
pub mod exchange;
pub mod meta;
pub mod sema;
