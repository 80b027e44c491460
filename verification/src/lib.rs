//! A single-node durable message-queue engine.
//!
//! Producers enqueue opaque JSON payloads into named queues; consumers lease
//! messages for a bounded visibility window, then acknowledge (delete) or
//! negatively acknowledge (requeue with delay and attempt counting, dropping
//! once a per-queue maximum is reached).
//!
//! The queue semantics live in [`queue`], stated over the in-memory [`store::Store`]
//! model of the two persisted relations (queues, messages). Each operation
//! carries a contract that pins down exactly which rows it reads, writes and
//! returns; the quantified guarantees of the protocol (lease exclusivity,
//! attempt monotonicity, drop-on-limit, FIFO selection) are proved in [`laws`].

pub mod cli;
pub mod errors;
pub mod json;
pub mod laws;
pub mod models;
pub mod queue;
pub mod server;
pub mod store;
