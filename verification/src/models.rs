//! The two persisted records (queues and messages) and small value types
//! shared by the engine and its surfaces.

use vstd::prelude::*;

verus! {

/// A named queue. `max_attempts` is the number of failed deliveries after
/// which a message of this queue is dropped.
#[derive(Debug)]
pub struct Queue {
    pub id: i64,
    pub name: String,
    pub max_attempts: i32,
}

/// A message owned by exactly one queue. The payload is opaque JSON text;
/// `available_at` both orders delivery (FIFO by availability) and, once
/// advanced by a poll, acts as the lease deadline.
#[derive(Debug)]
pub struct Message {
    pub id: i64,
    pub queue_id: i64,
    pub payload: String,
    pub attempts: i32,
    pub available_at: i64,
    pub created_at: i64,
}

/// Per-queue statistics: how many messages are ready (available now).
#[derive(Debug)]
pub struct QueueStats {
    pub ready: u64,
}

/// Where the database file lives and whether to recreate it from scratch.
#[derive(Debug)]
pub struct Config {
    pub db_path: String,
    pub force_recreate: bool,
}

impl Default for Config {
    /// The default database file, relative to the working directory.
    fn default() -> (r: Config)
        ensures
            r.db_path@ == "sqew.db"@,
            !r.force_recreate,
    {
        Config { db_path: "sqew.db".to_owned(), force_recreate: false }
    }
}

} // verus!
