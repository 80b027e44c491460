//! The error kinds an engine operation can surface, classified so that the
//! HTTP and CLI surfaces can map them uniformly, and the retry policy for
//! the transient kind.

use vstd::prelude::*;

verus! {

/// Why an engine operation failed.
#[derive(Debug, Clone, Copy, PartialEq, Eq, Structural)]
pub enum ErrorKind {
    /// A named queue or a message id is absent.
    NotFound,
    /// A queue with the requested name already exists.
    AlreadyExists,
    /// Bad input: empty queue name, a non-positive `max_attempts`, or a
    /// payload that is not valid JSON.
    Invalid,
    /// A store uniqueness constraint was violated.
    Conflict,
    /// The store was locked or busy; the call may be retried.
    Transient,
    /// The store is corrupt or otherwise unusable.
    Fatal,
}

/// How many times a `Transient` store error is retried before it surfaces.
pub const MAX_TRANSIENT_RETRIES: u32 = 50;

/// The wait before retry number `attempt` (0-based): exponential from 5 ms,
/// doubling, capped at 50 ms.
pub open spec fn backoff_ms(attempt: u32) -> u64 {
    if attempt == 0 {
        5
    } else if attempt == 1 {
        10
    } else if attempt == 2 {
        20
    } else if attempt == 3 {
        40
    } else {
        50
    }
}

/// The `Transient` retry policy at the engine boundary: how long to wait
/// before retry number `attempt`, or `None` once the budget of
/// [`MAX_TRANSIENT_RETRIES`] tries is spent and the failure must surface.
/// The caller performs the wait and the retried call; this function only
/// decides.
pub fn retry_backoff(attempt: u32) -> (r: Option<u64>)
    ensures
        r == (if attempt < MAX_TRANSIENT_RETRIES {
            Some(backoff_ms(attempt))
        } else {
            None::<u64>
        }),
{
    if attempt >= MAX_TRANSIENT_RETRIES {
        None
    } else if attempt == 0 {
        Some(5)
    } else if attempt == 1 {
        Some(10)
    } else if attempt == 2 {
        Some(20)
    } else if attempt == 3 {
        Some(40)
    } else {
        Some(50)
    }
}

} // verus!
