//! What the HTTP surface decides: how engine error kinds map onto status
//! codes, and the defaults the routes fill in. The listener, routing and
//! encoding live outside the library; they consume these mappings.

use crate::errors::ErrorKind;
use vstd::prelude::*;

verus! {

/// Default `max_attempts` when a queue is created without one.
pub const DEFAULT_MAX_ATTEMPTS: i32 = 5;

/// Default `limit` when messages are listed without one.
pub const DEFAULT_PEEK_LIMIT: i64 = 1;

/// Default `delay_ms` when a message is enqueued without one.
pub const DEFAULT_ENQUEUE_DELAY_MS: i64 = 0;

/// Default port the server listens on.
pub const DEFAULT_PORT: u16 = 8888;

/// The HTTP status an engine error surfaces as: absent names are 404, name
/// collisions and store conflicts 409, bad input 400, a store still busy
/// after retries 503, anything fatal 500.
pub fn status_code(e: ErrorKind) -> (r: u16)
    ensures
        r == (match e {
            ErrorKind::NotFound => 404u16,
            ErrorKind::AlreadyExists => 409u16,
            ErrorKind::Invalid => 400u16,
            ErrorKind::Conflict => 409u16,
            ErrorKind::Transient => 503u16,
            ErrorKind::Fatal => 500u16,
        }),
{
    match e {
        ErrorKind::NotFound => 404,
        ErrorKind::AlreadyExists => 409,
        ErrorKind::Invalid => 400,
        ErrorKind::Conflict => 409,
        ErrorKind::Transient => 503,
        ErrorKind::Fatal => 500,
    }
}

} // verus!
