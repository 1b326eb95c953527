//! How long to wait before asking again.

use vstd::prelude::*;

verus! {

/// The shortest wait between two attempts, in seconds.
pub const BACKOFF_FLOOR_SECS: u64 = 1;

/// The longest wait between two attempts, in seconds.
pub const BACKOFF_CAP_SECS: u64 = 60;

/// By how much the wait grows from one failure to the next.
pub const BACKOFF_MULTIPLIER: u64 = 2;

/// The wait after one more failure, given the wait before it: it grows by
/// the multiplier and stays between floor and cap.
pub open spec fn grown(wait: u64) -> u64 {
    if wait < BACKOFF_FLOOR_SECS {
        BACKOFF_FLOOR_SECS
    } else if wait * BACKOFF_MULTIPLIER >= BACKOFF_CAP_SECS {
        BACKOFF_CAP_SECS
    } else {
        (wait * BACKOFF_MULTIPLIER) as u64
    }
}

/// The wait before the first retry.
pub fn first_backoff() -> (res: u64)
    ensures
        res == BACKOFF_FLOOR_SECS,
{
    BACKOFF_FLOOR_SECS
}

/// The wait after one more failure, given the wait before it.
pub fn next_backoff(wait: u64) -> (res: u64)
    ensures
        res == grown(wait),
        BACKOFF_FLOOR_SECS <= res <= BACKOFF_CAP_SECS,
{
    if wait < BACKOFF_FLOOR_SECS {
        BACKOFF_FLOOR_SECS
    } else if wait >= BACKOFF_CAP_SECS / BACKOFF_MULTIPLIER {
        BACKOFF_CAP_SECS
    } else {
        wait * BACKOFF_MULTIPLIER
    }
}

} // verus!
