//! The time discipline of the regions database.
use vstd::prelude::*;

use crate::time;
use crate::time::TimeDrift;

verus! {

/// How far ahead of the server a client's time may be.
pub const TIME_DRIFT_BUFFER_MS: u64 = 2_000;

/// Resolve the time-base of a request against the server's clock `now_ms`.
pub fn effective_now_ms(now_ms: u64, client_time_ms: u64) -> (r: Result<u64, TimeDrift>)
    ensures
        r == time::resolved(now_ms, client_time_ms, TIME_DRIFT_BUFFER_MS),
{
    time::resolve(now_ms, client_time_ms, TIME_DRIFT_BUFFER_MS)
}

} // verus!
