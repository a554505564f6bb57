//! Wall-clock observations for cost measurement.
//!
//! Calibration times the parser callback and the schedule search with a
//! high-resolution counter.  The counter value is an outside observation:
//! nothing is promised of it, and everything proved about calibration
//! holds whatever the clock returns.

use vstd::prelude::*;

verus! {

/// Relies on `time::OffsetDateTime::now_utc` and its accessor
/// `unix_timestamp_nanos`: the current wall-clock time in nanoseconds
/// since the Unix epoch, truncated to 64 bits.  Nothing is promised of
/// the value.
#[verifier::external_body]
pub fn time_start() -> u64 {
    time::OffsetDateTime::now_utc().unix_timestamp_nanos() as u64
}

/// Microseconds elapsed since the counter read `start`, zero if the clock
/// stepped backwards.  The value is an observation of the clock; nothing
/// is promised of it.
pub fn time_stop(start: u64) -> u64 {
    let end = time_start();
    if end >= start {
        (end - start) / 1000
    } else {
        0
    }
}

} // verus!
