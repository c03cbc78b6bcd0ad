//! The period clock: wall-clock seconds are bucketed into discrete weekly
//! periods, and all decay arithmetic runs in period units.

use vstd::prelude::*;

verus! {

/// Seconds in one period (one week).
pub const WEEK: u64 = 604800;

/// Returns the period number that contains the instant `time`
/// (seconds since the epoch).
pub fn get_period(time: u64) -> (period: u64)
    ensures
        period == time as int / WEEK as int,
{
    time / WEEK
}

} // verus!
