//! Turning a calibration measurement into the cycle counter's rate.
use vstd::prelude::*;

use crate::repetition::NANOS_PER_SECOND;
use crate::timer::wsub;

verus! {

/// Cycles per second when the counter went from `clock_start` to
/// `clock_end` (modulo 2^64) over `interval_nanos` nanoseconds, rounded
/// down; none when no time passed or the rate does not fit a `u64`.
pub open spec fn frequency_of(clock_start: u64, clock_end: u64, interval_nanos: u64) -> Option<u64> {
    if interval_nanos == 0 {
        None
    } else {
        let f = wsub(clock_end, clock_start) as int * NANOS_PER_SECOND / interval_nanos as int;
        if f <= u64::MAX {
            Some(f as u64)
        } else {
            None
        }
    }
}

/// Calculate the counter's frequency from readings taken `interval_nanos`
/// apart.
pub fn calculate_os_frequency(clock_start: u64, clock_end: u64, interval_nanos: u64) -> (r: Option<u64>)
    ensures
        r == frequency_of(clock_start, clock_end, interval_nanos),
{
    if interval_nanos == 0 {
        return None;
    }
    let cycles = clock_end.wrapping_sub(clock_start) as u128;
    assert(cycles * NANOS_PER_SECOND < 0x1_0000_0000_0000_0000_0000_0000_0000_0000) by (nonlinear_arith)
        requires cycles < 0x1_0000_0000_0000_0000;
    let f = cycles * NANOS_PER_SECOND / interval_nanos as u128;
    if f <= u64::MAX as u128 {
        Some(f as u64)
    } else {
        None
    }
}

} // verus!
