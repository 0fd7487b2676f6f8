//! The per-region record accumulated by the profiler.
use vstd::prelude::*;

verus! {

/// Sum of two counters modulo 2^64, as `u64::wrapping_add` computes it.
pub open spec fn wadd(a: u64, b: u64) -> u64 {
    ((a as int + b as int) % 0x1_0000_0000_0000_0000) as u64
}

/// Difference of two counters modulo 2^64, as `u64::wrapping_sub` computes it.
pub open spec fn wsub(a: u64, b: u64) -> u64 {
    ((a as int - b as int) % 0x1_0000_0000_0000_0000) as u64
}

/// A timed block
#[derive(Debug, Copy, Clone, PartialEq, Eq, Structural)]
pub struct Timer {
    /// The amount of time spent in this timing block (without child blocks)
    pub exclusive_time: u64,
    /// The amount of time spent in this timing block (including child blocks)
    pub inclusive_time: u64,
    /// The number of times this block was hit
    pub hits: u64,
    /// The number of bytes processed in this timing block
    pub bytes_processed: u64,
}

/// The record of a region that has never been hit.
pub open spec fn zero_timer() -> Timer {
    Timer { exclusive_time: 0, inclusive_time: 0, hits: 0, bytes_processed: 0 }
}

/// Componentwise sum of two records, each counter modulo 2^64.
pub open spec fn timer_sum(a: Timer, b: Timer) -> Timer {
    Timer {
        exclusive_time: wadd(a.exclusive_time, b.exclusive_time),
        inclusive_time: wadd(a.inclusive_time, b.inclusive_time),
        hits: wadd(a.hits, b.hits),
        bytes_processed: wadd(a.bytes_processed, b.bytes_processed),
    }
}

impl Timer {
    /// A record with every counter at zero.
    pub fn const_default() -> (r: Self)
        ensures
            r == zero_timer(),
    {
        Timer { exclusive_time: 0, inclusive_time: 0, hits: 0, bytes_processed: 0 }
    }

    /// Componentwise sum, used to fold per-thread records together.
    pub fn add(self, rhs: Self) -> (r: Self)
        ensures
            r == timer_sum(self, rhs),
    {
        Timer {
            exclusive_time: self.exclusive_time.wrapping_add(rhs.exclusive_time),
            inclusive_time: self.inclusive_time.wrapping_add(rhs.inclusive_time),
            hits: self.hits.wrapping_add(rhs.hits),
            bytes_processed: self.bytes_processed.wrapping_add(rhs.bytes_processed),
        }
    }
}

impl std::ops::Add for Timer {
    type Output = Timer;

    fn add(self, rhs: Timer) -> Timer {
        Timer::add(self, rhs)
    }
}

impl vstd::std_specs::ops::AddSpecImpl for Timer {
    open spec fn obeys_add_spec() -> bool {
        true
    }

    open spec fn add_req(self, rhs: Timer) -> bool {
        true
    }

    open spec fn add_spec(self, rhs: Timer) -> Timer {
        timer_sum(self, rhs)
    }
}

impl Default for Timer {
    fn default() -> (r: Self)
        ensures
            r == zero_timer(),
    {
        Timer::const_default()
    }
}

} // verus!
