//! In-process cycle-counting instrumentation: a hierarchical region profiler
//! that attributes time correctly under nesting and recursion, and an
//! adaptive repetition benchmark harness. The cycle counter, the wall clock
//! and the process's page-fault count are read by the caller and handed in.
pub mod clock;
pub mod nesting;
pub mod proc_stat;
pub mod profiler;
pub mod repetition;
pub mod timer;

pub use clock::calculate_os_frequency;
pub use proc_stat::parse_page_faults;
pub use profiler::{
    Profiler, ProfilerModel, RegionHandle, Report, ReportRow, ThreadTimerStatus, MAX_TIMERS,
};
pub use repetition::{RepititionTester, TestCase, TestResults, TestingState};
pub use timer::Timer;
