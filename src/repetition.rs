//! The adaptive repetition benchmark harness: it folds timed trials into
//! min/max/average statistics and extends its wall-clock window each time a
//! trial beats the best one so far.
use vstd::prelude::*;

use crate::timer::{wadd, wsub};

verus! {

/// Nanoseconds in one second.
pub const NANOS_PER_SECOND: u128 = 1_000_000_000;

/// Whether the harness may go on testing.
#[derive(Debug, Copy, Clone)]
pub enum TestingState {
    Running,
    Error(&'static str),
}

/// Statistics for an individual test case
#[derive(Debug, Copy, Clone, PartialEq, Eq, Structural)]
pub struct TestCase {
    /// The time (in cycles) for this test case
    pub cycles: u64,
    /// The time for this test case, in nanoseconds
    pub time_nanos: u128,
    /// The page faults for this iteration
    pub page_faults: u64,
    /// Bytes per second if throughput is given
    pub bytes_per_second: Option<u128>,
    /// Number of bytes processed per page fault
    pub bytes_per_page_fault: Option<u64>,
}

/// The results for a repitition tester
#[derive(Debug, Copy, Clone, PartialEq, Eq, Structural)]
pub struct TestResults {
    /// Number of times the test was executed
    pub count: u64,
    /// Total time the tests took (in cycles)
    pub total_time: u64,
    /// Total number of page faults during the test
    pub total_page_faults: u64,
    /// The statistics for the longest test case
    pub max: TestCase,
    /// The statistics for the shortest test case
    pub min: TestCase,
    /// The statistics for the average test case
    pub avg: TestCase,
}

/// A test case with nothing measured, its cycles set to `cycles`.
pub open spec fn blank_case(cycles: u64) -> TestCase {
    TestCase {
        cycles,
        time_nanos: 0,
        page_faults: 0,
        bytes_per_second: None,
        bytes_per_page_fault: None,
    }
}

/// The results before any trial: the minimum and the average at the
/// largest cycle count, the maximum at zero.
pub open spec fn initial_results() -> TestResults {
    TestResults {
        count: 0,
        total_time: 0,
        total_page_faults: 0,
        max: blank_case(0),
        min: blank_case(u64::MAX),
        avg: blank_case(u64::MAX),
    }
}

impl Default for TestCase {
    fn default() -> (r: Self)
        ensures
            r == blank_case(0),
    {
        TestCase {
            cycles: 0,
            time_nanos: 0,
            page_faults: 0,
            bytes_per_second: None,
            bytes_per_page_fault: None,
        }
    }
}

impl Default for TestResults {
    fn default() -> (r: Self)
        ensures
            r == initial_results(),
    {
        TestResults {
            count: 0,
            total_time: 0,
            total_page_faults: 0,
            max: TestCase::default(),
            min: TestCase { cycles: u64::MAX, ..TestCase::default() },
            avg: TestCase { cycles: u64::MAX, ..TestCase::default() },
        }
    }
}

impl TestResults {
    /// The statistics once a trial of `cycles` cycles and `faults` page
    /// faults is counted: totals grow, and the trial becomes the minimum
    /// (the maximum) when it is strictly below (above) it.
    pub open spec fn with_trial(self, cycles: u64, faults: u64) -> TestResults {
        TestResults {
            count: wadd(self.count, 1),
            total_time: wadd(self.total_time, cycles),
            total_page_faults: wadd(self.total_page_faults, faults),
            min: if cycles < self.min.cycles {
                TestCase { cycles, page_faults: faults, ..self.min }
            } else {
                self.min
            },
            max: if cycles > self.max.cycles {
                TestCase { cycles, page_faults: faults, ..self.max }
            } else {
                self.max
            },
            avg: self.avg,
        }
    }

    /// The statistics after the trials `cycles[k]`, `faults[k]`, in order.
    pub open spec fn with_trials(self, cycles: Seq<u64>, faults: Seq<u64>) -> TestResults
        decreases cycles.len(),
    {
        if cycles.len() == 0 {
            self
        } else {
            self.with_trial(cycles[0], faults[0]).with_trials(cycles.drop_first(), faults.drop_first())
        }
    }
}

/// Nanoseconds that `cycles` take at `cycles_per_second`, rounded down.
pub open spec fn nanos_of(cycles: u64, cycles_per_second: u64) -> u128 {
    (cycles as int * NANOS_PER_SECOND / cycles_per_second as int) as u128
}

/// A test case with its derived fields filled in: its duration, and with a
/// byte count the bytes per second (when it took any cycles) and the bytes
/// per page fault (when it had any faults), each rounded down.
pub open spec fn finished_case(c: TestCase, bytes: Option<usize>, cycles_per_second: u64) -> TestCase {
    TestCase {
        time_nanos: nanos_of(c.cycles, cycles_per_second),
        bytes_per_second: match bytes {
            Some(b) => if c.cycles > 0 {
                Some((b as int * cycles_per_second as int / c.cycles as int) as u128)
            } else {
                None
            },
            None => None,
        },
        bytes_per_page_fault: match bytes {
            Some(b) => if c.page_faults > 0 {
                Some((b as int / c.page_faults as int) as u64)
            } else {
                None
            },
            None => None,
        },
        ..c
    }
}

/// The summary handed out for the statistics `r`: the initial results when
/// no trial was counted; else the average is the totals divided by the
/// count, and minimum, maximum and average get their derived fields.
pub open spec fn summary(r: TestResults, bytes: Option<usize>, cycles_per_second: u64) -> TestResults {
    if r.count == 0 {
        initial_results()
    } else {
        let avg = TestCase {
            cycles: r.total_time / r.count,
            page_faults: r.total_page_faults / r.count,
            ..r.avg
        };
        TestResults {
            min: finished_case(r.min, bytes, cycles_per_second),
            max: finished_case(r.max, bytes, cycles_per_second),
            avg: finished_case(avg, bytes, cycles_per_second),
            ..r
        }
    }
}

/// Derived fields of one test case.
fn finish_case(c: TestCase, bytes: Option<usize>, cycles_per_second: u64) -> (r: TestCase)
    requires
        cycles_per_second > 0,
    ensures
        r == finished_case(c, bytes, cycles_per_second),
{
    let cycles = c.cycles as u128;
    let cps = cycles_per_second as u128;
    assert(cycles * NANOS_PER_SECOND < 0x1_0000_0000_0000_0000_0000_0000_0000_0000) by (nonlinear_arith)
        requires cycles < 0x1_0000_0000_0000_0000;
    let time_nanos = cycles * NANOS_PER_SECOND / cps;
    let mut bytes_per_second: Option<u128> = None;
    let mut bytes_per_page_fault: Option<u64> = None;
    if let Some(b) = bytes {
        let b128 = b as u128;
        if c.cycles > 0 {
            assert(b128 * cps < 0x1_0000_0000_0000_0000_0000_0000_0000_0000) by (nonlinear_arith)
                requires b128 < 0x1_0000_0000_0000_0000, cps < 0x1_0000_0000_0000_0000;
            bytes_per_second = Some(b128 * cps / cycles);
        }
        if c.page_faults > 0 {
            let q = b128 / (c.page_faults as u128);
            assert(q <= b128) by (nonlinear_arith)
                requires q == b128 / (c.page_faults as u128), c.page_faults > 0;
            bytes_per_page_fault = Some(q as u64);
        }
    }
    TestCase { time_nanos, bytes_per_second, bytes_per_page_fault, ..c }
}

/// Message of the error state entered on unmatched `start`/`stop` calls.
pub const UNMATCHED_MESSAGE: &'static str = "Unmatched start and stop blocks";

/// Repeats a workload's timing while its wall-clock window lasts; the
/// window restarts whenever a trial sets a new minimum.
#[derive(Debug, Copy, Clone)]
pub struct RepititionTester {
    /// The current state of this tester
    pub state: TestingState,
    /// How long to run the tests, in nanoseconds
    pub budget_nanos: u64,
    /// Wall-clock reading, in nanoseconds, at which the current window began
    pub window_start_nanos: u64,
    /// Page faults of the current trial, accumulated modulo 2^64
    pub page_faults: u64,
    /// Number of times this tester has been started
    pub start_count: u64,
    /// Number of times this tester has been stopped
    pub stop_count: u64,
    /// Cycles of the current trial, accumulated modulo 2^64
    pub elapsed_time: u64,
    /// The results of this current test
    pub results: TestResults,
}

/// Nanoseconds from `from` to `to`, or zero when `to` is earlier.
pub open spec fn nanos_since(from: u64, to: u64) -> u64 {
    if to >= from {
        (to - from) as u64
    } else {
        0
    }
}

impl RepititionTester {
    /// The harness is not in its error state.
    pub open spec fn is_running(self) -> bool {
        self.state is Running
    }

    /// A fresh harness whose window of `budget_nanos` begins at `now_nanos`.
    pub open spec fn fresh(budget_nanos: u64, now_nanos: u64) -> RepititionTester {
        RepititionTester {
            state: TestingState::Running,
            budget_nanos,
            window_start_nanos: now_nanos,
            page_faults: 0,
            start_count: 0,
            stop_count: 0,
            elapsed_time: 0,
            results: initial_results(),
        }
    }

    /// The trial in progress opened at cycle `now` with `faults` page faults so far.
    pub open spec fn started(self, now: u64, faults: u64) -> RepititionTester {
        RepititionTester {
            start_count: wadd(self.start_count, 1),
            elapsed_time: wsub(self.elapsed_time, now),
            page_faults: wsub(self.page_faults, faults),
            ..self
        }
    }

    /// The trial in progress closed at cycle `now` with `faults` page faults so far.
    pub open spec fn stopped(self, now: u64, faults: u64) -> RepititionTester {
        RepititionTester {
            stop_count: wadd(self.stop_count, 1),
            elapsed_time: wadd(self.elapsed_time, now),
            page_faults: wadd(self.page_faults, faults),
            ..self
        }
    }

    /// Whether the window has run out at `now_nanos`.
    pub open spec fn expired(self, now_nanos: u64) -> bool {
        nanos_since(self.window_start_nanos, now_nanos) >= self.budget_nanos
    }

    /// Whether a trial was opened or closed since the last check.
    pub open spec fn trial_touched(self) -> bool {
        self.start_count > 0 || self.stop_count > 0
    }

    /// Whether a check at `now_nanos` counts the trial just run: some start
    /// or stop happened and their numbers match.
    pub open spec fn counts_trial(self, now_nanos: u64) -> bool {
        self.is_running() && !self.expired(now_nanos) && self.trial_touched()
            && self.start_count == self.stop_count
    }

    /// Whether a check at `now_nanos` finds the trial's starts and stops
    /// unmatched, a stop without a start included.
    pub open spec fn finds_mismatch(self, now_nanos: u64) -> bool {
        self.is_running() && !self.expired(now_nanos) && self.start_count != self.stop_count
    }

    /// The answer of a check at `now_nanos`.
    pub open spec fn check_answer(self, now_nanos: u64) -> bool {
        self.is_running() && !self.expired(now_nanos)
    }

    /// The state after a check at `now_nanos`. When the answer is no,
    /// nothing changes. Otherwise a finished trial is counted (and a new
    /// minimum restarts the window at `now_nanos`), unmatched starts and
    /// stops turn the state to an error, and the trial counters are cleared.
    pub open spec fn checked(self, now_nanos: u64) -> RepititionTester {
        if !self.check_answer(now_nanos) {
            self
        } else {
            let counted = self.counts_trial(now_nanos);
            let new_min = counted && self.elapsed_time < self.results.min.cycles;
            RepititionTester {
                state: if self.finds_mismatch(now_nanos) {
                    TestingState::Error(UNMATCHED_MESSAGE)
                } else {
                    self.state
                },
                window_start_nanos: if new_min {
                    now_nanos
                } else {
                    self.window_start_nanos
                },
                results: if counted {
                    self.results.with_trial(self.elapsed_time, self.page_faults)
                } else {
                    self.results
                },
                start_count: 0,
                stop_count: 0,
                elapsed_time: 0,
                page_faults: 0,
                ..self
            }
        }
    }

    /// Create a harness that tests for `budget_nanos` from `now_nanos`.
    pub fn new(budget_nanos: u64, now_nanos: u64) -> (r: Self)
        ensures
            r == Self::fresh(budget_nanos, now_nanos),
    {
        RepititionTester {
            state: TestingState::Running,
            budget_nanos,
            window_start_nanos: now_nanos,
            page_faults: 0,
            start_count: 0,
            stop_count: 0,
            elapsed_time: 0,
            results: TestResults::default(),
        }
    }

    /// Start over, keeping the budget, with the window beginning at `now_nanos`.
    pub fn reset(&mut self, now_nanos: u64)
        ensures
            *final(self) == Self::fresh(old(self).budget_nanos, now_nanos),
    {
        self.state = TestingState::Running;
        self.window_start_nanos = now_nanos;
        self.page_faults = 0;
        self.start_count = 0;
        self.stop_count = 0;
        self.elapsed_time = 0;
        self.results = TestResults::default();
    }

    /// Get the results of a test, at `cycles_per_second`
    pub fn results(&mut self, cycles_per_second: u64) -> (r: TestResults)
        requires
            cycles_per_second > 0,
        ensures
            *final(self) == *old(self),
            r == summary(old(self).results, None, cycles_per_second),
    {
        self.summarize(None, cycles_per_second)
    }

    /// Get the results of a test that used `bytes` number of bytes, at `cycles_per_second`
    pub fn results_with_throughput(&mut self, bytes: usize, cycles_per_second: u64) -> (r: TestResults)
        requires
            cycles_per_second > 0,
        ensures
            *final(self) == *old(self),
            r == summary(old(self).results, Some(bytes), cycles_per_second),
    {
        self.summarize(Some(bytes), cycles_per_second)
    }

    /// The summary of the statistics so far.
    fn summarize(&self, bytes: Option<usize>, cycles_per_second: u64) -> (r: TestResults)
        requires
            cycles_per_second > 0,
        ensures
            r == summary(self.results, bytes, cycles_per_second),
    {
        let res = self.results;
        if res.count == 0 {
            return TestResults::default();
        }
        let avg = TestCase {
            cycles: res.total_time / res.count,
            page_faults: res.total_page_faults / res.count,
            ..res.avg
        };
        TestResults {
            min: finish_case(res.min, bytes, cycles_per_second),
            max: finish_case(res.max, bytes, cycles_per_second),
            avg: finish_case(avg, bytes, cycles_per_second),
            ..res
        }
    }

    /// Whether to run another trial, asked at wall-clock `now_nanos`; the
    /// trial just run is counted first.
    pub fn is_testing(&mut self, now_nanos: u64) -> (r: bool)
        ensures
            r == old(self).check_answer(now_nanos),
            *final(self) == old(self).checked(now_nanos),
    {
        if !matches!(self.state, TestingState::Running) {
            return false;
        }
        let since = if now_nanos >= self.window_start_nanos {
            now_nanos - self.window_start_nanos
        } else {
            0
        };
        if since >= self.budget_nanos {
            return false;
        }
        if self.start_count > 0 || self.stop_count > 0 {
            if self.start_count != self.stop_count {
                self.state = TestingState::Error(UNMATCHED_MESSAGE);
            } else {
                let elapsed = self.elapsed_time;
                let faults = self.page_faults;
                let mut res = self.results;
                res.count = res.count.wrapping_add(1);
                res.total_time = res.total_time.wrapping_add(elapsed);
                res.total_page_faults = res.total_page_faults.wrapping_add(faults);
                if elapsed < res.min.cycles {
                    res.min.cycles = elapsed;
                    res.min.page_faults = faults;
                    self.window_start_nanos = now_nanos;
                }
                if elapsed > res.max.cycles {
                    res.max.cycles = elapsed;
                    res.max.page_faults = faults;
                }
                self.results = res;
            }
        }
        self.start_count = 0;
        self.stop_count = 0;
        self.elapsed_time = 0;
        self.page_faults = 0;
        true
    }

    /// Open a trial at cycle `now` with `page_faults` faults so far in the process.
    pub fn start(&mut self, now: u64, page_faults: u64)
        ensures
            *final(self) == old(self).started(now, page_faults),
    {
        self.start_count = self.start_count.wrapping_add(1);
        self.elapsed_time = self.elapsed_time.wrapping_sub(now);
        self.page_faults = self.page_faults.wrapping_sub(page_faults);
    }

    /// Close a trial at cycle `now` with `page_faults` faults so far in the process.
    pub fn stop(&mut self, now: u64, page_faults: u64)
        ensures
            *final(self) == old(self).stopped(now, page_faults),
    {
        self.stop_count = self.stop_count.wrapping_add(1);
        self.elapsed_time = self.elapsed_time.wrapping_add(now);
        self.page_faults = self.page_faults.wrapping_add(page_faults);
    }
}

proof fn lemma_constant_trials(r: TestResults, cycles: Seq<u64>, faults: Seq<u64>, c: u64)
    requires
        cycles.len() == faults.len(),
        forall|k: int| 0 <= k < cycles.len() ==> cycles[k] == c,
        r.min.cycles >= c,
        r.max.cycles <= c,
        r.count + cycles.len() < 0x1_0000_0000_0000_0000,
    ensures
        r.with_trials(cycles, faults).count == r.count + cycles.len(),
        r.with_trials(cycles, faults).min.cycles >= c,
        r.with_trials(cycles, faults).max.cycles <= c,
        cycles.len() >= 1 ==> r.with_trials(cycles, faults).min.cycles == c,
        cycles.len() >= 1 ==> r.with_trials(cycles, faults).max.cycles == c,
    decreases cycles.len(),
{
    if cycles.len() > 0 {
        let r1 = r.with_trial(cycles[0], faults[0]);
        assert(r1.min.cycles == c && r1.max.cycles == c);
        let rest = cycles.drop_first();
        assert forall|k: int| 0 <= k < rest.len() implies rest[k] == c by {
            assert(rest[k] == cycles[k + 1]);
        }
        lemma_constant_trials(r1, rest, faults.drop_first(), c);
    }
}

/// A workload that costs the same `c` cycles on every trial: after one or
/// more trials, the minimum and the maximum are both `c`, in the statistics
/// and in any summary of them, and the count is the number of trials.
pub proof fn lemma_constant_workload(cycles: Seq<u64>, faults: Seq<u64>, c: u64, bytes: Option<usize>, cycles_per_second: u64)
    requires
        cycles.len() == faults.len(),
        1 <= cycles.len() < 0x1_0000_0000_0000_0000,
        forall|k: int| 0 <= k < cycles.len() ==> cycles[k] == c,
    ensures
        initial_results().with_trials(cycles, faults).count == cycles.len(),
        initial_results().with_trials(cycles, faults).min.cycles == c,
        initial_results().with_trials(cycles, faults).max.cycles == c,
        summary(initial_results().with_trials(cycles, faults), bytes, cycles_per_second).min.cycles == c,
        summary(initial_results().with_trials(cycles, faults), bytes, cycles_per_second).max.cycles == c,
{
    lemma_constant_trials(initial_results(), cycles, faults, c);
}

/// A fresh harness whose budget outlasts one trial counts that trial: the
/// first check, at the start of the window, says to test; a trial opened
/// at cycle `c0` and closed at `c1` is then counted by the next check
/// within the budget, and it is both the minimum and the maximum.
pub proof fn lemma_first_trial_counted(budget: u64, t0: u64, c0: u64, f0: u64, c1: u64, f1: u64, t1: u64)
    requires
        budget > 0,
        t0 <= t1,
        t1 - t0 < budget,
    ensures
        RepititionTester::fresh(budget, t0).check_answer(t0),
        ({
            let h = RepititionTester::fresh(budget, t0).checked(t0).started(c0, f0).stopped(c1, f1);
            &&& h.check_answer(t1)
            &&& h.checked(t1).results.count == 1
            &&& h.checked(t1).results.min.cycles == wsub(c1, c0)
            &&& h.checked(t1).results.max.cycles == wsub(c1, c0)
        }),
{
    let h0 = RepititionTester::fresh(budget, t0).checked(t0);
    assert(h0.window_start_nanos == t0);
    let h = h0.started(c0, f0).stopped(c1, f1);
    assert(wadd(wsub(0, c0), c1) == wsub(c1, c0));
}

/// A check that counts a trial below the minimum restarts the window at
/// that moment: checks up to a full budget later, with more trials run in
/// between, still say to go on testing.
pub proof fn lemma_new_minimum_extends_window(h: RepititionTester, now: u64, c0: u64, f0: u64, c1: u64, f1: u64, later: u64)
    requires
        h.counts_trial(now),
        h.elapsed_time < h.results.min.cycles,
        now <= later,
        later - now < h.budget_nanos,
    ensures
        h.checked(now).window_start_nanos == now,
        h.checked(now).check_answer(later),
        h.checked(now).started(c0, f0).stopped(c1, f1).check_answer(later),
{
}

/// Unmatched starts and stops in a trial turn the harness to its error
/// state at the next check, and from then on every check says to stop and
/// changes nothing, whatever trials are run.
pub proof fn lemma_mismatch_ends_testing(h: RepititionTester, now: u64, c0: u64, f0: u64, c1: u64, f1: u64, later: u64)
    requires
        h.finds_mismatch(now),
    ensures
        h.checked(now).state is Error,
        !h.checked(now).check_answer(later),
        h.checked(now).checked(later) == h.checked(now),
        !h.checked(now).started(c0, f0).check_answer(later),
        !h.checked(now).stopped(c1, f1).check_answer(later),
{
}

/// One pass of the driving loop: a trial opened and closed at the given
/// cycle and page-fault readings, then a check at wall-clock `check_at`.
pub struct Trial {
    pub start_at: u64,
    pub start_faults: u64,
    pub stop_at: u64,
    pub stop_faults: u64,
    pub check_at: u64,
}

impl RepititionTester {
    /// The harness after the trial `tr` and its check.
    pub open spec fn after_trial(self, tr: Trial) -> RepititionTester {
        self.started(tr.start_at, tr.start_faults).stopped(tr.stop_at, tr.stop_faults).checked(tr.check_at)
    }

    /// The harness after running the trials in order, each followed by its check.
    pub open spec fn after_trials(self, trials: Seq<Trial>) -> RepititionTester
        decreases trials.len(),
    {
        if trials.len() == 0 {
            self
        } else {
            self.after_trial(trials[0]).after_trials(trials.drop_first())
        }
    }

    /// Every check of the trials, run in order, says to go on testing.
    pub open spec fn all_checks_pass(self, trials: Seq<Trial>) -> bool
        decreases trials.len(),
    {
        trials.len() == 0 || (self.started(trials[0].start_at, trials[0].start_faults).stopped(
            trials[0].stop_at,
            trials[0].stop_faults,
        ).check_answer(trials[0].check_at) && self.after_trial(trials[0]).all_checks_pass(trials.drop_first()))
    }
}

proof fn lemma_window_holds(h: RepititionTester, trials: Seq<Trial>, from: u64)
    requires
        h.is_running(),
        h.start_count == 0,
        h.stop_count == 0,
        h.window_start_nanos >= from,
        h.budget_nanos > 0,
        forall|k: int| 0 <= k < trials.len() ==> from <= (#[trigger] trials[k]).check_at,
        forall|k: int| 0 <= k < trials.len() ==> (#[trigger] trials[k]).check_at - from < h.budget_nanos,
    ensures
        h.all_checks_pass(trials),
    decreases trials.len(),
{
    if trials.len() > 0 {
        let tr = trials[0];
        let rest = trials.drop_first();
        assert forall|k: int| 0 <= k < rest.len() implies from <= (#[trigger] rest[k]).check_at
            && rest[k].check_at - from < h.budget_nanos by {
            assert(rest[k] == trials[k + 1]);
        }
        lemma_window_holds(h.after_trial(tr), rest, from);
    }
}

/// Once a check counts a trial below the minimum at `now`, every later
/// check made before `now` plus the budget says to go on testing, through
/// any number of further trials with matched starts and stops: the window
/// is pushed forward, never back.
pub proof fn lemma_new_minimum_keeps_testing(h: RepititionTester, now: u64, trials: Seq<Trial>)
    requires
        h.counts_trial(now),
        h.elapsed_time < h.results.min.cycles,
        forall|k: int| 0 <= k < trials.len() ==> now <= (#[trigger] trials[k]).check_at,
        forall|k: int| 0 <= k < trials.len() ==> (#[trigger] trials[k]).check_at - now < h.budget_nanos,
    ensures
        h.checked(now).window_start_nanos == now,
        h.checked(now).all_checks_pass(trials),
{
    lemma_window_holds(h.checked(now), trials, now);
}

proof fn lemma_constant_loop(h: RepititionTester, trials: Seq<Trial>, c: u64)
    requires
        h.is_running(),
        h.start_count == 0,
        h.stop_count == 0,
        h.elapsed_time == 0,
        h.page_faults == 0,
        h.results.min.cycles >= c,
        h.results.max.cycles <= c,
        h.results.count + trials.len() < 0x1_0000_0000_0000_0000,
        h.all_checks_pass(trials),
        forall|k: int| 0 <= k < trials.len() ==> wsub((#[trigger] trials[k]).stop_at, trials[k].start_at) == c,
    ensures
        h.after_trials(trials).results.count == h.results.count + trials.len(),
        h.after_trials(trials).results.min.cycles >= c,
        h.after_trials(trials).results.max.cycles <= c,
        trials.len() >= 1 ==> h.after_trials(trials).results.min.cycles == c,
        trials.len() >= 1 ==> h.after_trials(trials).results.max.cycles == c,
    decreases trials.len(),
{
    if trials.len() > 0 {
        let tr = trials[0];
        let rest = trials.drop_first();
        let g = h.started(tr.start_at, tr.start_faults).stopped(tr.stop_at, tr.stop_faults);
        assert(wadd(wsub(0, tr.start_at), tr.stop_at) == wsub(tr.stop_at, tr.start_at));
        assert(g.elapsed_time == c);
        let h1 = h.after_trial(tr);
        assert(h1.results.min.cycles == c && h1.results.max.cycles == c);
        assert forall|k: int| 0 <= k < rest.len() implies wsub((#[trigger] rest[k]).stop_at, rest[k].start_at) == c by {
            assert(rest[k] == trials[k + 1]);
        }
        lemma_constant_loop(h1, rest, c);
    }
}

/// The driving loop on a workload that costs `c` cycles on every trial: a
/// fresh harness checked once at `t0`, then any trials whose checks all say
/// to go on, ends with as many counted trials as were run, and with both
/// the minimum and the maximum at `c` once one trial was run.
pub proof fn lemma_constant_workload_loop(budget: u64, t0: u64, trials: Seq<Trial>, c: u64)
    requires
        RepititionTester::fresh(budget, t0).checked(t0).all_checks_pass(trials),
        trials.len() < 0x1_0000_0000_0000_0000,
        forall|k: int| 0 <= k < trials.len() ==> wsub((#[trigger] trials[k]).stop_at, trials[k].start_at) == c,
    ensures
        RepititionTester::fresh(budget, t0).checked(t0).after_trials(trials).results.count == trials.len(),
        trials.len() >= 1 ==> RepititionTester::fresh(budget, t0).checked(t0).after_trials(trials).results.min.cycles
            == c,
        trials.len() >= 1 ==> RepititionTester::fresh(budget, t0).checked(t0).after_trials(trials).results.max.cycles
            == c,
{
    lemma_constant_loop(RepititionTester::fresh(budget, t0).checked(t0), trials, c);
}

} // verus!
