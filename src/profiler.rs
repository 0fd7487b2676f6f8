//! The hierarchical timing engine: per-thread region records, nesting-aware
//! accounting and the noise-suppression policy.
use vstd::prelude::*;

use crate::timer::{timer_sum, wadd, wsub, zero_timer, Timer};

verus! {

/// Most regions one profiler can register.
pub const MAX_TIMERS: usize = 256;

/// A completion whose per-hit average exclusive time is below this many
/// cycles counts towards suppressing its region.
pub const SHORT_INTERVAL_CYCLES: u64 = 500;

/// Consecutive short completions after which a region is suppressed.
pub const SHORT_STREAK_LIMIT: u32 = 10;

/// The current thread timer status
#[derive(Debug, Copy, Clone, PartialEq, Eq, Structural)]
pub enum ThreadTimerStatus {
    Stopped,
    Running,
}

/// An open region, created by `begin` and consumed by `end`.
#[derive(Debug, Copy, Clone, PartialEq, Eq, Structural)]
pub struct RegionHandle {
    /// Slot of the region
    pub index: usize,
    /// Cycle count when the region was entered
    pub start_cycle: u64,
    /// The region that was active on this thread when this one was entered
    pub parent: Option<usize>,
    /// The region's inclusive time as it stood when it was entered
    pub baseline_inclusive: u64,
    /// Bytes processed inside this region
    pub bytes_processed: u64,
}

/// One region's line in a report: its records folded over all threads.
#[derive(Debug, Copy, Clone)]
pub struct ReportRow {
    /// Slot of the region
    pub index: usize,
    /// Name of the region
    pub name: &'static str,
    /// The region's records summed over the threads that ran any region
    pub timer: Timer,
}

/// What a report holds, before it is formatted.
#[derive(Debug)]
pub struct Report {
    /// Sum of the observed windows of the threads that ran any region
    pub total_time_cycles: u64,
    /// Reported regions, largest exclusive time first; among equal ones the
    /// later slot first
    pub rows: Vec<ReportRow>,
    /// Slots, ascending, of unsuppressed regions that were never hit
    pub not_hit: Vec<usize>,
    /// Total time less the exclusive time of every reported region
    pub remainder: u64,
    /// Threads, ascending, that were still running and were closed by the report
    pub closed_threads: Vec<usize>,
}

/// Report order: larger exclusive time first, then the later slot.
pub open spec fn row_before(a: ReportRow, b: ReportRow) -> bool {
    a.timer.exclusive_time > b.timer.exclusive_time || (a.timer.exclusive_time
        == b.timer.exclusive_time && a.index > b.index)
}

/// The abstract state of a profiler.
pub struct ProfilerModel {
    pub thread_times: Seq<u64>,
    pub thread_status: Seq<ThreadTimerStatus>,
    pub active_parent: Seq<Option<usize>>,
    pub names: Seq<Seq<char>>,
    pub timers: Seq<Seq<Timer>>,
    pub streak: Seq<u32>,
    pub ignored: Seq<bool>,
    pub ever_started: bool,
}

/// The profiler: per-thread tables of region records, keyed by slots that
/// region names are given on first use.
pub struct Profiler<const THREADS: usize> {
    /// Per thread: the accumulated observed window, in cycles
    pub thread_times: Vec<u64>,
    /// The status of the thread indexed timer
    pub thread_status: Vec<ThreadTimerStatus>,
    /// Per thread: the region currently entered, if any
    pub active_parent: Vec<Option<usize>>,
    /// Registered region names; a name's slot is its position here. A list
    /// rather than an ordered map: vstd specifies `BTreeMap` lookups only for
    /// key types whose ordering obeys its model, which `&str` cannot be shown
    /// to, so a map keyed by names would leave every lookup unproved.
    pub timer_names: Vec<&'static str>,
    /// Per thread: one record for each slot
    pub timers: Vec<Vec<Timer>>,
    /// For each slot, the number of consecutive short completions
    pub short_timer_streak: Vec<u32>,
    /// Slots removed from reporting
    pub ignored_timer: Vec<bool>,
    /// Whether any thread's window was ever started; a report needs one
    pub ever_started: bool,
}

impl<const THREADS: usize> View for Profiler<THREADS> {
    type V = ProfilerModel;

    open spec fn view(&self) -> ProfilerModel {
        ProfilerModel {
            thread_times: self.thread_times@,
            thread_status: self.thread_status@,
            active_parent: self.active_parent@,
            names: self.timer_names@.map_values(|s: &'static str| s@),
            timers: self.timers@.map_values(|v: Vec<Timer>| v@),
            streak: self.short_timer_streak@,
            ignored: self.ignored_timer@,
            ever_started: self.ever_started,
        }
    }
}

impl ProfilerModel {
    /// Number of threads.
    pub open spec fn threads(self) -> int {
        self.timers.len() as int
    }

    /// Number of registered regions.
    pub open spec fn count(self) -> int {
        self.names.len() as int
    }

    /// The record of slot `i` on thread `t`.
    pub open spec fn timer(self, t: int, i: int) -> Timer {
        self.timers[t][i]
    }

    /// `t` names a thread.
    pub open spec fn valid_thread(self, t: int) -> bool {
        0 <= t < self.threads()
    }

    /// `i` is a registered slot.
    pub open spec fn valid_region(self, i: int) -> bool {
        0 <= i < self.count()
    }

    /// Every per-thread table has one entry per thread and one record per
    /// slot; names are distinct and within capacity; active regions are
    /// registered; and an unsuppressed slot's streak is below the limit.
    pub open spec fn wf(self) -> bool {
        &&& self.thread_times.len() == self.threads()
        &&& self.thread_status.len() == self.threads()
        &&& self.active_parent.len() == self.threads()
        &&& forall|t: int| 0 <= t < self.threads() ==> (#[trigger] self.timers[t]).len() == MAX_TIMERS
        &&& self.count() <= MAX_TIMERS
        &&& self.streak.len() == MAX_TIMERS
        &&& self.ignored.len() == MAX_TIMERS
        &&& forall|i: int, j: int|
            0 <= i < self.count() && 0 <= j < self.count() && i != j ==> #[trigger] self.names[i]
                != #[trigger] self.names[j]
        &&& forall|t: int|
            0 <= t < self.threads() && (#[trigger] self.active_parent[t]).is_some()
                ==> self.valid_region(self.active_parent[t].unwrap() as int)
        &&& forall|i: int|
            0 <= i < MAX_TIMERS && !(#[trigger] self.ignored[i]) ==> self.streak[i]
                < SHORT_STREAK_LIMIT
    }

    /// Whether `name` already has a slot.
    pub open spec fn has_name(self, name: Seq<char>) -> bool {
        exists|i: int| 0 <= i < self.count() && self.names[i] == name
    }

    /// Whether `name` has a slot or can be given one.
    pub open spec fn can_register(self, name: Seq<char>) -> bool {
        self.has_name(name) || self.count() < MAX_TIMERS
    }

    /// The state after `name` is resolved: unchanged if it has a slot, else
    /// with the name given the next free slot.
    pub open spec fn registered(self, name: Seq<char>) -> ProfilerModel {
        if self.has_name(name) {
            self
        } else {
            ProfilerModel { names: self.names.push(name), ..self }
        }
    }

    /// The slot of a registered name.
    pub open spec fn slot(self, name: Seq<char>) -> int {
        choose|i: int| self.slot_of(i, name)
    }

    /// `i` is the slot of `name`.
    pub open spec fn slot_of(self, i: int, name: Seq<char>) -> bool {
        self.valid_region(i) && self.names[i] == name
    }

    /// Entering region `i` on thread `t` at cycle `now`: the new state, in
    /// which `i` is the active region, and the handle that records the
    /// previously active region and `i`'s inclusive time so far.
    pub open spec fn begun(self, t: int, i: int, bytes: u64, now: u64) -> (ProfilerModel, RegionHandle) {
        let h = RegionHandle {
            index: i as usize,
            start_cycle: now,
            parent: self.active_parent[t],
            baseline_inclusive: self.timer(t, i).inclusive_time,
            bytes_processed: bytes,
        };
        (ProfilerModel { active_parent: self.active_parent.update(t, Some(i as usize)), ..self }, h)
    }

    /// Cycles between entering `h` and `now`, modulo 2^64.
    pub open spec fn elapsed(h: RegionHandle, now: u64) -> u64 {
        wsub(now, h.start_cycle)
    }

    /// The thread's records once the parent of `h` gives up the time spent in `h`.
    pub open spec fn parent_charged(self, t: int, h: RegionHandle, now: u64) -> Seq<Timer> {
        let e = Self::elapsed(h, now);
        match h.parent {
            Some(p) => {
                let pt = self.timer(t, p as int);
                self.timers[t].update(
                    p as int,
                    Timer { exclusive_time: wsub(pt.exclusive_time, e), ..pt },
                )
            },
            None => self.timers[t],
        }
    }

    /// The record of `h`'s region once the invocation `h` completes.
    pub open spec fn completed_record(self, t: int, h: RegionHandle, now: u64) -> Timer {
        let e = Self::elapsed(h, now);
        let cur = self.parent_charged(t, h, now)[h.index as int];
        Timer {
            exclusive_time: wadd(cur.exclusive_time, e),
            inclusive_time: wadd(h.baseline_inclusive, e),
            hits: wadd(cur.hits, 1),
            bytes_processed: wadd(cur.bytes_processed, h.bytes_processed),
        }
    }

    /// Whether a record's average exclusive time per hit is below the noise threshold.
    pub open spec fn is_short(rec: Timer) -> bool {
        rec.hits > 0 && rec.exclusive_time / rec.hits < SHORT_INTERVAL_CYCLES
    }

    /// The noise policy applied to slot `i` whose record now reads `rec`:
    /// a suppressed slot is left alone; a short average extends the streak
    /// and suppresses the slot when the streak reaches its limit; a long one
    /// resets the streak.
    pub open spec fn noted(self, i: int, rec: Timer) -> ProfilerModel {
        if self.ignored[i] || rec.hits == 0 {
            self
        } else if Self::is_short(rec) {
            let s = (self.streak[i] + 1) as u32;
            ProfilerModel {
                streak: self.streak.update(i, s),
                ignored: if s >= SHORT_STREAK_LIMIT {
                    self.ignored.update(i, true)
                } else {
                    self.ignored
                },
                ..self
            }
        } else {
            ProfilerModel { streak: self.streak.update(i, 0), ..self }
        }
    }

    /// Leaving the invocation `h` on thread `t` at cycle `now`: the parent
    /// becomes active again and loses the elapsed time from its exclusive
    /// time; the region gains it, its inclusive time becomes the baseline
    /// plus the elapsed time, and it counts one more hit; then the noise
    /// policy looks at the region.
    pub open spec fn ended(self, t: int, h: RegionHandle, now: u64) -> ProfilerModel {
        let rec = self.completed_record(t, h, now);
        let timers = self.parent_charged(t, h, now).update(h.index as int, rec);
        ProfilerModel {
            timers: self.timers.update(t, timers),
            active_parent: self.active_parent.update(t, h.parent),
            ..self
        }.noted(h.index as int, rec)
    }

    /// Every running thread closed against cycle `now`.
    pub open spec fn finalized(self, now: u64) -> ProfilerModel {
        ProfilerModel {
            thread_times: Seq::new(
                self.thread_times.len(),
                |t: int|
                    if self.thread_status[t] == ThreadTimerStatus::Running {
                        wadd(self.thread_times[t], now)
                    } else {
                        self.thread_times[t]
                    },
            ),
            thread_status: Seq::new(self.thread_status.len(), |t: int| ThreadTimerStatus::Stopped),
            ..self
        }
    }

    /// The threads below `n` that are running, ascending.
    pub open spec fn running_threads(self, n: int) -> Seq<usize>
        decreases n,
    {
        if n <= 0 {
            Seq::empty()
        } else if self.thread_status[n - 1] == ThreadTimerStatus::Running {
            self.running_threads(n - 1).push((n - 1) as usize)
        } else {
            self.running_threads(n - 1)
        }
    }

    /// Thread `t` has hit some region.
    pub open spec fn thread_used(self, t: int) -> bool {
        exists|i: int| 0 <= i < self.count() && #[trigger] self.timers[t][i].hits > 0
    }

    /// Sum of the windows of the used threads below `n`.
    pub open spec fn total_time(self, n: int) -> u64
        decreases n,
    {
        if n <= 0 {
            0
        } else if self.thread_used(n - 1) {
            wadd(self.total_time(n - 1), self.thread_times[n - 1])
        } else {
            self.total_time(n - 1)
        }
    }

    /// Slot `i`'s records summed over the used threads below `n`.
    pub open spec fn folded(self, n: int, i: int) -> Timer
        decreases n,
    {
        if n <= 0 {
            zero_timer()
        } else if self.thread_used(n - 1) {
            timer_sum(self.folded(n - 1, i), self.timer(n - 1, i))
        } else {
            self.folded(n - 1, i)
        }
    }

    /// Slot `i`'s records summed over all used threads.
    pub open spec fn total_record(self, i: int) -> Timer {
        self.folded(self.threads(), i)
    }

    /// Slot `i` gets a row of the report.
    pub open spec fn reported(self, i: int) -> bool {
        self.valid_region(i) && !self.ignored[i] && self.total_record(i).hits > 0
    }

    /// Slot `i` is listed as never hit.
    pub open spec fn unhit(self, i: int) -> bool {
        self.valid_region(i) && !self.ignored[i] && self.total_record(i).hits == 0
    }

    /// The never-hit slots below `n`, ascending.
    pub open spec fn unhit_upto(self, n: int) -> Seq<usize>
        decreases n,
    {
        if n <= 0 {
            Seq::empty()
        } else if self.unhit(n - 1) {
            self.unhit_upto(n - 1).push((n - 1) as usize)
        } else {
            self.unhit_upto(n - 1)
        }
    }

    /// Sum of the exclusive times of the reported slots below `n`.
    pub open spec fn reported_exclusive(self, n: int) -> u64
        decreases n,
    {
        if n <= 0 {
            0
        } else if self.reported(n - 1) {
            wadd(self.reported_exclusive(n - 1), self.total_record(n - 1).exclusive_time)
        } else {
            self.reported_exclusive(n - 1)
        }
    }

    /// `rows` holds exactly one row for each reported slot, in report order.
    pub open spec fn rows_match(self, rows: Seq<ReportRow>) -> bool {
        &&& forall|k: int|
            0 <= k < rows.len() ==> {
                &&& self.reported(#[trigger] rows[k].index as int)
                &&& rows[k].timer == self.total_record(rows[k].index as int)
                &&& rows[k].name@ == self.names[rows[k].index as int]
            }
        &&& forall|i: int|
            self.reported(i) ==> exists|k: int| 0 <= k < rows.len() && #[trigger] rows[k].index == i
        &&& forall|j: int, k: int| 0 <= j < k < rows.len() ==> row_before(#[trigger] rows[j], #[trigger] rows[k])
    }

    /// `r` is the report of this (finalized) state.
    pub open spec fn report_matches(self, r: Report) -> bool {
        &&& r.total_time_cycles == self.total_time(self.threads())
        &&& self.rows_match(r.rows@)
        &&& r.not_hit@ == self.unhit_upto(self.count())
        &&& r.remainder == wsub(r.total_time_cycles, self.reported_exclusive(self.count()))
    }

    /// A handle that `end` accepts on this state.
    pub open spec fn valid_handle(self, h: RegionHandle) -> bool {
        &&& self.valid_region(h.index as int)
        &&& h.parent.is_some() ==> self.valid_region(h.parent.unwrap() as int)
    }

    /// Opening thread `t`'s window at cycle `now`.
    pub open spec fn started(self, t: int, now: u64) -> ProfilerModel {
        ProfilerModel {
            thread_times: self.thread_times.update(t, wsub(self.thread_times[t], now)),
            thread_status: self.thread_status.update(t, ThreadTimerStatus::Running),
            ever_started: true,
            ..self
        }
    }

    /// Closing thread `t`'s window at cycle `now`.
    pub open spec fn stopped(self, t: int, now: u64) -> ProfilerModel {
        ProfilerModel {
            thread_times: self.thread_times.update(t, wadd(self.thread_times[t], now)),
            thread_status: self.thread_status.update(t, ThreadTimerStatus::Stopped),
            ..self
        }
    }
}

/// Whether two names are the same text, compared through their UTF-8 bytes.
fn same_name(a: &str, b: &str) -> (r: bool)
    ensures
        r == (a@ == b@),
{
    broadcast use vstd::utf8::encode_utf8_decode_utf8;

    let x = a.as_bytes();
    let y = b.as_bytes();
    if x.len() != y.len() {
        return false;
    }
    let mut k: usize = 0;
    while k < x.len()
        invariant
            x@ == vstd::utf8::encode_utf8(a@),
            y@ == vstd::utf8::encode_utf8(b@),
            x@.len() == y@.len(),
            k <= x@.len(),
            forall|j: int| 0 <= j < k ==> x@[j] == y@[j],
        decreases x@.len() - k,
    {
        if x[k] != y[k] {
            return false;
        }
        k = k + 1;
    }
    assert(x@ =~= y@);
    assert(vstd::utf8::decode_utf8(vstd::utf8::encode_utf8(a@)) == a@);
    assert(vstd::utf8::decode_utf8(vstd::utf8::encode_utf8(b@)) == b@);
    true
}

/// Every row of `rows` comes before every later one.
pub open spec fn rows_ordered(rows: Seq<ReportRow>) -> bool {
    forall|j: int, k: int| 0 <= j < k < rows.len() ==> row_before(#[trigger] rows[j], #[trigger] rows[k])
}

/// Puts `row`, whose slot is later than any in `rows`, where report order
/// wants it.
fn insert_row(rows: &mut Vec<ReportRow>, row: ReportRow)
    requires
        rows_ordered(old(rows)@),
        forall|k: int| 0 <= k < old(rows)@.len() ==> (#[trigger] old(rows)@[k]).index < row.index,
    ensures
        rows_ordered(final(rows)@),
        exists|p: int| 0 <= p <= old(rows)@.len() && final(rows)@ == old(rows)@.insert(p, row),
{
    let mut p: usize = 0;
    while p < rows.len() && rows[p].timer.exclusive_time > row.timer.exclusive_time
        invariant
            p <= rows@.len(),
            forall|k: int| 0 <= k < p ==> (#[trigger] rows@[k]).timer.exclusive_time > row.timer.exclusive_time,
        decreases rows@.len() - p,
    {
        p = p + 1;
    }
    let ghost old_rows = rows@;
    assert forall|k: int| p <= k < old_rows.len() implies row_before(row, #[trigger] old_rows[k]) by {
        if k > p {
            assert(row_before(old_rows[p as int], old_rows[k]));
        }
    }
    rows.insert(p, row);
    let ghost new_rows = rows@;
    assert forall|j: int, k: int| 0 <= j < k < new_rows.len() implies row_before(#[trigger] new_rows[j], #[trigger] new_rows[k]) by {
        if k < p {
            assert(new_rows[j] == old_rows[j] && new_rows[k] == old_rows[k]);
        } else if k == p {
            assert(new_rows[j] == old_rows[j]);
        } else if j < p {
            assert(new_rows[j] == old_rows[j] && new_rows[k] == old_rows[k - 1]);
            assert(row_before(old_rows[j], old_rows[k - 1]));
        } else if j == p {
            assert(new_rows[k] == old_rows[k - 1]);
        } else {
            assert(new_rows[j] == old_rows[j - 1] && new_rows[k] == old_rows[k - 1]);
            assert(row_before(old_rows[j - 1], old_rows[k - 1]));
        }
    }
}

/// One zeroed record for every slot.
fn zeroed_records() -> (r: Vec<Timer>)
    ensures
        r@.len() == MAX_TIMERS,
        forall|j: int| 0 <= j < MAX_TIMERS ==> r@[j] == zero_timer(),
{
    let mut row: Vec<Timer> = Vec::new();
    let mut i: usize = 0;
    while i < MAX_TIMERS
        invariant
            i <= MAX_TIMERS,
            row@.len() == i,
            forall|j: int| 0 <= j < i ==> row@[j] == zero_timer(),
        decreases MAX_TIMERS - i,
    {
        row.push(Timer::const_default());
        i = i + 1;
    }
    row
}

impl<const THREADS: usize> Default for Profiler<THREADS> {
    fn default() -> (r: Self)
        ensures
            r.is_fresh(),
    {
        Self::new()
    }
}

impl<const THREADS: usize> Profiler<THREADS> {
    /// The profiler is consistent and has one table per thread.
    pub open spec fn wf(&self) -> bool {
        self@.wf() && self@.threads() == THREADS
    }

    /// Consistent, with no region registered, every thread stopped at zero
    /// with no region open, and every record, streak and suppression mark
    /// cleared.
    pub open spec fn is_fresh(&self) -> bool {
        &&& self.wf()
        &&& self@.count() == 0
        &&& !self@.ever_started
        &&& forall|t: int|
            0 <= t < THREADS ==> {
                &&& self@.thread_times[t] == 0
                &&& self@.thread_status[t] == ThreadTimerStatus::Stopped
                &&& self@.active_parent[t] == None::<usize>
                &&& forall|i: int| 0 <= i < MAX_TIMERS ==> self@.timers[t][i] == zero_timer()
            }
        &&& forall|i: int| 0 <= i < MAX_TIMERS ==> self@.streak[i] == 0 && !self@.ignored[i]
    }

    /// Create a profiler with every thread stopped and no region registered
    pub fn new() -> (r: Self)
        ensures
            r.is_fresh(),
    {
        let mut streak: Vec<u32> = Vec::new();
        let mut ignored: Vec<bool> = Vec::new();
        let mut i: usize = 0;
        while i < MAX_TIMERS
            invariant
                i <= MAX_TIMERS,
                streak@.len() == i,
                ignored@.len() == i,
                forall|j: int| 0 <= j < i ==> streak@[j] == 0 && !ignored@[j],
            decreases MAX_TIMERS - i,
        {
            streak.push(0);
            ignored.push(false);
            i = i + 1;
        }
        let mut thread_times: Vec<u64> = Vec::new();
        let mut thread_status: Vec<ThreadTimerStatus> = Vec::new();
        let mut active_parent: Vec<Option<usize>> = Vec::new();
        let mut timers: Vec<Vec<Timer>> = Vec::new();
        let mut t: usize = 0;
        while t < THREADS
            invariant
                t <= THREADS,
                thread_times@.len() == t,
                thread_status@.len() == t,
                active_parent@.len() == t,
                timers@.len() == t,
                forall|u: int| 0 <= u < t ==> thread_times@[u] == 0,
                forall|u: int| 0 <= u < t ==> thread_status@[u] == ThreadTimerStatus::Stopped,
                forall|u: int| 0 <= u < t ==> active_parent@[u] == None::<usize>,
                forall|u: int| 0 <= u < t ==> (#[trigger] timers@[u])@.len() == MAX_TIMERS,
                forall|u: int, j: int|
                    0 <= u < t && 0 <= j < MAX_TIMERS ==> #[trigger] timers@[u]@[j] == zero_timer(),
            decreases THREADS - t,
        {
            thread_times.push(0);
            thread_status.push(ThreadTimerStatus::Stopped);
            active_parent.push(None);
            timers.push(zeroed_records());
            t = t + 1;
        }
        let r = Profiler {
            thread_times,
            thread_status,
            active_parent,
            timer_names: Vec::new(),
            timers,
            short_timer_streak: streak,
            ignored_timer: ignored,
            ever_started: false,
        };
        r
    }

    /// The slot of `name`, if it has one.
    fn find_index(&self, name: &'static str) -> (r: Option<usize>)
        requires
            self.wf(),
        ensures
            r.is_some() <==> self@.has_name(name@),
            r.is_some() ==> self@.slot_of(r.unwrap() as int, name@),
    {
        let mut i: usize = 0;
        while i < self.timer_names.len()
            invariant
                self.wf(),
                i <= self.timer_names@.len(),
                forall|j: int| 0 <= j < i ==> self@.names[j] != name@,
            decreases self.timer_names@.len() - i,
        {
            if same_name(self.timer_names[i], name) {
                assert(self@.names[i as int] == name@);
                return Some(i);
            }
            i = i + 1;
        }
        None
    }

    /// The slot of `name`, given the next free slot on its first use.
    pub fn get_timer_index(&mut self, timer_name: &'static str) -> (r: usize)
        requires
            old(self).wf(),
            old(self)@.can_register(timer_name@),
        ensures
            final(self).wf(),
            final(self)@ == old(self)@.registered(timer_name@),
            final(self)@.slot_of(r as int, timer_name@),
            !old(self)@.has_name(timer_name@) ==> r == old(self)@.count(),
    {
        match self.find_index(timer_name) {
            Some(i) => i,
            None => {
                let curr_index = self.timer_names.len();
                self.timer_names.push(timer_name);
                assert(self@.names =~= old(self)@.names.push(timer_name@));
                assert(self@ == old(self)@.registered(timer_name@));
                curr_index
            },
        }
    }

    /// Overwrites the record of slot `i` on thread `t`.
    fn set_record(&mut self, t: usize, i: usize, rec: Timer)
        requires
            old(self).wf(),
            t < THREADS,
            i < MAX_TIMERS,
        ensures
            final(self).wf(),
            final(self)@ == (ProfilerModel {
                timers: old(self)@.timers.update(t as int, old(self)@.timers[t as int].update(i as int, rec)),
                ..old(self)@
            }),
    {
        self.timers[t][i] = rec;
        assert(self@.timers =~= old(self)@.timers.update(t as int, old(self)@.timers[t as int].update(i as int, rec)));
    }

    /// Applies the noise policy to slot `i`, whose record now reads `rec`.
    fn note(&mut self, i: usize, rec: Timer)
        requires
            old(self).wf(),
            i < MAX_TIMERS,
        ensures
            final(self).wf(),
            final(self)@ == old(self)@.noted(i as int, rec),
    {
        if self.ignored_timer[i] || rec.hits == 0 {
            return;
        }
        if rec.exclusive_time / rec.hits < SHORT_INTERVAL_CYCLES {
            let s = self.short_timer_streak[i] + 1;
            self.short_timer_streak.set(i, s);
            if s >= SHORT_STREAK_LIMIT {
                self.ignored_timer.set(i, true);
            }
        } else {
            self.short_timer_streak.set(i, 0);
        }
        assert(self@.streak =~= old(self)@.noted(i as int, rec).streak);
        assert(self@.ignored =~= old(self)@.noted(i as int, rec).ignored);
    }

    /// Enter the region `name` on thread `thread_id` at cycle `now`,
    /// registering the name on first use.
    pub fn begin(&mut self, thread_id: usize, name: &'static str, bytes_processed: u64, now: u64) -> (h: RegionHandle)
        requires
            old(self).wf(),
            thread_id < THREADS,
            old(self)@.can_register(name@),
        ensures
            final(self).wf(),
            final(self)@.slot_of(h.index as int, name@),
            (final(self)@, h) == old(self)@.registered(name@).begun(thread_id as int, h.index as int, bytes_processed, now),
            final(self)@.valid_handle(h),
    {
        let index = self.get_timer_index(name);
        let parent = self.active_parent[thread_id];
        self.active_parent.set(thread_id, Some(index));
        assert(self@.timers[thread_id as int].len() == MAX_TIMERS);
        let baseline_inclusive = self.timers[thread_id][index].inclusive_time;
        let h = RegionHandle { index, start_cycle: now, parent, baseline_inclusive, bytes_processed };
        assert(self@.active_parent =~= old(self)@.registered(name@).active_parent.update(thread_id as int, Some(index)));
        h
    }

    /// Leave the invocation `h` on thread `thread_id` at cycle `now`.
    #[verifier::rlimit(40)]
    pub fn end(&mut self, thread_id: usize, h: RegionHandle, now: u64)
        requires
            old(self).wf(),
            thread_id < THREADS,
            old(self)@.valid_handle(h),
        ensures
            final(self).wf(),
            final(self)@ == old(self)@.ended(thread_id as int, h, now),
    {
        let t = thread_id;
        let ghost m0 = self@;
        self.active_parent.set(t, h.parent);
        let elapsed = now.wrapping_sub(h.start_cycle);
        assert(self@.timers[t as int].len() == MAX_TIMERS);
        if let Some(p) = h.parent {
            let mut pt = self.timers[t][p];
            pt.exclusive_time = pt.exclusive_time.wrapping_sub(elapsed);
            self.set_record(t, p, pt);
        }
        assert(self@.timers[t as int] == m0.parent_charged(t as int, h, now));
        let cur = self.timers[t][h.index];
        let rec = Timer {
            exclusive_time: cur.exclusive_time.wrapping_add(elapsed),
            inclusive_time: h.baseline_inclusive.wrapping_add(elapsed),
            hits: cur.hits.wrapping_add(1),
            bytes_processed: cur.bytes_processed.wrapping_add(h.bytes_processed),
        };
        assert(rec == m0.completed_record(t as int, h, now));
        self.set_record(t, h.index, rec);
        assert(self@.active_parent =~= m0.active_parent.update(t as int, h.parent));
        assert(self@.timers =~= m0.timers.update(t as int, m0.parent_charged(t as int, h, now).update(h.index as int, rec)));
        self.note(h.index, rec);
    }

    /// Start the timer for the given thread at cycle `now`; `false` when it
    /// was already running (the window is opened again all the same).
    pub fn start(&mut self, thread_id: usize, now: u64) -> (was_stopped: bool)
        requires
            old(self).wf(),
            thread_id < THREADS,
        ensures
            final(self).wf(),
            final(self)@ == old(self)@.started(thread_id as int, now),
            was_stopped == (old(self)@.thread_status[thread_id as int] == ThreadTimerStatus::Stopped),
    {
        let was_stopped = self.thread_status[thread_id] == ThreadTimerStatus::Stopped;
        let v = self.thread_times[thread_id].wrapping_sub(now);
        self.thread_times.set(thread_id, v);
        self.thread_status.set(thread_id, ThreadTimerStatus::Running);
        self.ever_started = true;
        assert(self@.thread_times =~= old(self)@.started(thread_id as int, now).thread_times);
        assert(self@.thread_status =~= old(self)@.started(thread_id as int, now).thread_status);
        was_stopped
    }

    /// Stop the timer for the given thread at cycle `now`; `false` when it
    /// was not running (the window is closed all the same).
    pub fn stop(&mut self, thread_id: usize, now: u64) -> (was_running: bool)
        requires
            old(self).wf(),
            thread_id < THREADS,
        ensures
            final(self).wf(),
            final(self)@ == old(self)@.stopped(thread_id as int, now),
            was_running == (old(self)@.thread_status[thread_id as int] == ThreadTimerStatus::Running),
    {
        let was_running = self.thread_status[thread_id] == ThreadTimerStatus::Running;
        let v = self.thread_times[thread_id].wrapping_add(now);
        self.thread_times.set(thread_id, v);
        self.thread_status.set(thread_id, ThreadTimerStatus::Stopped);
        assert(self@.thread_times =~= old(self)@.stopped(thread_id as int, now).thread_times);
        assert(self@.thread_status =~= old(self)@.stopped(thread_id as int, now).thread_status);
        was_running
    }

    /// Get the timer for a given thread
    pub fn get_timer(&mut self, thread_id: usize, timer: &'static str) -> (r: &Timer)
        requires
            old(self).wf(),
            thread_id < THREADS,
            old(self)@.can_register(timer@),
        ensures
            final(self).wf(),
            final(self)@ == old(self)@.registered(timer@),
            final(self)@.slot_of(final(self)@.slot(timer@), timer@),
            *r == final(self)@.timer(thread_id as int, final(self)@.slot(timer@)),
    {
        let index = self.get_timer_index(timer);
        assert(self@.timers[thread_id as int].len() == MAX_TIMERS);
        assert(self@.slot(timer@) == index);
        &self.timers[thread_id][index]
    }

    /// Get the `&mut` timer for a given thread, after the noise policy has
    /// looked at its record as it stands.
    pub fn get_timer_mut(&mut self, thread_id: usize, timer: &'static str) -> (r: &mut Timer)
        requires
            old(self).wf(),
            thread_id < THREADS,
            old(self)@.can_register(timer@),
        ensures
            ({
                let reg = old(self)@.registered(timer@);
                let i = reg.slot(timer@);
                let mid = reg.noted(i, reg.timer(thread_id as int, i));
                &&& reg.slot_of(i, timer@)
                &&& *r == reg.timer(thread_id as int, i)
                &&& final(self)@.timers =~~= mid.timers.update(
                    thread_id as int,
                    mid.timers[thread_id as int].update(i, *final(r)),
                )
                &&& final(self)@ == (ProfilerModel { timers: final(self)@.timers, ..mid })
            }),
    {
        let index = self.get_timer_index(timer);
        assert(self@.timers[thread_id as int].len() == MAX_TIMERS);
        assert(self@.slot(timer@) == index);
        let rec = self.timers[thread_id][index];
        self.note(index, rec);
        assert(self@.timers[thread_id as int].len() == MAX_TIMERS);
        &mut self.timers[thread_id][index]
    }

    /// Whether thread `t` has hit any region.
    fn thread_is_used(&self, t: usize) -> (r: bool)
        requires
            self.wf(),
            t < THREADS,
        ensures
            r == self@.thread_used(t as int),
    {
        assert(self@.timers[t as int].len() == MAX_TIMERS);
        let mut i: usize = 0;
        while i < self.timer_names.len()
            invariant
                self.wf(),
                t < THREADS,
                i <= self@.count(),
                self@.timers[t as int].len() == MAX_TIMERS,
                forall|j: int| 0 <= j < i ==> !(#[trigger] self@.timers[t as int][j].hits > 0),
            decreases self@.count() - i,
        {
            if self.timers[t][i].hits > 0 {
                assert(self@.timers[t as int][i as int].hits > 0);
                return true;
            }
            i = i + 1;
        }
        false
    }

    /// Closes every running thread against cycle `now`; returns the closed
    /// threads, ascending.
    fn close_running(&mut self, now: u64) -> (closed: Vec<usize>)
        requires
            old(self).wf(),
        ensures
            final(self).wf(),
            final(self)@ == old(self)@.finalized(now),
            closed@ == old(self)@.running_threads(THREADS as int),
    {
        let ghost m0 = self@;
        let mut closed: Vec<usize> = Vec::new();
        let mut t: usize = 0;
        while t < THREADS
            invariant
                self.wf(),
                m0.wf(),
                m0.threads() == THREADS,
                t <= THREADS,
                self@ == (ProfilerModel {
                    thread_times: self@.thread_times,
                    thread_status: self@.thread_status,
                    ..m0
                }),
                forall|u: int| 0 <= u < t ==> self@.thread_times[u] == m0.finalized(now).thread_times[u],
                forall|u: int| t <= u < THREADS ==> self@.thread_times[u] == m0.thread_times[u],
                forall|u: int| 0 <= u < t ==> self@.thread_status[u] == ThreadTimerStatus::Stopped,
                forall|u: int| t <= u < THREADS ==> self@.thread_status[u] == m0.thread_status[u],
                closed@ == m0.running_threads(t as int),
            decreases THREADS - t,
        {
            if self.thread_status[t] == ThreadTimerStatus::Running {
                let v = self.thread_times[t].wrapping_add(now);
                self.thread_times.set(t, v);
                self.thread_status.set(t, ThreadTimerStatus::Stopped);
                closed.push(t);
            }
            t = t + 1;
        }
        assert(self@.thread_times =~= m0.finalized(now).thread_times);
        assert(self@.thread_status =~= m0.finalized(now).thread_status);
        closed
    }

    /// Each registered slot's records summed over the used threads, and the
    /// sum of the used threads' windows.
    fn fold_threads(&self) -> (r: (Vec<Timer>, u64))
        requires
            self.wf(),
        ensures
            r.0@.len() == self@.count(),
            forall|i: int| 0 <= i < self@.count() ==> r.0@[i] == self@.total_record(i),
            r.1 == self@.total_time(THREADS as int),
    {
        let count = self.timer_names.len();
        let mut acc: Vec<Timer> = Vec::new();
        let mut i: usize = 0;
        while i < count
            invariant
                count == self@.count(),
                i <= count,
                acc@.len() == i,
                forall|j: int| 0 <= j < i ==> acc@[j] == zero_timer(),
            decreases count - i,
        {
            acc.push(Timer::const_default());
            i = i + 1;
        }
        let mut total: u64 = 0;
        let mut t: usize = 0;
        while t < THREADS
            invariant
                self.wf(),
                count == self@.count(),
                t <= THREADS,
                acc@.len() == count,
                forall|j: int| 0 <= j < count ==> acc@[j] == self@.folded(t as int, j),
                total == self@.total_time(t as int),
            decreases THREADS - t,
        {
            if self.thread_is_used(t) {
                total = total.wrapping_add(self.thread_times[t]);
                assert(self@.timers[t as int].len() == MAX_TIMERS);
                let mut i: usize = 0;
                while i < count
                    invariant
                        self.wf(),
                        count == self@.count(),
                        t < THREADS,
                        self@.thread_used(t as int),
                        self@.timers[t as int].len() == MAX_TIMERS,
                        i <= count,
                        acc@.len() == count,
                        forall|j: int| 0 <= j < i ==> acc@[j] == self@.folded(t + 1, j),
                        forall|j: int| i <= j < count ==> acc@[j] == self@.folded(t as int, j),
                    decreases count - i,
                {
                    let v = acc[i].add(self.timers[t][i]);
                    acc.set(i, v);
                    i = i + 1;
                }
            }
            t = t + 1;
        }
        (acc, total)
    }

    /// Closes every thread still running at cycle `now`, folds all threads'
    /// records together and lays out the report: reported regions in
    /// report order, never-hit ones, and the time no reported region
    /// accounts for.
    #[verifier::rlimit(60)]
    pub fn report(&mut self, now: u64) -> (r: Report)
        requires
            old(self).wf(),
            old(self)@.ever_started,
        ensures
            final(self).wf(),
            final(self)@ == old(self)@.finalized(now),
            final(self)@.report_matches(r),
            r.closed_threads@ == old(self)@.running_threads(THREADS as int),
    {
        let closed_threads = self.close_running(now);
        let (acc, total) = self.fold_threads();
        let ghost m = self@;
        let count = self.timer_names.len();
        let mut rows: Vec<ReportRow> = Vec::new();
        let mut not_hit: Vec<usize> = Vec::new();
        let mut other = total;
        let mut i: usize = 0;
        while i < count
            invariant
                self.wf(),
                self@ == m,
                count == m.count(),
                i <= count,
                acc@.len() == count,
                forall|j: int| 0 <= j < count ==> acc@[j] == m.total_record(j),
                other == wsub(total, m.reported_exclusive(i as int)),
                not_hit@ == m.unhit_upto(i as int),
                rows_ordered(rows@),
                forall|k: int|
                    0 <= k < rows@.len() ==> {
                        &&& (#[trigger] rows@[k]).index < i
                        &&& m.reported(rows@[k].index as int)
                        &&& rows@[k].timer == m.total_record(rows@[k].index as int)
                        &&& rows@[k].name@ == m.names[rows@[k].index as int]
                    },
                forall|j: int|
                    0 <= j < i && m.reported(j) ==> exists|k: int| 0 <= k < rows@.len() && #[trigger] rows@[k].index == j,
            decreases count - i,
        {
            let rec = acc[i];
            if !self.ignored_timer[i] {
                if rec.hits == 0 {
                    not_hit.push(i);
                } else {
                    other = other.wrapping_sub(rec.exclusive_time);
                    proof {
                        let a = total as int;
                        let b = m.reported_exclusive(i as int) as int;
                        let c = rec.exclusive_time as int;
                        let w = 0x1_0000_0000_0000_0000int;
                        assert(((a - b) % w - c) % w == (a - (b + c) % w) % w) by (nonlinear_arith)
                            requires w == 0x1_0000_0000_0000_0000int;
                    }
                    let row = ReportRow { index: i, name: self.timer_names[i], timer: rec };
                    let ghost before = rows@;
                    insert_row(&mut rows, row);
                    assert forall|j: int|
                        0 <= j < i + 1 && m.reported(j) implies exists|k: int| 0 <= k < rows@.len() && #[trigger] rows@[k].index == j by {
                        let p = choose|p: int| 0 <= p <= before.len() && rows@ == before.insert(p, row);
                        if j == i {
                            assert(rows@[p].index == j);
                        } else {
                            let k0 = choose|k: int| 0 <= k < before.len() && #[trigger] before[k].index == j;
                            if k0 < p {
                                assert(rows@[k0].index == j);
                            } else {
                                assert(rows@[k0 + 1].index == j);
                            }
                        }
                    }
                    assert forall|k: int| 0 <= k < rows@.len() implies {
                        &&& (#[trigger] rows@[k]).index < i + 1
                        &&& m.reported(rows@[k].index as int)
                        &&& rows@[k].timer == m.total_record(rows@[k].index as int)
                        &&& rows@[k].name@ == m.names[rows@[k].index as int]
                    } by {
                        let p = choose|p: int| 0 <= p <= before.len() && rows@ == before.insert(p, row);
                        if k < p {
                            assert(rows@[k] == before[k]);
                        } else if k > p {
                            assert(rows@[k] == before[k - 1]);
                        }
                    }
                }
            }
            i = i + 1;
        }
        Report { total_time_cycles: total, rows, not_hit, remainder: other, closed_threads }
    }
}

} // verus!
