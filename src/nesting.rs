//! Sequences of region entries and exits on one thread, replayed on the
//! profiler's model, and what the accounting guarantees about them.
use vstd::prelude::*;

use crate::profiler::{
    ProfilerModel, RegionHandle, Report, MAX_TIMERS, SHORT_INTERVAL_CYCLES, SHORT_STREAK_LIMIT,
};
use crate::timer::{wadd, wsub, zero_timer, Timer};

verus! {

/// The number of values of a `u64`: counters wrap around it.
pub open spec fn modulus() -> int {
    0x1_0000_0000_0000_0000
}

/// One call on a thread: entering a slot, or leaving the innermost open region.
pub enum Event {
    Enter { slot: usize, bytes: u64, at: u64 },
    Exit { at: u64 },
}

/// The outcome of a replay: the model, the regions still open (innermost
/// last), and the summed elapsed time of the completed invocations that had
/// no parent.
pub struct Replayed {
    pub model: ProfilerModel,
    pub open: Seq<RegionHandle>,
    pub top_time: int,
}

/// Replays `evs` on thread `t`, each exit closing the innermost open region.
/// An exit with nothing open ends the replay.
pub open spec fn replay(m: ProfilerModel, t: int, open: Seq<RegionHandle>, evs: Seq<Event>) -> Replayed
    decreases evs.len(),
{
    if evs.len() == 0 {
        Replayed { model: m, open, top_time: 0 }
    } else {
        match evs[0] {
            Event::Enter { slot, bytes, at } => {
                let (m2, h) = m.begun(t, slot as int, bytes, at);
                replay(m2, t, open.push(h), evs.drop_first())
            },
            Event::Exit { at } => {
                if open.len() == 0 {
                    Replayed { model: m, open, top_time: 0 }
                } else {
                    let h = open.last();
                    let r = replay(m.ended(t, h, at), t, open.drop_last(), evs.drop_first());
                    Replayed {
                        top_time: r.top_time + if h.parent is None {
                            ProfilerModel::elapsed(h, at) as int
                        } else {
                            0
                        },
                        ..r
                    }
                }
            },
        }
    }
}

/// Every slot that `evs` enters is registered in `m`.
pub open spec fn events_valid(m: ProfilerModel, evs: Seq<Event>) -> bool {
    forall|k: int|
        0 <= k < evs.len() ==> match #[trigger] evs[k] {
            Event::Enter { slot, bytes, at } => m.valid_region(slot as int),
            Event::Exit { at } => true,
        }
}

/// Every open handle is one that `end` accepts.
pub open spec fn handles_valid(m: ProfilerModel, open: Seq<RegionHandle>) -> bool {
    forall|k: int| 0 <= k < open.len() ==> m.valid_handle(#[trigger] open[k])
}

/// Sum of the exclusive times of the first `n` records, as an integer.
pub open spec fn exclusive_total(s: Seq<Timer>, n: int) -> int
    decreases n,
{
    if n <= 0 {
        0
    } else {
        exclusive_total(s, n - 1) + s[n - 1].exclusive_time
    }
}

proof fn lemma_wsub_form(a: u64, b: u64)
    ensures
        wsub(a, b) as int == a - b + if a >= b { 0 } else { modulus() },
{
}

proof fn lemma_wadd_form(a: u64, b: u64)
    ensures
        wadd(a, b) as int == a + b - if a + b >= modulus() { modulus() } else { 0 },
{
}

proof fn lemma_exclusive_total_update(s: Seq<Timer>, j: int, v: Timer, n: int)
    requires
        0 <= j < s.len(),
        n <= s.len(),
    ensures
        exclusive_total(s.update(j, v), n) == exclusive_total(s, n) + if 0 <= j < n {
            v.exclusive_time - s[j].exclusive_time
        } else {
            0
        },
    decreases n,
{
    if n > 0 {
        lemma_exclusive_total_update(s, j, v, n - 1);
    }
}

/// The model invariant survives entering a registered slot.
pub proof fn lemma_begun_wf(m: ProfilerModel, t: int, i: int, bytes: u64, now: u64)
    requires
        m.wf(),
        m.valid_thread(t),
        m.valid_region(i),
    ensures
        m.begun(t, i, bytes, now).0.wf(),
        m.begun(t, i, bytes, now).0.names == m.names,
        m.begun(t, i, bytes, now).0.timers == m.timers,
        m.valid_handle(m.begun(t, i, bytes, now).1),
{
    let m2 = m.begun(t, i, bytes, now).0;
    assert forall|u: int| 0 <= u < m2.threads() && (#[trigger] m2.active_parent[u]).is_some()
        implies m2.valid_region(m2.active_parent[u].unwrap() as int) by {
        if u != t {
            assert(m2.active_parent[u] == m.active_parent[u]);
        }
    }
}

/// The model invariant survives leaving a valid handle.
pub proof fn lemma_ended_wf(m: ProfilerModel, t: int, h: RegionHandle, now: u64)
    requires
        m.wf(),
        m.valid_thread(t),
        m.valid_handle(h),
    ensures
        m.ended(t, h, now).wf(),
        m.ended(t, h, now).names == m.names,
{
    let rec = m.completed_record(t, h, now);
    let timers = m.parent_charged(t, h, now).update(h.index as int, rec);
    let m1 = ProfilerModel {
        timers: m.timers.update(t, timers),
        active_parent: m.active_parent.update(t, h.parent),
        ..m
    };
    assert forall|u: int| 0 <= u < m1.threads() implies (#[trigger] m1.timers[u]).len() == MAX_TIMERS by {
        if u != t {
            assert(m1.timers[u] == m.timers[u]);
        }
    }
    assert forall|u: int| 0 <= u < m1.threads() && (#[trigger] m1.active_parent[u]).is_some()
        implies m1.valid_region(m1.active_parent[u].unwrap() as int) by {
        if u != t {
            assert(m1.active_parent[u] == m.active_parent[u]);
        }
    }
    assert(m1.wf());
    let m2 = m1.noted(h.index as int, rec);
    assert forall|i: int| 0 <= i < MAX_TIMERS && !(#[trigger] m2.ignored[i]) implies m2.streak[i]
        < crate::profiler::SHORT_STREAK_LIMIT by {
        if i != h.index as int {
            assert(m2.ignored[i] == m1.ignored[i]);
            assert(m2.streak[i] == m1.streak[i]);
        }
    }
}

/// Leaving `h` moves the thread's summed exclusive time by the elapsed time
/// when `h` has no parent, and by nothing otherwise, up to a multiple of
/// the modulus, which is returned.
proof fn lemma_ended_exclusive_total(m: ProfilerModel, t: int, h: RegionHandle, now: u64) -> (j: int)
    requires
        m.wf(),
        m.valid_thread(t),
        m.valid_handle(h),
    ensures
        exclusive_total(m.ended(t, h, now).timers[t], MAX_TIMERS as int) == exclusive_total(
            m.timers[t],
            MAX_TIMERS as int,
        ) + (if h.parent is None {
            ProfilerModel::elapsed(h, now) as int
        } else {
            0
        }) + j * modulus(),
{
    let e = ProfilerModel::elapsed(h, now);
    let s0 = m.timers[t];
    let n = MAX_TIMERS as int;
    let s1 = m.parent_charged(t, h, now);
    let rec = m.completed_record(t, h, now);
    let s2 = s1.update(h.index as int, rec);
    assert(m.ended(t, h, now).timers[t] == s2);
    let cur = s1[h.index as int];
    lemma_wadd_form(cur.exclusive_time, e);
    let j2: int = if cur.exclusive_time + e >= modulus() { -1 } else { 0 };
    lemma_exclusive_total_update(s1, h.index as int, rec, n);
    match h.parent {
        Some(p) => {
            let pt = s0[p as int];
            lemma_wsub_form(pt.exclusive_time, e);
            lemma_exclusive_total_update(s0, p as int, Timer { exclusive_time: wsub(pt.exclusive_time, e), ..pt }, n);
            let j1: int = if pt.exclusive_time >= e { 0 } else { 1 };
            j1 + j2
        },
        None => {
            j2
        },
    }
}

/// Shared step of the replay inductions: the events after the first are
/// still valid.
proof fn lemma_rest_valid(m: ProfilerModel, evs: Seq<Event>)
    requires
        events_valid(m, evs),
        evs.len() > 0,
    ensures
        events_valid(m, evs.drop_first()),
{
    let rest = evs.drop_first();
    assert forall|k: int| 0 <= k < rest.len() implies match #[trigger] rest[k] {
        Event::Enter { slot, bytes, at } => m.valid_region(slot as int),
        Event::Exit { at } => true,
    } by {
        assert(rest[k] == evs[k + 1]);
    }
}

/// Replaying `evs` keeps the model consistent and every open handle valid.
pub proof fn lemma_replay_wf(m: ProfilerModel, t: int, open: Seq<RegionHandle>, evs: Seq<Event>)
    requires
        m.wf(),
        m.valid_thread(t),
        handles_valid(m, open),
        events_valid(m, evs),
    ensures
        replay(m, t, open, evs).model.wf(),
        replay(m, t, open, evs).model.names == m.names,
        replay(m, t, open, evs).model.threads() == m.threads(),
        handles_valid(m, replay(m, t, open, evs).open),
    decreases evs.len(),
{
    if evs.len() > 0 {
        lemma_rest_valid(m, evs);
        let rest = evs.drop_first();
        match evs[0] {
            Event::Enter { slot, bytes, at } => {
                assert(m.valid_region(slot as int)) by {
                    assert(evs[0] == evs[0]);
                }
                lemma_begun_wf(m, t, slot as int, bytes, at);
                let (m2, h) = m.begun(t, slot as int, bytes, at);
                assert(handles_valid(m2, open.push(h))) by {
                    assert forall|k: int| 0 <= k < open.push(h).len() implies m2.valid_handle(#[trigger] open.push(h)[k]) by {
                        if k < open.len() {
                            assert(open.push(h)[k] == open[k]);
                        }
                    }
                }
                lemma_replay_wf(m2, t, open.push(h), rest);
            },
            Event::Exit { at } => {
                if open.len() > 0 {
                    let h = open.last();
                    lemma_ended_wf(m, t, h, at);
                    let m2 = m.ended(t, h, at);
                    assert(handles_valid(m2, open.drop_last())) by {
                        assert forall|k: int| 0 <= k < open.drop_last().len() implies m2.valid_handle(#[trigger] open.drop_last()[k]) by {
                            assert(open.drop_last()[k] == open[k]);
                        }
                    }
                    lemma_replay_wf(m2, t, open.drop_last(), rest);
                }
            },
        }
    }
}

#[verifier::rlimit(60)]
proof fn lemma_exclusive_partition_exact(m: ProfilerModel, t: int, open: Seq<RegionHandle>, evs: Seq<Event>) -> (j: int)
    requires
        m.wf(),
        m.valid_thread(t),
        handles_valid(m, open),
        events_valid(m, evs),
    ensures
        exclusive_total(replay(m, t, open, evs).model.timers[t], MAX_TIMERS as int)
            == exclusive_total(m.timers[t], MAX_TIMERS as int) + replay(m, t, open, evs).top_time + j
            * modulus(),
    decreases evs.len(),
{
    if evs.len() == 0 {
        0
    } else {
        lemma_rest_valid(m, evs);
        let rest = evs.drop_first();
        match evs[0] {
            Event::Enter { slot, bytes, at } => {
                assert(m.valid_region(slot as int)) by {
                    assert(evs[0] == evs[0]);
                }
                lemma_begun_wf(m, t, slot as int, bytes, at);
                let (m2, h) = m.begun(t, slot as int, bytes, at);
                assert(handles_valid(m2, open.push(h))) by {
                    assert forall|k: int| 0 <= k < open.push(h).len() implies m2.valid_handle(#[trigger] open.push(h)[k]) by {
                        if k < open.len() {
                            assert(open.push(h)[k] == open[k]);
                        }
                    }
                }
                lemma_exclusive_partition_exact(m2, t, open.push(h), rest)
            },
            Event::Exit { at } => {
                if open.len() == 0 {
                    0
                } else {
                    let h = open.last();
                    lemma_ended_wf(m, t, h, at);
                    let m2 = m.ended(t, h, at);
                    assert(handles_valid(m2, open.drop_last())) by {
                        assert forall|k: int| 0 <= k < open.drop_last().len() implies m2.valid_handle(#[trigger] open.drop_last()[k]) by {
                            assert(open.drop_last()[k] == open[k]);
                        }
                    }
                    let j1 = lemma_ended_exclusive_total(m, t, h, at);
                    let j2 = lemma_exclusive_partition_exact(m2, t, open.drop_last(), rest);
                    j1 + j2
                }
            },
        }
    }
}

/// On any thread and for any sequence of entries and exits, the summed
/// exclusive time of all regions grows by exactly the elapsed time of the
/// completed invocations that had no parent (counters wrap modulo 2^64):
/// time spent in a nested region is taken from its parent, so no cycle is
/// counted twice.
pub proof fn lemma_exclusive_time_partition(m: ProfilerModel, t: int, open: Seq<RegionHandle>, evs: Seq<Event>)
    requires
        m.wf(),
        m.valid_thread(t),
        handles_valid(m, open),
        events_valid(m, evs),
    ensures
        exclusive_total(replay(m, t, open, evs).model.timers[t], MAX_TIMERS as int) % modulus() == (
        exclusive_total(m.timers[t], MAX_TIMERS as int) + replay(m, t, open, evs).top_time) % modulus(),
{
    let j = lemma_exclusive_partition_exact(m, t, open, evs);
    let a = exclusive_total(m.timers[t], MAX_TIMERS as int) + replay(m, t, open, evs).top_time;
    vstd::arithmetic::div_mod::lemma_mod_multiples_vanish(j, a, modulus());
    assert(modulus() * j + a == a + j * modulus()) by (nonlinear_arith);
}

proof fn lemma_mod_shift(a: int, k: int)
    ensures
        (a + k * modulus()) % modulus() == a % modulus(),
{
    vstd::arithmetic::div_mod::lemma_mod_multiples_vanish(k, a, modulus());
    assert(modulus() * k + a == a + k * modulus()) by (nonlinear_arith);
}

proof fn lemma_mod_split(a: int)
    ensures
        a == a % modulus() + (a / modulus()) * modulus(),
{
    vstd::arithmetic::div_mod::lemma_fundamental_div_mod(a, modulus());
    assert(modulus() * (a / modulus()) == (a / modulus()) * modulus()) by (nonlinear_arith);
}

/// Thread `t` is the only thread that has hit any region.
pub open spec fn only_thread_used(m: ProfilerModel, t: int) -> bool {
    &&& m.valid_thread(t)
    &&& m.thread_used(t)
    &&& forall|u: int| 0 <= u < m.threads() && u != t ==> !m.thread_used(u)
}

proof fn lemma_single_thread_fold(m: ProfilerModel, t: int, n: int, i: int)
    requires
        only_thread_used(m, t),
        0 <= n <= m.threads(),
    ensures
        m.total_time(n) == if n > t { m.thread_times[t] } else { 0 },
        m.folded(n, i) == if n > t { m.timer(t, i) } else { crate::timer::zero_timer() },
    decreases n,
{
    if n > 0 {
        lemma_single_thread_fold(m, t, n - 1, i);
    }
}

/// With one used thread and nothing suppressed, the reported exclusive
/// times add up, modulo 2^64, to that thread's summed exclusive time.
proof fn lemma_reported_exclusive_one_thread(m: ProfilerModel, t: int, n: int)
    requires
        m.wf(),
        only_thread_used(m, t),
        0 <= n <= m.count(),
        forall|i: int| 0 <= i < MAX_TIMERS ==> !m.ignored[i],
        forall|i: int| 0 <= i < MAX_TIMERS && (#[trigger] m.timers[t][i]).hits == 0 ==> m.timers[t][i].exclusive_time == 0,
    ensures
        m.reported_exclusive(n) as int == exclusive_total(m.timers[t], n) % modulus(),
    decreases n,
{
    if n > 0 {
        lemma_reported_exclusive_one_thread(m, t, n - 1);
        let i = n - 1;
        lemma_single_thread_fold(m, t, m.threads(), i);
        assert(m.total_record(i) == m.timers[t][i]);
        let prev = exclusive_total(m.timers[t], n - 1);
        let x = m.timers[t][i].exclusive_time as int;
        lemma_mod_split(prev);
        lemma_mod_shift(prev + x, -(prev / modulus()));
        assert(prev % modulus() + x == prev + x + (-(prev / modulus())) * modulus()) by (nonlinear_arith)
            requires prev == prev % modulus() + (prev / modulus()) * modulus();
    }
}

proof fn lemma_exclusive_total_tail_zero(s: Seq<Timer>, lo: int, n: int)
    requires
        0 <= lo <= n <= s.len(),
        forall|i: int| lo <= i < n ==> (#[trigger] s[i]).exclusive_time == 0,
    ensures
        exclusive_total(s, n) == exclusive_total(s, lo),
    decreases n,
{
    if n > lo {
        lemma_exclusive_total_tail_zero(s, lo, n - 1);
    }
}

/// In a report in which only thread `t` hit any region, no region is
/// suppressed and every region without hits holds no exclusive time (as
/// after any sequence of completed invocations from a fresh profiler), the
/// remainder plus the thread's summed exclusive time is the thread's
/// observed window, modulo 2^64. With the partition law above, the
/// remainder is the window less the time of the top-level invocations: the
/// time no region covers.
pub proof fn lemma_remainder_completes_total(m: ProfilerModel, t: int, r: Report)
    requires
        m.wf(),
        only_thread_used(m, t),
        forall|i: int| 0 <= i < MAX_TIMERS ==> !m.ignored[i],
        forall|i: int| 0 <= i < MAX_TIMERS && (#[trigger] m.timers[t][i]).hits == 0 ==> m.timers[t][i].exclusive_time == 0,
        forall|i: int| m.count() <= i < MAX_TIMERS ==> (#[trigger] m.timers[t][i]).hits == 0,
        m.report_matches(r),
    ensures
        r.total_time_cycles == m.thread_times[t],
        (r.remainder + exclusive_total(m.timers[t], MAX_TIMERS as int)) % modulus() == r.total_time_cycles as int,
{
    let s = m.timers[t];
    assert forall|i: int| m.count() <= i < MAX_TIMERS implies (#[trigger] s[i]).exclusive_time == 0 by {
        assert(m.timers[t][i].hits == 0);
    }
    lemma_single_thread_fold(m, t, m.threads(), 0);
    lemma_reported_exclusive_one_thread(m, t, m.count());
    lemma_exclusive_total_tail_zero(s, m.count(), MAX_TIMERS as int);
    let et = exclusive_total(s, MAX_TIMERS as int);
    let total = r.total_time_cycles as int;
    let re = m.reported_exclusive(m.count()) as int;
    lemma_mod_split(et);
    lemma_mod_split(total - re);
    let k = et / modulus() - (total - re) / modulus();
    assert(r.remainder + et == total + k * modulus()) by (nonlinear_arith)
        requires
            r.remainder as int == (total - re) % modulus(),
            total - re == (total - re) % modulus() + ((total - re) / modulus()) * modulus(),
            et == et % modulus() + (et / modulus()) * modulus(),
            re == et % modulus(),
            k == et / modulus() - (total - re) / modulus();
    lemma_mod_shift(total, k);
}

/// No region, or one of the slots `a` and `b`.
pub open spec fn none_or_pair(o: Option<usize>, a: usize, b: usize) -> bool {
    o is None || o == Some(a) || o == Some(b)
}

/// Every slot that `evs` enters is `a` or `b`.
pub open spec fn enters_only_pair(evs: Seq<Event>, a: usize, b: usize) -> bool {
    forall|k: int|
        0 <= k < evs.len() ==> match #[trigger] evs[k] {
            Event::Enter { slot, bytes, at } => slot == a || slot == b,
            Event::Exit { at } => true,
        }
}

/// Thread `t` works inside the slots `a` and `b` only.
pub open spec fn confined_to_pair(m: ProfilerModel, t: int, open: Seq<RegionHandle>, a: usize, b: usize) -> bool {
    &&& none_or_pair(m.active_parent[t], a, b)
    &&& forall|k: int|
        0 <= k < open.len() ==> {
            &&& (#[trigger] open[k]).index == a || open[k].index == b
            &&& none_or_pair(open[k].parent, a, b)
        }
}

/// Exclusive times of `a` and `b` on thread `t`, summed as integers.
pub open spec fn pair_exclusive(m: ProfilerModel, t: int, a: usize, b: usize) -> int {
    m.timers[t][a as int].exclusive_time + m.timers[t][b as int].exclusive_time
}

proof fn lemma_ended_pair(m: ProfilerModel, t: int, h: RegionHandle, now: u64, a: usize, b: usize) -> (j: int)
    requires
        m.wf(),
        m.valid_thread(t),
        m.valid_handle(h),
        a != b,
        m.valid_region(a as int),
        m.valid_region(b as int),
        h.index == a || h.index == b,
        none_or_pair(h.parent, a, b),
    ensures
        pair_exclusive(m.ended(t, h, now), t, a, b) == pair_exclusive(m, t, a, b) + (if h.parent is None {
            ProfilerModel::elapsed(h, now) as int
        } else {
            0
        }) + j * modulus(),
{
    let e = ProfilerModel::elapsed(h, now);
    let s0 = m.timers[t];
    let s1 = m.parent_charged(t, h, now);
    let rec = m.completed_record(t, h, now);
    let s2 = s1.update(h.index as int, rec);
    assert(m.ended(t, h, now).timers[t] == s2);
    let cur = s1[h.index as int];
    lemma_wadd_form(cur.exclusive_time, e);
    let j2: int = if cur.exclusive_time + e >= modulus() { -1 } else { 0 };
    match h.parent {
        Some(p) => {
            let pt = s0[p as int];
            lemma_wsub_form(pt.exclusive_time, e);
            let j1: int = if pt.exclusive_time >= e { 0 } else { 1 };
            j1 + j2
        },
        None => {
            j2
        },
    }
}

#[verifier::rlimit(60)]
proof fn lemma_pair_exact(m: ProfilerModel, t: int, open: Seq<RegionHandle>, evs: Seq<Event>, a: usize, b: usize) -> (j: int)
    requires
        m.wf(),
        m.valid_thread(t),
        a != b,
        m.valid_region(a as int),
        m.valid_region(b as int),
        handles_valid(m, open),
        events_valid(m, evs),
        enters_only_pair(evs, a, b),
        confined_to_pair(m, t, open, a, b),
    ensures
        pair_exclusive(replay(m, t, open, evs).model, t, a, b) == pair_exclusive(m, t, a, b)
            + replay(m, t, open, evs).top_time + j * modulus(),
    decreases evs.len(),
{
    if evs.len() == 0 {
        0
    } else {
        lemma_rest_valid(m, evs);
        let rest = evs.drop_first();
        assert(enters_only_pair(rest, a, b)) by {
            assert forall|k: int| 0 <= k < rest.len() implies match #[trigger] rest[k] {
                Event::Enter { slot, bytes, at } => slot == a || slot == b,
                Event::Exit { at } => true,
            } by {
                assert(rest[k] == evs[k + 1]);
            }
        }
        match evs[0] {
            Event::Enter { slot, bytes, at } => {
                assert(m.valid_region(slot as int) && (slot == a || slot == b)) by {
                    assert(evs[0] == evs[0]);
                }
                lemma_begun_wf(m, t, slot as int, bytes, at);
                let (m2, h) = m.begun(t, slot as int, bytes, at);
                let o2 = open.push(h);
                assert(handles_valid(m2, o2)) by {
                    assert forall|k: int| 0 <= k < o2.len() implies m2.valid_handle(#[trigger] o2[k]) by {
                        if k < open.len() {
                            assert(o2[k] == open[k]);
                        }
                    }
                }
                assert(confined_to_pair(m2, t, o2, a, b)) by {
                    assert forall|k: int| 0 <= k < o2.len() implies {
                        &&& (#[trigger] o2[k]).index == a || o2[k].index == b
                        &&& none_or_pair(o2[k].parent, a, b)
                    } by {
                        if k < open.len() {
                            assert(o2[k] == open[k]);
                        }
                    }
                }
                lemma_pair_exact(m2, t, o2, rest, a, b)
            },
            Event::Exit { at } => {
                if open.len() == 0 {
                    0
                } else {
                    let h = open.last();
                    lemma_ended_wf(m, t, h, at);
                    let m2 = m.ended(t, h, at);
                    let o2 = open.drop_last();
                    assert(handles_valid(m2, o2)) by {
                        assert forall|k: int| 0 <= k < o2.len() implies m2.valid_handle(#[trigger] o2[k]) by {
                            assert(o2[k] == open[k]);
                        }
                    }
                    assert(confined_to_pair(m2, t, o2, a, b)) by {
                        assert forall|k: int| 0 <= k < o2.len() implies {
                            &&& (#[trigger] o2[k]).index == a || o2[k].index == b
                            &&& none_or_pair(o2[k].parent, a, b)
                        } by {
                            assert(o2[k] == open[k]);
                        }
                    }
                    assert(open[open.len() - 1] == h);
                    let j1 = lemma_ended_pair(m, t, h, at, a, b);
                    let j2 = lemma_pair_exact(m2, t, o2, rest, a, b);
                    j1 + j2
                }
            },
        }
    }
}

/// Mutual recursion between two regions `a` and `b`: when a thread with no
/// region open runs any sequence of entries into `a` and `b` and exits, the
/// exclusive times of `a` and `b` together grow by exactly the elapsed
/// time of the top-level invocations (modulo 2^64), whatever the depth.
pub proof fn lemma_mutual_recursion(m: ProfilerModel, t: int, evs: Seq<Event>, a: usize, b: usize)
    requires
        m.wf(),
        m.valid_thread(t),
        a != b,
        m.valid_region(a as int),
        m.valid_region(b as int),
        m.active_parent[t] is None,
        enters_only_pair(evs, a, b),
    ensures
        pair_exclusive(replay(m, t, Seq::empty(), evs).model, t, a, b) % modulus() == (pair_exclusive(m, t, a, b)
            + replay(m, t, Seq::empty(), evs).top_time) % modulus(),
{
    assert(events_valid(m, evs)) by {
        assert forall|k: int| 0 <= k < evs.len() implies match #[trigger] evs[k] {
            Event::Enter { slot, bytes, at } => m.valid_region(slot as int),
            Event::Exit { at } => true,
        } by {
            assert(enters_only_pair(evs, a, b));
        }
    }
    let j = lemma_pair_exact(m, t, Seq::empty(), evs, a, b);
    lemma_mod_shift(pair_exclusive(m, t, a, b) + replay(m, t, Seq::empty(), evs).top_time, j);
}

/// Entries into slot `x` at the cycles `starts`, in order.
pub open spec fn entries(x: usize, starts: Seq<u64>) -> Seq<Event> {
    Seq::new(starts.len(), |k: int| Event::Enter { slot: x, bytes: 0, at: starts[k] })
}

/// Exits at the cycles `ends`, in order.
pub open spec fn exits(ends: Seq<u64>) -> Seq<Event> {
    Seq::new(ends.len(), |k: int| Event::Exit { at: ends[k] })
}

/// A region `x` that calls itself: entered at `starts` (outermost first),
/// then left at `ends` (innermost first).
pub open spec fn self_recursion(x: usize, starts: Seq<u64>, ends: Seq<u64>) -> Seq<Event> {
    entries(x, starts) + exits(ends)
}

/// The handles that entering `x` at `starts` opens, the first with parent
/// `first_parent`, the others inside `x`.
pub open spec fn recursion_handles(x: usize, starts: Seq<u64>, first_parent: Option<usize>, baseline: u64) -> Seq<RegionHandle> {
    Seq::new(
        starts.len(),
        |k: int|
            RegionHandle {
                index: x,
                start_cycle: starts[k],
                parent: if k == 0 {
                    first_parent
                } else {
                    Some(x)
                },
                baseline_inclusive: baseline,
                bytes_processed: 0,
            },
    )
}

proof fn lemma_entries(m: ProfilerModel, t: int, open: Seq<RegionHandle>, x: usize, starts: Seq<u64>, rest: Seq<Event>)
    requires
        m.wf(),
        m.valid_thread(t),
        m.valid_region(x as int),
        starts.len() > 0,
    ensures
        replay(m, t, open, entries(x, starts) + rest) == replay(
            ProfilerModel { active_parent: m.active_parent.update(t, Some(x)), ..m },
            t,
            open + recursion_handles(x, starts, m.active_parent[t], m.timer(t, x as int).inclusive_time),
            rest,
        ),
    decreases starts.len(),
{
    let evs = entries(x, starts) + rest;
    let (m2, h0) = m.begun(t, x as int, 0, starts[0]);
    let tail = starts.drop_first();
    let b = m.timer(t, x as int).inclusive_time;
    assert(evs[0] == Event::Enter { slot: x, bytes: 0, at: starts[0] });
    assert(evs.drop_first() =~= entries(x, tail) + rest);
    if tail.len() == 0 {
        assert(entries(x, tail) + rest =~= rest);
        assert(open.push(h0) =~= open + recursion_handles(x, starts, m.active_parent[t], b));
    } else {
        lemma_begun_wf(m, t, x as int, 0, starts[0]);
        lemma_entries(m2, t, open.push(h0), x, tail, rest);
        assert(m2.active_parent.update(t, Some(x)) =~= m.active_parent.update(t, Some(x)));
        assert(open.push(h0) + recursion_handles(x, tail, Some(x), b) =~= open + recursion_handles(
            x,
            starts,
            m.active_parent[t],
            b,
        ));
    }
}

proof fn lemma_wadd_wsub(a: u64, e: u64)
    ensures
        wadd(wsub(a, e), e) == a,
{
    lemma_wsub_form(a, e);
    lemma_wadd_form(wsub(a, e), e);
}

#[verifier::rlimit(60)]
proof fn lemma_exits(m: ProfilerModel, t: int, x: usize, hs: Seq<RegionHandle>, es: Seq<u64>, baseline: u64)
    requires
        m.wf(),
        m.valid_thread(t),
        m.valid_region(x as int),
        hs.len() == es.len(),
        hs.len() >= 1,
        forall|k: int| 0 <= k < hs.len() ==> (#[trigger] hs[k]).index == x && hs[k].baseline_inclusive == baseline,
        hs[0].parent is None,
        forall|k: int| 1 <= k < hs.len() ==> (#[trigger] hs[k]).parent == Some(x),
        m.timer(t, x as int).hits + hs.len() < modulus(),
    ensures
        replay(m, t, hs, exits(es)).open.len() == 0,
        replay(m, t, hs, exits(es)).model.timer(t, x as int).hits == m.timer(t, x as int).hits + hs.len(),
        replay(m, t, hs, exits(es)).model.timer(t, x as int).exclusive_time == wadd(
            m.timer(t, x as int).exclusive_time,
            wsub(es[es.len() - 1], hs[0].start_cycle),
        ),
        replay(m, t, hs, exits(es)).model.timer(t, x as int).inclusive_time == wadd(
            baseline,
            wsub(es[es.len() - 1], hs[0].start_cycle),
        ),
    decreases hs.len(),
{
    let n = hs.len();
    let h = hs.last();
    let evs = exits(es);
    assert(evs[0] == Event::Exit { at: es[0] });
    assert(m.valid_handle(h));
    lemma_ended_wf(m, t, h, es[0]);
    let m2 = m.ended(t, h, es[0]);
    let e = ProfilerModel::elapsed(h, es[0]);
    let cur = m.timer(t, x as int);
    assert(replay(m, t, hs, evs).model == replay(m2, t, hs.drop_last(), evs.drop_first()).model);
    assert(replay(m, t, hs, evs).open == replay(m2, t, hs.drop_last(), evs.drop_first()).open);
    if n == 1 {
        assert(evs.drop_first().len() == 0);
        assert(replay(m2, t, hs.drop_last(), evs.drop_first()).model == m2);
        assert(replay(m2, t, hs.drop_last(), evs.drop_first()).open == hs.drop_last());
        assert(m2.timers[t][x as int] == m.completed_record(t, h, es[0]));
    } else {
        assert(h.parent == Some(x));
        lemma_wadd_wsub(cur.exclusive_time, e);
        assert(m2.timers[t][x as int] == m.completed_record(t, h, es[0]));
        assert(m2.timer(t, x as int).exclusive_time == cur.exclusive_time);
        assert(evs.drop_first() =~= exits(es.drop_first()));
        let hs2 = hs.drop_last();
        assert(hs2[0] == hs[0]);
        assert forall|k: int| 1 <= k < hs2.len() implies (#[trigger] hs2[k]).parent == Some(x) by {
            assert(hs2[k] == hs[k]);
        }
        assert forall|k: int| 0 <= k < hs2.len() implies (#[trigger] hs2[k]).index == x && hs2[k].baseline_inclusive == baseline by {
            assert(hs2[k] == hs[k]);
        }
        lemma_exits(m2, t, x, hs2, es.drop_first(), baseline);
        assert(es.drop_first()[es.drop_first().len() - 1] == es[es.len() - 1]);
    }
}

/// A region that calls itself `n` levels deep, entered at `starts` and left
/// at `ends` by a thread with no region open: afterwards the region has `n`
/// more hits, and both its inclusive and its exclusive time have grown by
/// the elapsed time of the outermost invocation alone, not by the sum of
/// the `n` invocations.
pub proof fn lemma_self_recursion(m: ProfilerModel, t: int, x: usize, starts: Seq<u64>, ends: Seq<u64>)
    requires
        m.wf(),
        m.valid_thread(t),
        m.valid_region(x as int),
        m.active_parent[t] is None,
        starts.len() == ends.len(),
        starts.len() >= 1,
        m.timer(t, x as int).hits + starts.len() < modulus(),
    ensures
        replay(m, t, Seq::empty(), self_recursion(x, starts, ends)).open.len() == 0,
        replay(m, t, Seq::empty(), self_recursion(x, starts, ends)).model.timer(t, x as int).hits
            == m.timer(t, x as int).hits + starts.len(),
        replay(m, t, Seq::empty(), self_recursion(x, starts, ends)).model.timer(t, x as int).inclusive_time
            == wadd(m.timer(t, x as int).inclusive_time, wsub(ends[ends.len() - 1], starts[0])),
        replay(m, t, Seq::empty(), self_recursion(x, starts, ends)).model.timer(t, x as int).exclusive_time
            == wadd(m.timer(t, x as int).exclusive_time, wsub(ends[ends.len() - 1], starts[0])),
{
    let b = m.timer(t, x as int).inclusive_time;
    lemma_entries(m, t, Seq::empty(), x, starts, exits(ends));
    let m1 = ProfilerModel { active_parent: m.active_parent.update(t, Some(x)), ..m };
    let hs = recursion_handles(x, starts, None, b);
    assert(Seq::<RegionHandle>::empty() + hs =~= hs);
    assert forall|u: int| 0 <= u < m1.threads() && (#[trigger] m1.active_parent[u]).is_some()
        implies m1.valid_region(m1.active_parent[u].unwrap() as int) by {
        if u != t {
            assert(m1.active_parent[u] == m.active_parent[u]);
        }
    }
    assert(m1.wf());
    lemma_exits(m1, t, x, hs, ends, b);
}

/// Slot `x` entered at `starts[k]` and left at `ends[k]`, one call after another.
pub open spec fn repeated_calls(x: usize, starts: Seq<u64>, ends: Seq<u64>) -> Seq<Event>
    decreases starts.len(),
{
    if starts.len() == 0 || ends.len() == 0 {
        Seq::empty()
    } else {
        seq![Event::Enter { slot: x, bytes: 0, at: starts[0] }, Event::Exit { at: ends[0] }]
            + repeated_calls(x, starts.drop_first(), ends.drop_first())
    }
}

/// Summed elapsed time of the first `k` calls.
pub open spec fn call_cycles(starts: Seq<u64>, ends: Seq<u64>, k: int) -> int
    decreases k,
{
    if k <= 0 {
        0
    } else {
        call_cycles(starts, ends, k - 1) + wsub(ends[k - 1], starts[k - 1])
    }
}

/// The average exclusive time per hit of slot `x` after the first `k + 1`
/// of the calls, starting from its record in `m`.
pub open spec fn average_after_call(m: ProfilerModel, t: int, x: usize, starts: Seq<u64>, ends: Seq<u64>, k: int) -> int {
    (m.timer(t, x as int).exclusive_time + call_cycles(starts, ends, k + 1)) / (m.timer(t, x as int).hits
        + k + 1)
}

proof fn lemma_call_cycles_shift(starts: Seq<u64>, ends: Seq<u64>, k: int)
    requires
        0 <= k,
        k + 1 <= starts.len(),
        starts.len() == ends.len(),
    ensures
        call_cycles(starts.drop_first(), ends.drop_first(), k) + wsub(ends[0], starts[0]) == call_cycles(
            starts,
            ends,
            k + 1,
        ),
    decreases k,
{
    assert(call_cycles(starts, ends, 0) == 0);
    assert(call_cycles(starts.drop_first(), ends.drop_first(), 0) == 0);
    if k > 0 {
        lemma_call_cycles_shift(starts, ends, k - 1);
        assert(starts.drop_first()[k - 1] == starts[k]);
        assert(ends.drop_first()[k - 1] == ends[k]);
    }
}

proof fn lemma_call_cycles_nonneg(starts: Seq<u64>, ends: Seq<u64>, k: int, l: int)
    requires
        0 <= l <= k,
    ensures
        call_cycles(starts, ends, l) <= call_cycles(starts, ends, k),
        0 <= call_cycles(starts, ends, l),
    decreases k,
{
    if k > l {
        lemma_call_cycles_nonneg(starts, ends, k - 1, l);
    } else if k > 0 {
        lemma_call_cycles_nonneg(starts, ends, k - 1, k - 1);
    }
}

#[verifier::rlimit(60)]
proof fn lemma_calls(m: ProfilerModel, t: int, x: usize, starts: Seq<u64>, ends: Seq<u64>)
    requires
        m.wf(),
        m.valid_thread(t),
        m.valid_region(x as int),
        m.active_parent[t] is None,
        starts.len() == ends.len(),
        m.timer(t, x as int).exclusive_time + call_cycles(starts, ends, starts.len() as int) < modulus(),
        m.timer(t, x as int).hits + starts.len() < modulus(),
    ensures
        ({
            let f = replay(m, t, Seq::empty(), repeated_calls(x, starts, ends)).model;
            &&& f.wf()
            &&& f.active_parent[t] is None
            &&& f.timer(t, x as int).exclusive_time == m.timer(t, x as int).exclusive_time + call_cycles(
                starts,
                ends,
                starts.len() as int,
            )
            &&& f.timer(t, x as int).hits == m.timer(t, x as int).hits + starts.len()
            &&& m.ignored[x as int] ==> f.ignored[x as int]
            &&& (forall|k: int|
                0 <= k < starts.len() ==> #[trigger] average_after_call(m, t, x, starts, ends, k)
                    < SHORT_INTERVAL_CYCLES) ==> {
                &&& f.ignored[x as int] || f.streak[x as int] == m.streak[x as int] + starts.len()
                &&& m.streak[x as int] + starts.len() >= SHORT_STREAK_LIMIT ==> f.ignored[x as int]
            }
            &&& (forall|k: int|
                0 <= k < starts.len() ==> #[trigger] average_after_call(m, t, x, starts, ends, k)
                    >= SHORT_INTERVAL_CYCLES) && !m.ignored[x as int] ==> !f.ignored[x as int]
        }),
    decreases starts.len(),
{
    let evs = repeated_calls(x, starts, ends);
    if starts.len() == 0 {
        assert(evs.len() == 0);
    } else {
        let n = starts.len() as int;
        let (m1, h) = m.begun(t, x as int, 0, starts[0]);
        lemma_begun_wf(m, t, x as int, 0, starts[0]);
        lemma_ended_wf(m1, t, h, ends[0]);
        let m2 = m1.ended(t, h, ends[0]);
        let rest = repeated_calls(x, starts.drop_first(), ends.drop_first());
        assert(evs[0] == Event::Enter { slot: x, bytes: 0, at: starts[0] });
        assert(evs.drop_first()[0] == Event::Exit { at: ends[0] });
        assert(evs.drop_first().drop_first() =~= rest);
        assert(Seq::<RegionHandle>::empty().push(h).last() == h);
        assert(Seq::<RegionHandle>::empty().push(h).drop_last() =~= Seq::<RegionHandle>::empty());
        let one = Seq::<RegionHandle>::empty().push(h);
        assert(replay(m, t, Seq::empty(), evs) == replay(m1, t, one, evs.drop_first()));
        assert(replay(m1, t, one, evs.drop_first()).model == replay(m2, t, Seq::empty(), rest).model);
        let d = wsub(ends[0], starts[0]);
        let cur = m.timer(t, x as int);
        lemma_call_cycles_nonneg(starts, ends, n, 1);
        assert(call_cycles(starts, ends, 0) == 0);
        assert(call_cycles(starts, ends, 1) == d);
        lemma_wadd_form(cur.exclusive_time, d);
        let rec = m1.completed_record(t, h, ends[0]);
        assert(rec.exclusive_time == cur.exclusive_time + d);
        assert(rec.hits == cur.hits + 1);
        assert(m2.timer(t, x as int) == rec);
        assert(m2.active_parent[t] is None);
        assert(m.ignored[x as int] ==> m2.ignored[x as int]);
        lemma_call_cycles_shift(starts, ends, n - 1);
        lemma_calls(m2, t, x, starts.drop_first(), ends.drop_first());
        let s2 = starts.drop_first();
        let e2 = ends.drop_first();
        assert forall|k: int| 0 <= k < s2.len() implies average_after_call(m2, t, x, s2, e2, k)
            == average_after_call(m, t, x, starts, ends, k + 1) by {
            lemma_call_cycles_shift(starts, ends, k + 1);
        }
        assert(rec.exclusive_time / rec.hits == average_after_call(m, t, x, starts, ends, 0));
        if forall|k: int|
            0 <= k < starts.len() ==> #[trigger] average_after_call(m, t, x, starts, ends, k)
                < SHORT_INTERVAL_CYCLES {
            assert(average_after_call(m, t, x, starts, ends, 0) < SHORT_INTERVAL_CYCLES);
            assert forall|k: int| 0 <= k < s2.len() implies #[trigger] average_after_call(m2, t, x, s2, e2, k)
                < SHORT_INTERVAL_CYCLES by {
                assert(average_after_call(m, t, x, starts, ends, k + 1) < SHORT_INTERVAL_CYCLES);
            }
        }
        if (forall|k: int|
            0 <= k < starts.len() ==> #[trigger] average_after_call(m, t, x, starts, ends, k)
                >= SHORT_INTERVAL_CYCLES) && !m.ignored[x as int] {
            assert(average_after_call(m, t, x, starts, ends, 0) >= SHORT_INTERVAL_CYCLES);
            assert forall|k: int| 0 <= k < s2.len() implies #[trigger] average_after_call(m2, t, x, s2, e2, k)
                >= SHORT_INTERVAL_CYCLES by {
                assert(average_after_call(m, t, x, starts, ends, k + 1) >= SHORT_INTERVAL_CYCLES);
            }
        }
    }
}

/// A region called again and again at top level, at least ten times, with
/// an average exclusive time per hit below the threshold after every call,
/// is suppressed once the calls are done.
pub proof fn lemma_short_region_suppressed(m: ProfilerModel, t: int, x: usize, starts: Seq<u64>, ends: Seq<u64>)
    requires
        m.wf(),
        m.valid_thread(t),
        m.valid_region(x as int),
        m.active_parent[t] is None,
        m.streak[x as int] == 0,
        starts.len() == ends.len(),
        starts.len() >= SHORT_STREAK_LIMIT,
        m.timer(t, x as int).exclusive_time + call_cycles(starts, ends, starts.len() as int) < modulus(),
        m.timer(t, x as int).hits + starts.len() < modulus(),
        forall|k: int|
            0 <= k < starts.len() ==> #[trigger] average_after_call(m, t, x, starts, ends, k)
                < SHORT_INTERVAL_CYCLES,
    ensures
        replay(m, t, Seq::empty(), repeated_calls(x, starts, ends)).model.ignored[x as int],
{
    lemma_calls(m, t, x, starts, ends);
}

/// A region whose average exclusive time per hit stays at or above the
/// threshold after every call is never suppressed, however many calls.
pub proof fn lemma_long_region_kept(m: ProfilerModel, t: int, x: usize, starts: Seq<u64>, ends: Seq<u64>)
    requires
        m.wf(),
        m.valid_thread(t),
        m.valid_region(x as int),
        m.active_parent[t] is None,
        !m.ignored[x as int],
        starts.len() == ends.len(),
        m.timer(t, x as int).exclusive_time + call_cycles(starts, ends, starts.len() as int) < modulus(),
        m.timer(t, x as int).hits + starts.len() < modulus(),
        forall|k: int|
            0 <= k < starts.len() ==> #[trigger] average_after_call(m, t, x, starts, ends, k)
                >= SHORT_INTERVAL_CYCLES,
    ensures
        !replay(m, t, Seq::empty(), repeated_calls(x, starts, ends)).model.ignored[x as int],
{
    lemma_calls(m, t, x, starts, ends);
}

proof fn lemma_exclusive_total_zero(s: Seq<Timer>, n: int)
    requires
        0 <= n <= s.len(),
        forall|i: int| 0 <= i < n ==> (#[trigger] s[i]).exclusive_time == 0,
    ensures
        exclusive_total(s, n) == 0,
    decreases n,
{
    if n > 0 {
        lemma_exclusive_total_zero(s, n - 1);
    }
}

proof fn lemma_mod_add_congruent(c: int, a: int, b: int)
    requires
        a % modulus() == b % modulus(),
    ensures
        (c + a) % modulus() == (c + b) % modulus(),
{
    lemma_mod_split(a);
    lemma_mod_split(b);
    let ka = a / modulus();
    let kb = b / modulus();
    assert(c + a == (c + b) + (ka - kb) * modulus()) by (nonlinear_arith)
        requires
            a == a % modulus() + ka * modulus(),
            b == b % modulus() + kb * modulus(),
            a % modulus() == b % modulus();
    lemma_mod_shift(c + b, ka - kb);
}

proof fn lemma_replay_other_threads(m: ProfilerModel, t: int, open: Seq<RegionHandle>, evs: Seq<Event>, u: int)
    requires
        u != t,
        0 <= u < m.threads(),
        m.valid_thread(t),
    ensures
        replay(m, t, open, evs).model.threads() == m.threads(),
        replay(m, t, open, evs).model.timers[u] == m.timers[u],
    decreases evs.len(),
{
    if evs.len() > 0 {
        let rest = evs.drop_first();
        match evs[0] {
            Event::Enter { slot, bytes, at } => {
                let (m2, h) = m.begun(t, slot as int, bytes, at);
                lemma_replay_other_threads(m2, t, open.push(h), rest, u);
            },
            Event::Exit { at } => {
                if open.len() > 0 {
                    let h = open.last();
                    let m2 = m.ended(t, h, at);
                    let tm = m.parent_charged(t, h, at).update(h.index as int, m.completed_record(t, h, at));
                    assert(m2.timers == m.timers.update(t, tm));
                    assert(m2.timers[u] == m.timers[u]);
                    lemma_replay_other_threads(m2, t, open.drop_last(), rest, u);
                }
            },
        }
    }
}

/// Thread `t`, starting with no exclusive time recorded, runs any sequence
/// of entries and exits; a report is then taken in which `t` is the only
/// thread that hit a region, no region is suppressed and every region
/// without hits holds no exclusive time. The report's remainder plus the
/// elapsed time of the top-level invocations is the thread's observed
/// window, modulo 2^64.
pub proof fn lemma_top_level_time_and_remainder(m0: ProfilerModel, t: int, evs: Seq<Event>, now: u64, r: Report)
    requires
        m0.wf(),
        m0.valid_thread(t),
        forall|i: int| 0 <= i < MAX_TIMERS ==> (#[trigger] m0.timers[t][i]).exclusive_time == 0,
        events_valid(m0, evs),
        ({
            let m = replay(m0, t, Seq::empty(), evs).model.finalized(now);
            &&& only_thread_used(m, t)
            &&& forall|i: int| 0 <= i < MAX_TIMERS ==> !m.ignored[i]
            &&& forall|i: int|
                0 <= i < MAX_TIMERS && (#[trigger] m.timers[t][i]).hits == 0 ==> m.timers[t][i].exclusive_time
                    == 0
            &&& forall|i: int| m.count() <= i < MAX_TIMERS ==> (#[trigger] m.timers[t][i]).hits == 0
            &&& m.report_matches(r)
        }),
    ensures
        r.total_time_cycles == replay(m0, t, Seq::empty(), evs).model.finalized(now).thread_times[t],
        (r.remainder + replay(m0, t, Seq::empty(), evs).top_time) % modulus() == r.total_time_cycles as int,
{
    let rp = replay(m0, t, Seq::empty(), evs);
    let m1 = rp.model;
    let m = m1.finalized(now);
    assert(handles_valid(m0, Seq::empty()));
    lemma_replay_wf(m0, t, Seq::empty(), evs);
    assert(m.wf()) by {
        assert forall|u: int| 0 <= u < m.threads() && (#[trigger] m.active_parent[u]).is_some()
            implies m.valid_region(m.active_parent[u].unwrap() as int) by {
            assert(m.active_parent[u] == m1.active_parent[u]);
        }
    }
    lemma_exclusive_time_partition(m0, t, Seq::empty(), evs);
    lemma_exclusive_total_zero(m0.timers[t], MAX_TIMERS as int);
    lemma_remainder_completes_total(m, t, r);
    let et = exclusive_total(m.timers[t], MAX_TIMERS as int);
    assert(m.timers == m1.timers);
    assert(et % modulus() == rp.top_time % modulus());
    lemma_mod_add_congruent(r.remainder as int, rp.top_time, et);
}

/// The open handles of thread `t` form its nesting chain: the first has no
/// parent, each other one's parent is the region of the handle before it,
/// and the thread's active region is that of the last one.
pub open spec fn nesting_chain(m: ProfilerModel, t: int, open: Seq<RegionHandle>) -> bool {
    &&& forall|k: int| 0 < k < open.len() ==> (#[trigger] open[k]).parent == Some(open[k - 1].index)
    &&& open.len() > 0 ==> open[0].parent is None
    &&& m.active_parent[t] == if open.len() == 0 {
        None
    } else {
        Some(open.last().index)
    }
}

/// On thread `t`, a slot that is not open and was never hit holds no
/// exclusive time, and an unregistered slot holds nothing at all.
pub open spec fn idle_slots_clear(m: ProfilerModel, t: int, open: Seq<RegionHandle>) -> bool {
    &&& forall|i: int|
        0 <= i < MAX_TIMERS && (#[trigger] m.timers[t][i]).hits == 0 && (forall|k: int|
            0 <= k < open.len() ==> (#[trigger] open[k]).index != i) ==> m.timers[t][i].exclusive_time == 0
    &&& forall|i: int| m.count() <= i < MAX_TIMERS ==> #[trigger] m.timers[t][i] == zero_timer()
}

#[verifier::rlimit(60)]
proof fn lemma_idle_slots_clear(m: ProfilerModel, t: int, open: Seq<RegionHandle>, evs: Seq<Event>)
    requires
        m.wf(),
        m.valid_thread(t),
        handles_valid(m, open),
        events_valid(m, evs),
        nesting_chain(m, t, open),
        idle_slots_clear(m, t, open),
        forall|i: int| 0 <= i < MAX_TIMERS ==> (#[trigger] m.timers[t][i]).hits + evs.len() < modulus(),
    ensures
        nesting_chain(replay(m, t, open, evs).model, t, replay(m, t, open, evs).open),
        idle_slots_clear(replay(m, t, open, evs).model, t, replay(m, t, open, evs).open),
    decreases evs.len(),
{
    if evs.len() > 0 {
        lemma_rest_valid(m, evs);
        let rest = evs.drop_first();
        match evs[0] {
            Event::Enter { slot, bytes, at } => {
                assert(m.valid_region(slot as int)) by {
                    assert(evs[0] == evs[0]);
                }
                lemma_begun_wf(m, t, slot as int, bytes, at);
                let (m2, h) = m.begun(t, slot as int, bytes, at);
                let o2 = open.push(h);
                assert(handles_valid(m2, o2)) by {
                    assert forall|k: int| 0 <= k < o2.len() implies m2.valid_handle(#[trigger] o2[k]) by {
                        if k < open.len() {
                            assert(o2[k] == open[k]);
                        }
                    }
                }
                assert(nesting_chain(m2, t, o2)) by {
                    assert forall|k: int| 0 < k < o2.len() implies (#[trigger] o2[k]).parent == Some(o2[k - 1].index) by {
                        if k < open.len() {
                            assert(o2[k] == open[k]);
                        }
                        assert(o2[k - 1] == open[k - 1]);
                    }
                    if open.len() > 0 {
                        assert(o2[0] == open[0]);
                    }
                }
                assert(idle_slots_clear(m2, t, o2)) by {
                    assert forall|i: int|
                        0 <= i < MAX_TIMERS && (#[trigger] m2.timers[t][i]).hits == 0 && (forall|k: int|
                            0 <= k < o2.len() ==> (#[trigger] o2[k]).index != i) implies m2.timers[t][i].exclusive_time == 0 by {
                        assert forall|k: int| 0 <= k < open.len() implies (#[trigger] open[k]).index != i by {
                            assert(o2[k] == open[k]);
                        }
                    }
                }
                lemma_idle_slots_clear(m2, t, o2, rest);
            },
            Event::Exit { at } => {
                if open.len() > 0 {
                    let h = open.last();
                    let n = open.len() as int;
                    lemma_ended_wf(m, t, h, at);
                    let m2 = m.ended(t, h, at);
                    let o2 = open.drop_last();
                    let s0 = m.timers[t];
                    let s1 = m.parent_charged(t, h, at);
                    let rec = m.completed_record(t, h, at);
                    assert(m2.timers[t] == s1.update(h.index as int, rec));
                    assert(m.valid_handle(open[n - 1]));
                    lemma_wadd_form(s1[h.index as int].hits, 1);
                    assert(handles_valid(m2, o2)) by {
                        assert forall|k: int| 0 <= k < o2.len() implies m2.valid_handle(#[trigger] o2[k]) by {
                            assert(o2[k] == open[k]);
                        }
                    }
                    assert(nesting_chain(m2, t, o2)) by {
                        assert forall|k: int| 0 < k < o2.len() implies (#[trigger] o2[k]).parent == Some(o2[k - 1].index) by {
                            assert(o2[k] == open[k]);
                            assert(o2[k - 1] == open[k - 1]);
                        }
                        if n > 1 {
                            assert(o2[0] == open[0]);
                            assert(open[n - 1].parent == Some(open[n - 2].index));
                            assert(o2.last() == open[n - 2]);
                        }
                    }
                    assert(idle_slots_clear(m2, t, o2)) by {
                        assert forall|i: int|
                            0 <= i < MAX_TIMERS && (#[trigger] m2.timers[t][i]).hits == 0 && (forall|k: int|
                                0 <= k < o2.len() ==> (#[trigger] o2[k]).index != i) implies m2.timers[t][i].exclusive_time
                            == 0 by {
                            if i == h.index as int {
                                assert(m2.timers[t][i] == rec);
                            } else if n > 1 && i == open[n - 2].index as int {
                                assert(o2[n - 2] == open[n - 2]);
                            } else {
                                if n > 1 {
                                    assert(h.parent == Some(open[n - 2].index));
                                }
                                assert(m2.timers[t][i] == s0[i]);
                                assert forall|k: int| 0 <= k < open.len() implies (#[trigger] open[k]).index != i by {
                                    if k < n - 1 {
                                        assert(o2[k] == open[k]);
                                    }
                                }
                            }
                        }
                        assert forall|i: int| m2.count() <= i < MAX_TIMERS implies #[trigger] m2.timers[t][i] == zero_timer() by {
                            assert(m2.timers[t][i] == s0[i]);
                        }
                    }
                    assert forall|i: int| 0 <= i < MAX_TIMERS implies (#[trigger] m2.timers[t][i]).hits + rest.len() < modulus() by {
                        if i != h.index as int {
                            assert(m2.timers[t][i].hits == s0[i].hits);
                        }
                    }
                    lemma_idle_slots_clear(m2, t, o2, rest);
                }
            },
        }
    }
}

/// A fresh profiler (every record zero) whose thread `t`, with no region
/// open, runs a complete nesting of entries and exits (every region entered
/// is left again, at most 2^64 - 1 calls), no other thread running any
/// region, and is then reported with no region suppressed: the report's
/// remainder plus the elapsed time of the top-level invocations is the
/// thread's observed window, modulo 2^64.
pub proof fn lemma_complete_nesting_accounts_for_window(m0: ProfilerModel, t: int, evs: Seq<Event>, now: u64, r: Report)
    requires
        m0.wf(),
        m0.valid_thread(t),
        m0.active_parent[t] is None,
        forall|u: int, i: int|
            0 <= u < m0.threads() && 0 <= i < MAX_TIMERS ==> #[trigger] m0.timers[u][i] == zero_timer(),
        events_valid(m0, evs),
        evs.len() < modulus(),
        replay(m0, t, Seq::empty(), evs).open.len() == 0,
        ({
            let m = replay(m0, t, Seq::empty(), evs).model.finalized(now);
            &&& m.thread_used(t)
            &&& forall|i: int| 0 <= i < MAX_TIMERS ==> !m.ignored[i]
            &&& m.report_matches(r)
        }),
    ensures
        r.total_time_cycles == replay(m0, t, Seq::empty(), evs).model.finalized(now).thread_times[t],
        (r.remainder + replay(m0, t, Seq::empty(), evs).top_time) % modulus() == r.total_time_cycles as int,
{
    let e = Seq::<RegionHandle>::empty();
    assert(handles_valid(m0, e));
    assert(nesting_chain(m0, t, e));
    assert(idle_slots_clear(m0, t, e));
    lemma_idle_slots_clear(m0, t, e, evs);
    let rp = replay(m0, t, e, evs);
    let m1 = rp.model;
    let m = m1.finalized(now);
    assert(m.timers == m1.timers);
    lemma_replay_wf(m0, t, e, evs);
    assert forall|i: int|
        0 <= i < MAX_TIMERS && (#[trigger] m.timers[t][i]).hits == 0 implies m.timers[t][i].exclusive_time == 0 by {
        assert(forall|k: int| 0 <= k < rp.open.len() ==> (#[trigger] rp.open[k]).index != i);
    }
    assert forall|i: int| m.count() <= i < MAX_TIMERS implies (#[trigger] m.timers[t][i]).hits == 0 by {
        assert(m1.timers[t][i] == zero_timer());
    }
    assert forall|u: int| 0 <= u < m.threads() && u != t implies !m.thread_used(u) by {
        lemma_replay_other_threads(m0, t, e, evs, u);
        if m.thread_used(u) {
            let i = choose|i: int| 0 <= i < m.count() && #[trigger] m.timers[u][i].hits > 0;
            assert(m0.timers[u][i] == zero_timer());
        }
    }
    lemma_top_level_time_and_remainder(m0, t, evs, now, r);
}

/// The cycle at which an event happens.
pub open spec fn event_time(e: Event) -> u64 {
    match e {
        Event::Enter { slot, bytes, at } => at,
        Event::Exit { at } => at,
    }
}

/// The events happen at cycles that never decrease, from `from` on.
pub open spec fn events_ordered(evs: Seq<Event>, from: u64) -> bool
    decreases evs.len(),
{
    evs.len() == 0 || (event_time(evs[0]) >= from && events_ordered(evs.drop_first(), event_time(evs[0])))
}

/// The cycle of the last event, or `from` when there is none.
pub open spec fn last_time(evs: Seq<Event>, from: u64) -> u64
    decreases evs.len(),
{
    if evs.len() == 0 {
        from
    } else {
        last_time(evs.drop_first(), event_time(evs[0]))
    }
}

/// What the open handles would still move into slot `y`'s exclusive time
/// if they were all left at cycle `now`: each adds its span to its own
/// region and takes it from its parent.
pub open spec fn pending_exclusive(open: Seq<RegionHandle>, y: int, now: int) -> int
    decreases open.len(),
{
    if open.len() == 0 {
        0
    } else {
        let h = open.last();
        pending_exclusive(open.drop_last(), y, now) + (if h.index as int == y {
            now - h.start_cycle
        } else {
            0
        }) - (if h.parent == Some(y as usize) {
            now - h.start_cycle
        } else {
            0
        })
    }
}

/// The outermost open handle of slot `y`, if any.
pub open spec fn outer_frame(open: Seq<RegionHandle>, y: int) -> Option<RegionHandle>
    decreases open.len(),
{
    if open.len() == 0 {
        None
    } else {
        match outer_frame(open.drop_last(), y) {
            Some(h) => Some(h),
            None => if open.last().index as int == y {
                Some(open.last())
            } else {
                None
            },
        }
    }
}

/// Slot `y`'s inclusive time if every open handle were left at `now`.
pub open spec fn inclusive_if_closed(m: ProfilerModel, t: int, open: Seq<RegionHandle>, y: int, now: int) -> int {
    match outer_frame(open, y) {
        Some(h) => h.baseline_inclusive + (now - h.start_cycle),
        None => m.timers[t][y].inclusive_time as int,
    }
}

/// Slot `y`'s exclusive time if every open handle were left at `now`.
pub open spec fn exclusive_if_closed(m: ProfilerModel, t: int, open: Seq<RegionHandle>, y: int, now: int) -> int {
    (m.timers[t][y].exclusive_time + pending_exclusive(open, y, now)) % modulus()
}

/// On thread `t`, with every handle opened between `origin` and `now`:
/// the handles form the nesting chain; an outermost handle's baseline, or a
/// closed slot's inclusive time, fits in the time since `origin`; and each
/// slot's exclusive time, were everything left now, is within its
/// inclusive time.
pub open spec fn exclusive_within_inclusive(m: ProfilerModel, t: int, open: Seq<RegionHandle>, now: u64, origin: u64) -> bool {
    &&& nesting_chain(m, t, open)
    &&& origin <= now
    &&& forall|j: int| 0 <= j < open.len() ==> origin <= (#[trigger] open[j]).start_cycle <= now
    &&& forall|y: int|
        0 <= y < MAX_TIMERS ==> match #[trigger] outer_frame(open, y) {
            Some(h) => h.baseline_inclusive + origin <= h.start_cycle,
            None => m.timers[t][y].inclusive_time + origin <= now,
        }
    &&& forall|y: int|
        0 <= y < MAX_TIMERS ==> #[trigger] exclusive_if_closed(m, t, open, y, now as int) <= inclusive_if_closed(
            m,
            t,
            open,
            y,
            now as int,
        )
}

/// Along a nesting chain, moving the closing cycle forward by `d` moves only
/// the innermost region's pending exclusive time, by `d`.
proof fn lemma_pending_advance(m: ProfilerModel, t: int, open: Seq<RegionHandle>, y: int, a: int, b: int)
    requires
        0 <= y < MAX_TIMERS,
        forall|k: int| 0 < k < open.len() ==> (#[trigger] open[k]).parent == Some(open[k - 1].index),
        open.len() > 0 ==> open[0].parent is None,
    ensures
        pending_exclusive(open, y, b) == pending_exclusive(open, y, a) + if open.len() > 0 && open.last().index
            as int == y {
            b - a
        } else {
            0
        },
    decreases open.len(),
{
    if open.len() > 0 {
        let dl = open.drop_last();
        assert forall|k: int| 0 < k < dl.len() implies (#[trigger] dl[k]).parent == Some(dl[k - 1].index) by {
            assert(dl[k] == open[k] && dl[k - 1] == open[k - 1]);
        }
        let h = open.last();
        if dl.len() > 0 {
            assert(dl[0] == open[0]);
            assert(open[open.len() - 1].parent == Some(open[open.len() - 2].index));
            assert(dl.last() == open[open.len() - 2]);
            assert((h.parent == Some(y as usize)) == (dl.last().index as int == y));
        } else {
            assert(h.parent is None);
        }
        lemma_pending_advance(m, t, dl, y, a, b);
    }
}

/// A value below the modulus moved forward by `d` without reaching it.
proof fn lemma_mod_advance(a: int, d: int)
    requires
        d >= 0,
        a % modulus() + d < modulus(),
    ensures
        (a + d) % modulus() == a % modulus() + d,
{
    lemma_mod_split(a);
    let q = a / modulus();
    let v = a % modulus() + d;
    lemma_mod_shift(v, q);
    assert(a + d == v + q * modulus()) by (nonlinear_arith)
        requires a == a % modulus() + q * modulus(), v == a % modulus() + d;
    vstd::arithmetic::div_mod::lemma_small_mod(v as nat, modulus() as nat);
}

/// Leaving `h` changes slot `y`'s exclusive time by the span when `y` is
/// `h`'s region, and by minus the span when `y` is its parent, modulo 2^64.
proof fn lemma_ended_exclusive_slot(m: ProfilerModel, t: int, h: RegionHandle, now: u64, y: int) -> (k: int)
    requires
        m.wf(),
        m.valid_thread(t),
        m.valid_handle(h),
        0 <= y < MAX_TIMERS,
    ensures
        m.ended(t, h, now).timers[t][y].exclusive_time == m.timers[t][y].exclusive_time + (if h.index as int
            == y {
            ProfilerModel::elapsed(h, now) as int
        } else {
            0
        }) - (if h.parent == Some(y as usize) {
            ProfilerModel::elapsed(h, now) as int
        } else {
            0
        }) + k * modulus(),
{
    let e = ProfilerModel::elapsed(h, now);
    let s0 = m.timers[t];
    let s1 = m.parent_charged(t, h, now);
    let rec = m.completed_record(t, h, now);
    assert(m.ended(t, h, now).timers[t] == s1.update(h.index as int, rec));
    lemma_wadd_form(s1[h.index as int].exclusive_time, e);
    let j2: int = if s1[h.index as int].exclusive_time + e >= modulus() { -1 } else { 0 };
    match h.parent {
        Some(p) => {
            lemma_wsub_form(s0[p as int].exclusive_time, e);
            let j1: int = if s0[p as int].exclusive_time >= e { 0 } else { 1 };
            if y == h.index as int && y == p as int {
                j1 + j2
            } else if y == h.index as int {
                j2
            } else if y == p as int {
                j1
            } else {
                0
            }
        },
        None => {
            if y == h.index as int {
                j2
            } else {
                0
            }
        },
    }
}

/// The inclusive time of `y` if everything were left at `now` fits in the
/// time since `origin`.
proof fn lemma_inclusive_if_closed_bound(m: ProfilerModel, t: int, open: Seq<RegionHandle>, now: u64, origin: u64, y: int)
    requires
        exclusive_within_inclusive(m, t, open, now, origin),
        0 <= y < MAX_TIMERS,
    ensures
        inclusive_if_closed(m, t, open, y, now as int) <= now - origin,
{
    assert(match outer_frame(open, y) {
        Some(h) => h.baseline_inclusive + origin <= h.start_cycle,
        None => m.timers[t][y].inclusive_time + origin <= now,
    });
}

#[verifier::rlimit(80)]
proof fn lemma_enter_step(m: ProfilerModel, t: int, open: Seq<RegionHandle>, x: int, bytes: u64, at: u64, now: u64, origin: u64)
    requires
        m.wf(),
        m.valid_thread(t),
        m.valid_region(x),
        at >= now,
        exclusive_within_inclusive(m, t, open, now, origin),
    ensures
        exclusive_within_inclusive(m.begun(t, x, bytes, at).0, t, open.push(m.begun(t, x, bytes, at).1), at, origin),
{
    let (m2, h) = m.begun(t, x, bytes, at);
    let o2 = open.push(h);
    assert(o2.drop_last() =~= open);
    assert(o2.last() == h);
    assert(nesting_chain(m2, t, o2)) by {
        assert forall|k: int| 0 < k < o2.len() implies (#[trigger] o2[k]).parent == Some(o2[k - 1].index) by {
            if k < open.len() {
                assert(o2[k] == open[k]);
            }
            assert(o2[k - 1] == open[k - 1]);
        }
        if open.len() > 0 {
            assert(o2[0] == open[0]);
        }
    }
    assert forall|j: int| 0 <= j < o2.len() implies origin <= (#[trigger] o2[j]).start_cycle <= at by {
        if j < open.len() {
            assert(o2[j] == open[j]);
        }
    }
    assert forall|y: int| 0 <= y < MAX_TIMERS implies match #[trigger] outer_frame(o2, y) {
        Some(g) => g.baseline_inclusive + origin <= g.start_cycle,
        None => m2.timers[t][y].inclusive_time + origin <= at,
    } by {
        assert(match outer_frame(open, y) {
            Some(g) => g.baseline_inclusive + origin <= g.start_cycle,
            None => m.timers[t][y].inclusive_time + origin <= now,
        });
    }
    assert forall|y: int| 0 <= y < MAX_TIMERS implies #[trigger] exclusive_if_closed(m2, t, o2, y, at as int)
        <= inclusive_if_closed(m2, t, o2, y, at as int) by {
        lemma_pending_advance(m, t, open, y, now as int, at as int);
        lemma_inclusive_if_closed_bound(m, t, open, now, origin, y);
        assert(pending_exclusive(o2, y, at as int) == pending_exclusive(open, y, at as int));
        let a = m.timers[t][y].exclusive_time + pending_exclusive(open, y, now as int);
        assert(exclusive_if_closed(m, t, open, y, now as int) <= inclusive_if_closed(m, t, open, y, now as int));
        if open.len() > 0 && open.last().index as int == y {
            assert(outer_frame(open, y).is_some());
            lemma_mod_advance(a, at - now);
        }
    }
}

#[verifier::rlimit(80)]
proof fn lemma_exit_step(m: ProfilerModel, t: int, open: Seq<RegionHandle>, at: u64, now: u64, origin: u64)
    requires
        m.wf(),
        m.valid_thread(t),
        handles_valid(m, open),
        open.len() > 0,
        at >= now,
        exclusive_within_inclusive(m, t, open, now, origin),
    ensures
        exclusive_within_inclusive(m.ended(t, open.last(), at), t, open.drop_last(), at, origin),
{
    let f = open.last();
    let n = open.len() as int;
    let x = f.index as int;
    let dl = open.drop_last();
    let m2 = m.ended(t, f, at);
    assert(open[n - 1] == f);
    assert(m.valid_handle(f));
    assert(origin <= f.start_cycle <= now);
    let e = ProfilerModel::elapsed(f, at);
    assert(e as int == at - f.start_cycle);
    let s1 = m.parent_charged(t, f, at);
    let rec = m.completed_record(t, f, at);
    assert(m2.timers[t] == s1.update(f.index as int, rec));
    assert(open =~= dl.push(f));
    assert(nesting_chain(m2, t, dl)) by {
        assert forall|k: int| 0 < k < dl.len() implies (#[trigger] dl[k]).parent == Some(dl[k - 1].index) by {
            assert(dl[k] == open[k]);
            assert(dl[k - 1] == open[k - 1]);
        }
        if n > 1 {
            assert(dl[0] == open[0]);
            assert(open[n - 1].parent == Some(open[n - 2].index));
            assert(dl.last() == open[n - 2]);
        }
    }
    assert forall|j: int| 0 <= j < dl.len() implies origin <= (#[trigger] dl[j]).start_cycle <= at by {
        assert(dl[j] == open[j]);
    }
    assert forall|y: int| 0 <= y < MAX_TIMERS implies match #[trigger] outer_frame(dl, y) {
        Some(g) => g.baseline_inclusive + origin <= g.start_cycle,
        None => m2.timers[t][y].inclusive_time + origin <= at,
    } by {
        assert(match outer_frame(open, y) {
            Some(g) => g.baseline_inclusive + origin <= g.start_cycle,
            None => m.timers[t][y].inclusive_time + origin <= now,
        });
        if y != x {
            assert(m2.timers[t][y].inclusive_time == m.timers[t][y].inclusive_time);
        } else if outer_frame(dl, y) is None {
            lemma_wadd_form(f.baseline_inclusive, e);
        }
    }
    assert forall|y: int| 0 <= y < MAX_TIMERS implies #[trigger] exclusive_if_closed(m2, t, dl, y, at as int)
        <= inclusive_if_closed(m2, t, dl, y, at as int) by {
        let k = lemma_ended_exclusive_slot(m, t, f, at, y);
        lemma_pending_advance(m, t, open, y, now as int, at as int);
        lemma_inclusive_if_closed_bound(m, t, open, now, origin, y);
        assert(match outer_frame(open, y) {
            Some(g) => g.baseline_inclusive + origin <= g.start_cycle,
            None => m.timers[t][y].inclusive_time + origin <= now,
        });
        let a = m.timers[t][y].exclusive_time + pending_exclusive(open, y, now as int);
        let b = m.timers[t][y].exclusive_time + pending_exclusive(open, y, at as int);
        assert(m2.timers[t][y].exclusive_time + pending_exclusive(dl, y, at as int) == b + k * modulus());
        lemma_mod_shift(b, k);
        assert(exclusive_if_closed(m, t, open, y, now as int) <= inclusive_if_closed(m, t, open, y, now as int));
        if y != x {
            assert(m2.timers[t][y].inclusive_time == m.timers[t][y].inclusive_time);
        } else {
            lemma_mod_advance(a, at - now);
            if outer_frame(dl, y) is None {
                lemma_wadd_form(f.baseline_inclusive, e);
            }
        }
    }
}

proof fn lemma_last_time_ge(evs: Seq<Event>, from: u64)
    requires
        events_ordered(evs, from),
    ensures
        last_time(evs, from) >= from,
    decreases evs.len(),
{
    if evs.len() > 0 {
        lemma_last_time_ge(evs.drop_first(), event_time(evs[0]));
    }
}

proof fn lemma_exclusive_within_inclusive_replay(m: ProfilerModel, t: int, open: Seq<RegionHandle>, evs: Seq<Event>, now: u64, origin: u64)
    requires
        m.wf(),
        m.valid_thread(t),
        handles_valid(m, open),
        events_valid(m, evs),
        events_ordered(evs, now),
        exclusive_within_inclusive(m, t, open, now, origin),
    ensures
        exclusive_within_inclusive(
            replay(m, t, open, evs).model,
            t,
            replay(m, t, open, evs).open,
            last_time(evs, now),
            origin,
        ),
    decreases evs.len(),
{
    if evs.len() > 0 {
        lemma_rest_valid(m, evs);
        let rest = evs.drop_first();
        let at = event_time(evs[0]);
        match evs[0] {
            Event::Enter { slot, bytes, at } => {
                assert(m.valid_region(slot as int)) by {
                    assert(evs[0] == evs[0]);
                }
                lemma_begun_wf(m, t, slot as int, bytes, at);
                let (m2, h) = m.begun(t, slot as int, bytes, at);
                let o2 = open.push(h);
                assert(handles_valid(m2, o2)) by {
                    assert forall|k: int| 0 <= k < o2.len() implies m2.valid_handle(#[trigger] o2[k]) by {
                        if k < open.len() {
                            assert(o2[k] == open[k]);
                        }
                    }
                }
                lemma_enter_step(m, t, open, slot as int, bytes, at, now, origin);
                lemma_exclusive_within_inclusive_replay(m2, t, o2, rest, at, origin);
            },
            Event::Exit { at } => {
                if open.len() > 0 {
                    let h = open.last();
                    lemma_ended_wf(m, t, h, at);
                    let m2 = m.ended(t, h, at);
                    let o2 = open.drop_last();
                    assert(handles_valid(m2, o2)) by {
                        assert forall|k: int| 0 <= k < o2.len() implies m2.valid_handle(#[trigger] o2[k]) by {
                            assert(o2[k] == open[k]);
                        }
                    }
                    lemma_exit_step(m, t, open, at, now, origin);
                    lemma_exclusive_within_inclusive_replay(m2, t, o2, rest, at, origin);
                } else {
                    lemma_last_time_ge(evs, now);
                    let later = last_time(evs, now);
                    assert forall|y: int| 0 <= y < MAX_TIMERS implies match #[trigger] outer_frame(open, y) {
                        Some(g) => g.baseline_inclusive + origin <= g.start_cycle,
                        None => m.timers[t][y].inclusive_time + origin <= later,
                    } by {
                        assert(match outer_frame(open, y) {
                            Some(g) => g.baseline_inclusive + origin <= g.start_cycle,
                            None => m.timers[t][y].inclusive_time + origin <= now,
                        });
                    }
                    assert forall|y: int| 0 <= y < MAX_TIMERS implies #[trigger] exclusive_if_closed(m, t, open, y, later as int)
                        <= inclusive_if_closed(m, t, open, y, later as int) by {
                        assert(exclusive_if_closed(m, t, open, y, now as int) <= inclusive_if_closed(m, t, open, y, now as int));
                    }
                }
            },
        }
    }
}

/// Exclusive time never exceeds inclusive time: on a thread that starts
/// with every record zero and no region open, and runs a complete nesting
/// of entries and exits whose cycle readings never decrease (so no span
/// wraps), every region ends with its exclusive time at most its inclusive
/// time.
pub proof fn lemma_exclusive_within_inclusive(m0: ProfilerModel, t: int, evs: Seq<Event>, origin: u64)
    requires
        m0.wf(),
        m0.valid_thread(t),
        m0.active_parent[t] is None,
        forall|i: int| 0 <= i < MAX_TIMERS ==> #[trigger] m0.timers[t][i] == zero_timer(),
        events_valid(m0, evs),
        events_ordered(evs, origin),
        replay(m0, t, Seq::empty(), evs).open.len() == 0,
    ensures
        forall|y: int|
            0 <= y < MAX_TIMERS ==> (#[trigger] replay(m0, t, Seq::empty(), evs).model.timers[t][y]).exclusive_time
                <= replay(m0, t, Seq::empty(), evs).model.timers[t][y].inclusive_time,
{
    let e = Seq::<RegionHandle>::empty();
    assert(handles_valid(m0, e));
    assert(nesting_chain(m0, t, e));
    assert forall|y: int| 0 <= y < MAX_TIMERS implies #[trigger] exclusive_if_closed(m0, t, e, y, origin as int)
        <= inclusive_if_closed(m0, t, e, y, origin as int) by {
        assert(m0.timers[t][y] == zero_timer());
    }
    assert forall|y: int| 0 <= y < MAX_TIMERS implies match #[trigger] outer_frame(e, y) {
        Some(g) => g.baseline_inclusive + origin <= g.start_cycle,
        None => m0.timers[t][y].inclusive_time + origin <= origin,
    } by {
        assert(m0.timers[t][y] == zero_timer());
    }
    lemma_exclusive_within_inclusive_replay(m0, t, e, evs, origin, origin);
    let rp = replay(m0, t, e, evs);
    assert forall|y: int| 0 <= y < MAX_TIMERS implies (#[trigger] rp.model.timers[t][y]).exclusive_time
        <= rp.model.timers[t][y].inclusive_time by {
        assert(exclusive_if_closed(rp.model, t, rp.open, y, last_time(evs, origin) as int) <= inclusive_if_closed(
            rp.model,
            t,
            rp.open,
            y,
            last_time(evs, origin) as int,
        ));
        vstd::arithmetic::div_mod::lemma_small_mod(rp.model.timers[t][y].exclusive_time as nat, modulus() as nat);
    }
}

/// The noise policy applied to slot `i` at successive looks, the k-th
/// seeing the record `recs[k]`, as `get_timer_mut` applies it.
pub open spec fn noted_all(m: ProfilerModel, i: int, recs: Seq<Timer>) -> ProfilerModel
    decreases recs.len(),
{
    if recs.len() == 0 {
        m
    } else {
        noted_all(m.noted(i, recs[0]), i, recs.drop_first())
    }
}

proof fn lemma_noted_all(m: ProfilerModel, i: int, recs: Seq<Timer>)
    requires
        0 <= i < m.ignored.len(),
        m.streak.len() == m.ignored.len(),
        m.ignored[i] || m.streak[i] < SHORT_STREAK_LIMIT,
    ensures
        noted_all(m, i, recs).ignored.len() == m.ignored.len(),
        m.ignored[i] ==> noted_all(m, i, recs).ignored[i],
        (forall|k: int| 0 <= k < recs.len() ==> ProfilerModel::is_short(#[trigger] recs[k])) ==> {
            &&& noted_all(m, i, recs).ignored[i] || noted_all(m, i, recs).streak[i] == m.streak[i] + recs.len()
            &&& m.streak[i] + recs.len() >= SHORT_STREAK_LIMIT ==> noted_all(m, i, recs).ignored[i]
        },
        (forall|k: int| 0 <= k < recs.len() ==> !ProfilerModel::is_short(#[trigger] recs[k])) && !m.ignored[i]
            ==> !noted_all(m, i, recs).ignored[i],
    decreases recs.len(),
{
    if recs.len() > 0 {
        let rest = recs.drop_first();
        let m1 = m.noted(i, recs[0]);
        lemma_noted_all(m1, i, rest);
        if forall|k: int| 0 <= k < recs.len() ==> ProfilerModel::is_short(#[trigger] recs[k]) {
            assert(ProfilerModel::is_short(recs[0]));
            assert forall|k: int| 0 <= k < rest.len() implies ProfilerModel::is_short(#[trigger] rest[k]) by {
                assert(rest[k] == recs[k + 1]);
            }
        }
        if (forall|k: int| 0 <= k < recs.len() ==> !ProfilerModel::is_short(#[trigger] recs[k])) && !m.ignored[i] {
            assert(!ProfilerModel::is_short(recs[0]));
            assert forall|k: int| 0 <= k < rest.len() implies !ProfilerModel::is_short(#[trigger] rest[k]) by {
                assert(rest[k] == recs[k + 1]);
            }
        }
    }
}

/// Looked at ten or more times in a row through `get_timer_mut`, each time
/// with hits and an average below the threshold, a slot is suppressed, and
/// a suppressed slot stays suppressed whatever later looks see.
pub proof fn lemma_short_looks_suppress(m: ProfilerModel, i: int, recs: Seq<Timer>, later: Seq<Timer>)
    requires
        m.wf(),
        0 <= i < MAX_TIMERS,
        recs.len() >= SHORT_STREAK_LIMIT,
        forall|k: int| 0 <= k < recs.len() ==> ProfilerModel::is_short(#[trigger] recs[k]),
    ensures
        noted_all(m, i, recs).ignored[i],
        noted_all(noted_all(m, i, recs), i, later).ignored[i],
{
    lemma_noted_all(m, i, recs);
    let m1 = noted_all(m, i, recs);
    assert(m1.streak.len() == m1.ignored.len()) by {
        lemma_noted_all_lengths(m, i, recs);
    }
    lemma_noted_all(m1, i, later);
}

/// A slot whose every look through `get_timer_mut` sees no hits or an
/// average at or above the threshold is never suppressed.
pub proof fn lemma_long_looks_keep(m: ProfilerModel, i: int, recs: Seq<Timer>)
    requires
        m.wf(),
        0 <= i < MAX_TIMERS,
        !m.ignored[i],
        forall|k: int| 0 <= k < recs.len() ==> !ProfilerModel::is_short(#[trigger] recs[k]),
    ensures
        !noted_all(m, i, recs).ignored[i],
{
    lemma_noted_all(m, i, recs);
}

proof fn lemma_noted_all_lengths(m: ProfilerModel, i: int, recs: Seq<Timer>)
    requires
        0 <= i < m.ignored.len(),
        m.streak.len() == m.ignored.len(),
    ensures
        noted_all(m, i, recs).streak.len() == m.streak.len(),
        noted_all(m, i, recs).ignored.len() == m.ignored.len(),
    decreases recs.len(),
{
    if recs.len() > 0 {
        lemma_noted_all_lengths(m.noted(i, recs[0]), i, recs.drop_first());
    }
}

} // verus!
