use timeloop::{Profiler, ThreadTimerStatus, Timer, MAX_TIMERS};

/// Runs `name` once on thread 0, entered at `at` and left `cycles` later.
fn call(profiler: &mut Profiler<1>, name: &'static str, at: u64, cycles: u64) {
    let h = profiler.begin(0, name, 0, at);
    profiler.end(0, h, at + cycles);
}

#[test]
fn test_short_interval_timer_removal() {
    let mut profiler = Profiler::<1>::new();
    let mut now: u64 = 1_000;

    // 10ns function, called 10 times (about 30 cycles each)
    for _ in 0..10 {
        call(&mut profiler, "10ns_fn", now, 30);
        now += 100;
    }

    // 10ms function, called 10 times
    for _ in 0..10 {
        call(&mut profiler, "10ms_fn", now, 30_000_000);
        now += 30_000_100;
    }

    // 100ms function, called 10 times
    for _ in 0..10 {
        call(&mut profiler, "100ms_fn", now, 300_000_000);
        now += 300_000_100;
    }

    let idx_10ns = profiler.get_timer_index("10ns_fn");
    let idx_10ms = profiler.get_timer_index("10ms_fn");
    let idx_100ms = profiler.get_timer_index("100ms_fn");

    assert!(profiler.ignored_timer[idx_10ns], "10ns_fn should be ignored");
    assert!(!profiler.ignored_timer[idx_10ms], "10ms_fn should NOT be ignored");
    assert!(!profiler.ignored_timer[idx_100ms], "100ms_fn should NOT be ignored");
}

#[test]
fn nine_short_calls_do_not_suppress() {
    let mut profiler = Profiler::<1>::new();
    for k in 0..9u64 {
        call(&mut profiler, "tiny", k * 100, 10);
    }
    let i = profiler.get_timer_index("tiny");
    assert!(!profiler.ignored_timer[i]);
    assert_eq!(profiler.short_timer_streak[i], 9);
    call(&mut profiler, "tiny", 5_000, 10);
    assert!(profiler.ignored_timer[i]);
}

#[test]
fn long_call_resets_streak() {
    let mut profiler = Profiler::<1>::new();
    for k in 0..5u64 {
        call(&mut profiler, "mixed", k * 100, 10);
    }
    let i = profiler.get_timer_index("mixed");
    assert_eq!(profiler.short_timer_streak[i], 5);
    // Average becomes (50 + 10_000) / 6 >= 500
    call(&mut profiler, "mixed", 1_000, 10_000);
    assert_eq!(profiler.short_timer_streak[i], 0);
    assert!(!profiler.ignored_timer[i]);
}

#[test]
fn region_with_long_average_is_never_suppressed() {
    let mut profiler = Profiler::<1>::new();
    for k in 0..100u64 {
        call(&mut profiler, "steady", k * 1_000, 500);
    }
    let i = profiler.get_timer_index("steady");
    assert!(!profiler.ignored_timer[i]);
    assert_eq!(profiler.timers[0][i].hits, 100);
}

#[test]
fn names_get_dense_slots_in_order_of_first_use() {
    let mut profiler = Profiler::<2>::new();
    assert_eq!(profiler.get_timer_index("a"), 0);
    assert_eq!(profiler.get_timer_index("b"), 1);
    assert_eq!(profiler.get_timer_index("a"), 0);
    assert_eq!(profiler.get_timer_index("c"), 2);
    assert_eq!(profiler.timer_names, vec!["a", "b", "c"]);
}

#[test]
fn get_timer_reads_the_thread_record() {
    let mut profiler = Profiler::<2>::new();
    assert_eq!(*profiler.get_timer(1, "r"), Timer::default());
    let h = profiler.begin(1, "r", 64, 10);
    profiler.end(1, h, 2_010);
    let t = *profiler.get_timer(1, "r");
    assert_eq!(t.exclusive_time, 2_000);
    assert_eq!(t.inclusive_time, 2_000);
    assert_eq!(t.hits, 1);
    assert_eq!(t.bytes_processed, 64);
    assert_eq!(*profiler.get_timer(0, "r"), Timer::default());
}

#[test]
fn get_timer_mut_changes_the_record() {
    let mut profiler = Profiler::<1>::new();
    {
        let t = profiler.get_timer_mut(0, "manual");
        t.exclusive_time += 700;
        t.hits += 1;
    }
    let t = *profiler.get_timer(0, "manual");
    assert_eq!(t.exclusive_time, 700);
    assert_eq!(t.hits, 1);
}

#[test]
fn get_timer_mut_applies_noise_policy_to_current_record() {
    let mut profiler = Profiler::<1>::new();
    for _ in 0..11 {
        let t = profiler.get_timer_mut(0, "hand_timed");
        t.exclusive_time += 5;
        t.hits += 1;
    }
    // Ten looks found a short average (the first found no hits yet)
    let i = profiler.get_timer_index("hand_timed");
    assert!(profiler.ignored_timer[i]);
}

#[test]
fn nested_child_time_is_removed_from_parent() {
    let mut profiler = Profiler::<1>::new();
    let outer = profiler.begin(0, "outer", 0, 100);
    let inner = profiler.begin(0, "inner", 0, 150);
    assert_eq!(inner.parent, Some(outer.index));
    profiler.end(0, inner, 250);
    profiler.end(0, outer, 400);
    let o = *profiler.get_timer(0, "outer");
    let i = *profiler.get_timer(0, "inner");
    assert_eq!(o.exclusive_time, 200);
    assert_eq!(o.inclusive_time, 300);
    assert_eq!(i.exclusive_time, 100);
    assert_eq!(i.inclusive_time, 100);
    assert!(o.exclusive_time <= o.inclusive_time);
    assert_eq!(profiler.active_parent[0], None);
}

#[test]
fn self_recursion_counts_outermost_span_once() {
    let mut profiler = Profiler::<1>::new();
    let starts = [100u64, 110, 120, 130, 140];
    let ends = [150u64, 160, 170, 180, 190];
    let mut handles = Vec::new();
    for s in starts {
        handles.push(profiler.begin(0, "rec", 0, s));
    }
    for e in ends {
        let h = handles.pop().unwrap();
        profiler.end(0, h, e);
    }
    let t = *profiler.get_timer(0, "rec");
    assert_eq!(t.hits, 5);
    assert_eq!(t.inclusive_time, 90);
    assert_eq!(t.exclusive_time, 90);
}

#[test]
fn mutual_recursion_has_no_double_counting() {
    let mut profiler = Profiler::<1>::new();
    let a1 = profiler.begin(0, "A", 0, 0);
    let b1 = profiler.begin(0, "B", 0, 10);
    let a2 = profiler.begin(0, "A", 0, 20);
    let b2 = profiler.begin(0, "B", 0, 30);
    profiler.end(0, b2, 40);
    profiler.end(0, a2, 50);
    profiler.end(0, b1, 60);
    profiler.end(0, a1, 100);
    let a = *profiler.get_timer(0, "A");
    let b = *profiler.get_timer(0, "B");
    assert_eq!(a.exclusive_time + b.exclusive_time, 100);
    assert_eq!(a.exclusive_time, 70);
    assert_eq!(b.exclusive_time, 30);
    assert_eq!(a.inclusive_time, 100);
    assert_eq!(b.inclusive_time, 50);
    assert_eq!(a.hits, 2);
    assert_eq!(b.hits, 2);
}

#[test]
fn report_remainder_is_untimed_window() {
    let mut profiler = Profiler::<1>::new();
    assert!(profiler.start(0, 1_000));
    let top = profiler.begin(0, "top", 0, 1_100);
    let child = profiler.begin(0, "child", 0, 1_200);
    profiler.end(0, child, 1_500);
    profiler.end(0, top, 1_700);
    let other = profiler.begin(0, "other", 0, 1_800);
    profiler.end(0, other, 1_900);
    assert!(profiler.stop(0, 2_000));
    let r = profiler.report(2_100);
    assert_eq!(r.total_time_cycles, 1_000);
    assert!(r.closed_threads.is_empty());
    let names: Vec<&str> = r.rows.iter().map(|row| row.name).collect();
    assert_eq!(names, vec!["child", "top", "other"]);
    let excl: Vec<u64> = r.rows.iter().map(|row| row.timer.exclusive_time).collect();
    assert_eq!(excl, vec![300, 300, 100]);
    // Top-level spans: 600 + 100; the rest of the 1000-cycle window is untimed.
    let sum: u64 = excl.iter().sum();
    assert_eq!(sum + r.remainder, r.total_time_cycles);
    assert_eq!(r.remainder, 300);
    assert!(r.not_hit.is_empty());
}

#[test]
fn report_orders_largest_first_and_later_slot_first_on_ties() {
    let mut profiler = Profiler::<1>::new();
    profiler.start(0, 0);
    call(&mut profiler, "small", 10, 1_000);
    call(&mut profiler, "tie_first", 2_000, 5_000);
    call(&mut profiler, "large", 8_000, 9_000);
    call(&mut profiler, "tie_second", 20_000, 5_000);
    profiler.stop(0, 30_000);
    let r = profiler.report(30_000);
    let names: Vec<&str> = r.rows.iter().map(|row| row.name).collect();
    assert_eq!(names, vec!["large", "tie_second", "tie_first", "small"]);
    let idx: Vec<usize> = r.rows.iter().map(|row| row.index).collect();
    assert_eq!(idx, vec![2, 3, 1, 0]);
    assert_eq!(r.remainder, 30_000 - 20_000);
}

#[test]
fn report_lists_unhit_and_skips_suppressed() {
    let mut profiler = Profiler::<1>::new();
    profiler.start(0, 0);
    let never = profiler.get_timer_index("never");
    for k in 0..10u64 {
        call(&mut profiler, "noise", 100 + k * 10, 5);
    }
    call(&mut profiler, "work", 1_000, 4_000);
    profiler.stop(0, 10_000);
    let r = profiler.report(10_000);
    assert_eq!(r.not_hit, vec![never]);
    let names: Vec<&str> = r.rows.iter().map(|row| row.name).collect();
    assert_eq!(names, vec!["work"]);
    // The suppressed region's 50 cycles stay in the remainder.
    assert_eq!(r.remainder, 10_000 - 4_000);
}

#[test]
fn report_closes_running_threads_and_folds_used_ones() {
    let mut profiler = Profiler::<3>::new();
    profiler.start(0, 100);
    profiler.start(1, 200);
    profiler.start(2, 300);
    let h = profiler.begin(0, "job", 8, 150);
    profiler.end(0, h, 250);
    let h = profiler.begin(2, "job", 16, 350);
    profiler.end(2, h, 650);
    profiler.stop(2, 700);
    let r = profiler.report(1_000);
    assert_eq!(r.closed_threads, vec![0, 1]);
    assert_eq!(profiler.thread_status, vec![ThreadTimerStatus::Stopped; 3]);
    // Thread 1 hit no region, so its window is left out.
    assert_eq!(r.total_time_cycles, 900 + 400);
    assert_eq!(r.rows.len(), 1);
    let job = r.rows[0].timer;
    assert_eq!(job.exclusive_time, 400);
    assert_eq!(job.hits, 2);
    assert_eq!(job.bytes_processed, 24);
    assert_eq!(r.remainder, 1_300 - 400);
}

#[test]
fn start_marks_profiler_as_started() {
    let mut profiler = Profiler::<2>::new();
    assert!(!profiler.ever_started);
    profiler.stop(1, 5);
    assert!(!profiler.ever_started);
    profiler.start(1, 10);
    assert!(profiler.ever_started);
}

#[test]
fn starting_twice_and_stopping_twice_warn() {
    let mut profiler = Profiler::<1>::new();
    assert!(profiler.start(0, 10));
    assert!(!profiler.start(0, 20));
    assert!(profiler.stop(0, 50));
    assert!(!profiler.stop(0, 60));
    assert_eq!(profiler.thread_status[0], ThreadTimerStatus::Stopped);
    // -10 - 20 + 50 + 60, modulo 2^64
    assert_eq!(profiler.thread_times[0], 80);
}

#[test]
fn wrapped_counter_still_gives_elapsed() {
    let mut profiler = Profiler::<1>::new();
    let h = profiler.begin(0, "wrap", 0, u64::MAX - 9);
    profiler.end(0, h, 20);
    let t = *profiler.get_timer(0, "wrap");
    assert_eq!(t.exclusive_time, 30);
    assert_eq!(t.inclusive_time, 30);
}

#[test]
fn throughput_bytes_accumulate() {
    let mut profiler = Profiler::<1>::new();
    let h = profiler.begin(0, "copy", 4_096, 0);
    profiler.end(0, h, 100);
    let h = profiler.begin(0, "copy", 1_024, 200);
    profiler.end(0, h, 300);
    assert_eq!(profiler.get_timer(0, "copy").bytes_processed, 5_120);
}

#[test]
fn new_profiler_is_empty() {
    let profiler = Profiler::<4>::new();
    assert_eq!(profiler.timers.len(), 4);
    assert_eq!(profiler.timers[3].len(), MAX_TIMERS);
    assert!(profiler.timer_names.is_empty());
    assert_eq!(profiler.thread_times, vec![0; 4]);
    assert_eq!(profiler.active_parent, vec![None; 4]);
}

#[test]
fn timer_addition_is_componentwise() {
    let a = Timer { exclusive_time: 1, inclusive_time: 2, hits: 3, bytes_processed: 4 };
    let b = Timer { exclusive_time: 10, inclusive_time: 20, hits: 30, bytes_processed: u64::MAX };
    let c = a + b;
    assert_eq!(c, Timer { exclusive_time: 11, inclusive_time: 22, hits: 33, bytes_processed: 3 });
    assert_eq!(Timer::const_default(), Timer::default());
}
