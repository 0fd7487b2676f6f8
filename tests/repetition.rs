use timeloop::{RepititionTester, TestCase, TestResults, TestingState};

/// Runs one trial of `cycles` cycles and `faults` page faults.
fn trial(tester: &mut RepititionTester, at: u64, cycles: u64, faults: u64) {
    tester.start(at, 1_000);
    tester.stop(at + cycles, 1_000 + faults);
}

#[test]
fn constant_workload_has_equal_min_and_max() {
    let mut tester = RepititionTester::new(1_000, 0);
    let mut now: u64 = 0;
    let mut cycle: u64 = 5_000;
    while tester.is_testing(now) {
        trial(&mut tester, cycle, 777, 2);
        cycle += 10_000;
        now += 100;
    }
    let r = tester.results(1_000_000_000);
    assert!(r.count >= 1);
    assert_eq!(r.min.cycles, 777);
    assert_eq!(r.max.cycles, 777);
    assert_eq!(r.avg.cycles, 777);
    assert_eq!(r.min.page_faults, 2);
    // The first trial is the only new minimum; the window ends at 1000.
    assert_eq!(r.count, 10);
}

#[test]
fn new_minimum_extends_the_window() {
    let mut tester = RepititionTester::new(100, 0);
    assert!(tester.is_testing(0));
    trial(&mut tester, 0, 500, 0);
    assert!(tester.is_testing(90));
    assert_eq!(tester.window_start_nanos, 90);
    trial(&mut tester, 1_000, 400, 0);
    // Past the first window, but a new minimum was found at 90 and again now.
    assert!(tester.is_testing(150));
    assert_eq!(tester.window_start_nanos, 150);
    trial(&mut tester, 2_000, 600, 0);
    assert!(tester.is_testing(249));
    assert_eq!(tester.window_start_nanos, 150);
    trial(&mut tester, 3_000, 700, 0);
    assert!(!tester.is_testing(250));
    let r = tester.results(1_000_000_000);
    assert_eq!(r.count, 3);
    assert_eq!(r.min.cycles, 400);
    assert_eq!(r.max.cycles, 600);
}

#[test]
fn unmatched_start_stop_is_an_error() {
    let mut tester = RepititionTester::new(1_000_000, 0);
    assert!(tester.is_testing(0));
    tester.start(10, 0);
    tester.start(20, 0);
    tester.stop(30, 0);
    assert!(tester.is_testing(5));
    assert!(matches!(tester.state, TestingState::Error(_)));
    assert!(!tester.is_testing(6));
    trial(&mut tester, 100, 10, 0);
    assert!(!tester.is_testing(7));
    assert_eq!(tester.results(1_000).count, 0);
}

#[test]
fn expired_window_does_not_count_last_trial() {
    let mut tester = RepititionTester::new(100, 0);
    assert!(tester.is_testing(0));
    trial(&mut tester, 0, 50, 0);
    assert!(!tester.is_testing(100));
    assert_eq!(tester.results.count, 0);
}

#[test]
fn zero_budget_never_tests() {
    let mut tester = RepititionTester::new(0, 42);
    assert!(!tester.is_testing(42));
}

#[test]
fn results_without_trials_are_default() {
    let mut tester = RepititionTester::new(100, 0);
    let r = tester.results_with_throughput(4_096, 3_000_000_000);
    assert_eq!(r, TestResults::default());
    assert_eq!(r.min.cycles, u64::MAX);
    assert_eq!(r.max.cycles, 0);
    assert_eq!(r.avg.cycles, u64::MAX);
    assert_eq!(r.count, 0);
}

#[test]
fn results_with_throughput_derive_rates() {
    let mut tester = RepititionTester::new(1_000_000, 0);
    assert!(tester.is_testing(0));
    trial(&mut tester, 0, 100, 4);
    assert!(tester.is_testing(1));
    trial(&mut tester, 1_000, 300, 0);
    assert!(tester.is_testing(2));
    let r = tester.results_with_throughput(1_000, 2_000_000_000);
    assert_eq!(r.count, 2);
    assert_eq!(r.total_time, 400);
    assert_eq!(r.total_page_faults, 4);
    assert_eq!(
        r.min,
        TestCase {
            cycles: 100,
            time_nanos: 50,
            page_faults: 4,
            bytes_per_second: Some(20_000_000_000),
            bytes_per_page_fault: Some(250),
        }
    );
    assert_eq!(r.max.cycles, 300);
    assert_eq!(r.max.time_nanos, 150);
    assert_eq!(r.max.page_faults, 0);
    assert_eq!(r.max.bytes_per_page_fault, None);
    assert_eq!(r.max.bytes_per_second, Some(6_666_666_666));
    assert_eq!(r.avg.cycles, 200);
    assert_eq!(r.avg.page_faults, 2);
    assert_eq!(r.avg.time_nanos, 100);
    assert_eq!(r.avg.bytes_per_page_fault, Some(500));
    let plain = tester.results(2_000_000_000);
    assert_eq!(plain.min.bytes_per_second, None);
    assert_eq!(plain.min.time_nanos, 50);
}

#[test]
fn reset_starts_over() {
    let mut tester = RepititionTester::new(100, 0);
    tester.start(1, 0);
    assert!(tester.is_testing(10));
    assert!(!tester.is_testing(11));
    tester.reset(500);
    assert!(matches!(tester.state, TestingState::Running));
    assert_eq!(tester.window_start_nanos, 500);
    assert_eq!(tester.budget_nanos, 100);
    assert_eq!(tester.results, TestResults::default());
    assert!(tester.is_testing(550));
}

#[test]
fn trial_counters_wrap() {
    let mut tester = RepititionTester::new(100, 0);
    tester.start(u64::MAX - 4, 10);
    tester.stop(5, 13);
    assert_eq!(tester.elapsed_time, 10);
    assert_eq!(tester.page_faults, 3);
    assert!(tester.is_testing(0));
    assert_eq!(tester.results.min.cycles, 10);
    assert_eq!(tester.elapsed_time, 0);
}

#[test]
fn stray_stop_is_an_error() {
    let mut tester = RepititionTester::new(1_000_000, 0);
    assert!(tester.is_testing(0));
    trial(&mut tester, 0, 100, 0);
    assert!(tester.is_testing(1));
    tester.stop(500, 0);
    assert!(tester.is_testing(2));
    assert!(matches!(tester.state, TestingState::Error(_)));
    assert!(!tester.is_testing(3));
    let r = tester.results(1_000_000_000);
    assert_eq!(r.count, 1);
    assert_eq!(r.min.cycles, 100);
}

#[test]
fn check_without_trial_counts_nothing() {
    let mut tester = RepititionTester::new(1_000, 0);
    assert!(tester.is_testing(0));
    assert!(tester.is_testing(1));
    assert!(matches!(tester.state, TestingState::Running));
    assert_eq!(tester.results.count, 0);
}
