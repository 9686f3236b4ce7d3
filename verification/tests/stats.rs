use pingtest::ping::PingStats;

fn zero() -> PingStats {
    PingStats::default()
}

#[test]
fn default_stats_are_zero() {
    let s = zero();
    assert_eq!(s.success_count, 0);
    assert_eq!(s.fail_count, 0);
    assert_eq!(s.total_sent, 0);
    assert_eq!(s.last_rtt_us, None);
    assert_eq!(s.max_rtt_us, 0);
    assert_eq!(s.min_rtt_us, 0);
    assert_eq!(s.total_rtt_us, 0);
    assert!(!s.is_alive);
    assert_eq!(s.avg_rtt_us(), 0);
}

#[test]
fn first_success_sets_min_and_max() {
    let mut s = zero();
    s.record_success(1500);
    assert_eq!(s.success_count, 1);
    assert_eq!(s.total_sent, 1);
    assert_eq!(s.last_rtt_us, Some(1500));
    assert_eq!(s.min_rtt_us, 1500);
    assert_eq!(s.max_rtt_us, 1500);
    assert_eq!(s.total_rtt_us, 1500);
    assert!(s.is_alive);
    assert_eq!(s.avg_rtt_us(), 1500);
}

#[test]
fn successes_track_min_max_and_average() {
    let mut s = zero();
    s.record_success(300);
    s.record_success(100);
    s.record_success(200);
    assert_eq!(s.min_rtt_us, 100);
    assert_eq!(s.max_rtt_us, 300);
    assert_eq!(s.total_rtt_us, 600);
    assert_eq!(s.avg_rtt_us(), 200);
    assert_eq!(s.last_rtt_us, Some(200));
}

#[test]
fn average_rounds_down() {
    let mut s = zero();
    s.record_success(10);
    s.record_success(11);
    assert_eq!(s.avg_rtt_us(), 10);
}

#[test]
fn failure_keeps_round_trip_figures() {
    let mut s = zero();
    s.record_success(250);
    s.record_failure();
    assert_eq!(s.total_sent, 2);
    assert_eq!(s.fail_count, 1);
    assert_eq!(s.success_count, 1);
    assert_eq!(s.last_rtt_us, None);
    assert!(!s.is_alive);
    assert_eq!(s.min_rtt_us, 250);
    assert_eq!(s.max_rtt_us, 250);
    assert_eq!(s.avg_rtt_us(), 250);
}

#[test]
fn failures_before_first_success_do_not_set_min() {
    let mut s = zero();
    s.record_failure();
    s.record_failure();
    assert_eq!(s.min_rtt_us, 0);
    s.record_success(900);
    assert_eq!(s.min_rtt_us, 900);
    assert_eq!(s.max_rtt_us, 900);
    assert_eq!(s.total_sent, 3);
    assert!(s.is_alive);
}

#[test]
fn counters_add_up_after_mixed_results() {
    let mut s = zero();
    let outcomes = [Some(5u64), None, Some(7), Some(3), None, None, Some(9)];
    for o in outcomes {
        match o {
            Some(r) => s.record_success(r),
            None => s.record_failure(),
        }
    }
    assert_eq!(s.success_count + s.fail_count, s.total_sent);
    assert_eq!(s.total_sent, 7);
    assert_eq!(s.success_count, 4);
    assert_eq!(s.total_rtt_us, 24);
    assert!(s.min_rtt_us <= s.avg_rtt_us() && s.avg_rtt_us() <= s.max_rtt_us);
    assert_eq!((s.min_rtt_us, s.avg_rtt_us(), s.max_rtt_us), (3, 6, 9));
    assert_eq!(s.is_alive, s.last_rtt_us.is_some());
}
