use pingtest::gui::table::{compare_targets, sort_targets, SortColumn, SortOrder, TableState};
use pingtest::net::IpAddress;
use pingtest::ping::{PingStats, PingTarget};

fn t(index: usize, name: &str, ip: IpAddress, ok: u64, fail: u64) -> PingTarget {
    let mut stats = PingStats::default();
    for _ in 0..ok {
        stats.record_success(1000 + index as u64);
    }
    for _ in 0..fail {
        stats.record_failure();
    }
    PingTarget { index, hostname: name.to_string(), ip, stats }
}

fn state(c: SortColumn, o: SortOrder) -> TableState {
    TableState { sort_column: c, sort_order: o }
}

fn sample() -> Vec<PingTarget> {
    vec![
        t(0, "beta", IpAddress::V4(3), 2, 1),
        t(1, "alpha", IpAddress::V6(1), 1, 1),
        t(2, "Zeta", IpAddress::V4(1), 4, 0),
        t(3, "alpha", IpAddress::V4(2), 0, 2),
    ]
}

#[test]
fn default_state_is_index_ascending() {
    let s = TableState::default();
    assert_eq!(s.sort_column, SortColumn::Index);
    assert_eq!(s.sort_order, SortOrder::Ascending);
}

#[test]
fn toggling_flips_then_switches() {
    let mut s = TableState::default();
    s.toggle_sort(SortColumn::Index);
    assert_eq!(s.sort_order, SortOrder::Descending);
    s.toggle_sort(SortColumn::Index);
    assert_eq!(s, TableState::default());
    s.toggle_sort(SortColumn::FailCount);
    s.toggle_sort(SortColumn::Hostname);
    assert_eq!(s, state(SortColumn::Hostname, SortOrder::Ascending));
}

#[test]
fn indicator_marks_only_the_sort_column() {
    let s = state(SortColumn::Ip, SortOrder::Ascending);
    assert_eq!(s.sort_indicator(SortColumn::Ip), " ▲");
    assert_eq!(s.sort_indicator(SortColumn::Index), "");
    let s = state(SortColumn::Ip, SortOrder::Descending);
    assert_eq!(s.sort_indicator(SortColumn::Ip), " ▼");
}

fn sorted(all: &[PingTarget], c: SortColumn, o: SortOrder) -> Vec<usize> {
    let mut idx: Vec<usize> = (0..all.len()).collect();
    sort_targets(&mut idx, all, &state(c, o));
    idx
}

#[test]
fn sort_by_hostname_is_code_point_order_and_stable() {
    let all = sample();
    assert_eq!(sorted(&all, SortColumn::Hostname, SortOrder::Ascending), vec![2, 1, 3, 0]);
    assert_eq!(sorted(&all, SortColumn::Hostname, SortOrder::Descending), vec![0, 1, 3, 2]);
}

#[test]
fn sort_by_address_puts_ipv4_first() {
    let all = sample();
    assert_eq!(sorted(&all, SortColumn::Ip, SortOrder::Ascending), vec![2, 3, 0, 1]);
    assert_eq!(sorted(&all, SortColumn::Ip, SortOrder::Descending), vec![1, 0, 3, 2]);
}

#[test]
fn sort_by_counts() {
    let all = sample();
    assert_eq!(sorted(&all, SortColumn::SuccessCount, SortOrder::Ascending), vec![3, 1, 0, 2]);
    assert_eq!(sorted(&all, SortColumn::FailCount, SortOrder::Ascending), vec![2, 0, 1, 3]);
    assert_eq!(sorted(&all, SortColumn::TotalSent, SortOrder::Ascending), vec![1, 3, 0, 2]);
    assert_eq!(sorted(&all, SortColumn::Index, SortOrder::Descending), vec![3, 2, 1, 0]);
}

#[test]
fn sort_by_fail_rate() {
    let all = sample();
    // rates: 1/3, 1/2, 0, 1
    assert_eq!(sorted(&all, SortColumn::FailRate, SortOrder::Ascending), vec![2, 0, 1, 3]);
    assert_eq!(sorted(&all, SortColumn::FailRate, SortOrder::Descending), vec![3, 1, 0, 2]);
}

#[test]
fn sort_by_round_trips() {
    let all = sample();
    // last round trip: None for 0, 1, 3 (a failure came last), Some(1002) for 2
    assert_eq!(sorted(&all, SortColumn::LastRtt, SortOrder::Ascending), vec![0, 1, 3, 2]);
    assert_eq!(sorted(&all, SortColumn::MaxRtt, SortOrder::Ascending), vec![3, 0, 1, 2]);
    assert_eq!(sorted(&all, SortColumn::MinRtt, SortOrder::Descending), vec![2, 1, 0, 3]);
    assert_eq!(sorted(&all, SortColumn::AvgRtt, SortOrder::Ascending), vec![3, 0, 1, 2]);
}

#[test]
fn ties_keep_their_order_in_both_directions() {
    let all = vec![
        t(0, "x", IpAddress::V4(1), 1, 0),
        t(1, "y", IpAddress::V4(1), 1, 0),
        t(2, "z", IpAddress::V4(1), 0, 0),
        t(3, "w", IpAddress::V4(1), 1, 0),
    ];
    let mut idx = vec![3, 1, 2, 0];
    sort_targets(&mut idx, &all, &state(SortColumn::SuccessCount, SortOrder::Ascending));
    assert_eq!(idx, vec![2, 3, 1, 0]);
    let mut idx = vec![3, 1, 2, 0];
    sort_targets(&mut idx, &all, &state(SortColumn::SuccessCount, SortOrder::Descending));
    assert_eq!(idx, vec![3, 1, 0, 2]);
}

#[test]
fn sorting_twice_changes_nothing() {
    let all = sample();
    for c in [SortColumn::Hostname, SortColumn::Ip, SortColumn::FailRate, SortColumn::AvgRtt] {
        let once = sorted(&all, c, SortOrder::Descending);
        let mut twice = once.clone();
        sort_targets(&mut twice, &all, &state(c, SortOrder::Descending));
        assert_eq!(once, twice);
    }
}

#[test]
fn repeated_indices_are_kept() {
    let all = sample();
    let mut idx = vec![0, 2, 0, 1];
    sort_targets(&mut idx, &all, &state(SortColumn::FailCount, SortOrder::Ascending));
    assert_eq!(idx, vec![2, 0, 0, 1]);
}

#[test]
fn compare_is_turned_round_by_descending() {
    let all = sample();
    let asc = state(SortColumn::Hostname, SortOrder::Ascending);
    let desc = state(SortColumn::Hostname, SortOrder::Descending);
    assert_eq!(compare_targets(&asc, &all[0], &all[1]), 1);
    assert_eq!(compare_targets(&desc, &all[0], &all[1]), -1);
    assert_eq!(compare_targets(&asc, &all[1], &all[3]), 0);
}

#[test]
fn row_status_classes() {
    let mut s = PingStats::default();
    assert_eq!(pingtest::gui::table::row_status(&s), -1);
    s.record_success(10);
    assert_eq!(pingtest::gui::table::row_status(&s), 0);
    s.record_failure();
    assert_eq!(pingtest::gui::table::row_status(&s), 1);
    let mut f = PingStats::default();
    f.record_failure();
    assert_eq!(pingtest::gui::table::row_status(&f), 2);
}
