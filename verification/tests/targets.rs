use pingtest::net::{format_address, IpAddress, Network};
use pingtest::text::split_entries;
use pingtest::utils::{
    classify_entries, count_cidr_ips, count_entries, find_ip_columns, needs_ip_warning,
    network_ip_count, parse_targets, TargetEntry, WARN_ABOVE,
};

fn v4(a: u8, b: u8, c: u8, d: u8) -> IpAddress {
    IpAddress::V4(u32::from_be_bytes([a, b, c, d]))
}

fn names(t: &[(String, IpAddress)]) -> Vec<&str> {
    t.iter().map(|p| p.0.as_str()).collect()
}

#[test]
fn split_on_lines_commas_and_semicolons() {
    let e = split_entries("  10.0.0.1 ,10.0.0.2;\r\n\n example.com\t\n;,");
    assert_eq!(e, vec!["10.0.0.1", "10.0.0.2", "example.com"]);
}

#[test]
fn split_trims_unicode_white_space() {
    let e = split_entries("\u{3000}192.168.1.1\u{a0}");
    assert_eq!(e, vec!["192.168.1.1"]);
    assert!(split_entries(" \t\r\n , ; ").is_empty());
    assert!(split_entries("").is_empty());
}

#[test]
fn entries_are_read_as_network_or_host() {
    let e = classify_entries("10.0.0.0/30\n1.2.3.4\nexample.com\n2001:db8::/127");
    assert_eq!(e.len(), 4);
    assert_eq!(e[0], TargetEntry::Network(Network::V4 { addr: u32::from_be_bytes([10, 0, 0, 0]), prefix: 30 }));
    assert_eq!(e[1], TargetEntry::Network(Network::V4 { addr: u32::from_be_bytes([1, 2, 3, 4]), prefix: 32 }));
    assert_eq!(e[2], TargetEntry::Host("example.com".to_string(), None));
    assert_eq!(e[3], TargetEntry::Network(Network::V6 { addr: 0x2001_0db8 << 96, prefix: 127 }));
}

#[test]
fn netmask_notation_is_a_network() {
    let e = classify_entries("192.168.5.0/255.255.255.252");
    assert_eq!(e, vec![TargetEntry::Network(Network::V4 { addr: u32::from_be_bytes([192, 168, 5, 0]), prefix: 30 })]);
}

#[test]
fn bad_prefix_is_a_host_name() {
    let e = classify_entries("10.0.0.0/33");
    assert_eq!(e, vec![TargetEntry::Host("10.0.0.0/33".to_string(), None)]);
}

#[test]
fn network_expands_to_all_addresses() {
    let e = classify_entries("10.0.0.5/30");
    let t = parse_targets(&e);
    assert_eq!(names(&t), vec!["10.0.0.4", "10.0.0.5", "10.0.0.6", "10.0.0.7"]);
    assert_eq!(t[0].1, v4(10, 0, 0, 4));
    assert_eq!(t[3].1, v4(10, 0, 0, 7));
}

#[test]
fn single_address_and_resolved_host() {
    let mut e = classify_entries("8.8.8.8, dns.example");
    if let TargetEntry::Host(_, found) = &mut e[1] {
        *found = Some(v4(93, 184, 216, 34));
    }
    let t = parse_targets(&e);
    assert_eq!(t, vec![("8.8.8.8".to_string(), v4(8, 8, 8, 8)), ("dns.example".to_string(), v4(93, 184, 216, 34))]);
}

#[test]
fn unresolved_host_and_large_network_are_left_out() {
    let e = classify_entries("nohost.invalid\n10.0.0.0/16\n10.1.0.0/17");
    let t = parse_targets(&e);
    assert_eq!(t.len(), 32768);
    assert_eq!(t[0].0, "10.1.0.0");
    assert_eq!(t[32767].0, "10.1.127.255");
}

#[test]
fn ipv6_targets_are_named_in_short_form() {
    let e = classify_entries("2001:db8::/126");
    let t = parse_targets(&e);
    assert_eq!(names(&t), vec!["2001:db8::", "2001:db8::1", "2001:db8::2", "2001:db8::3"]);
}

#[test]
fn address_text_of_both_families() {
    assert_eq!(format_address(v4(192, 168, 0, 10)), "192.168.0.10");
    assert_eq!(format_address(IpAddress::V6(1)), "::1");
}

#[test]
fn network_sizes() {
    assert_eq!(network_ip_count(&Network::V4 { addr: 0, prefix: 24 }), 256);
    assert_eq!(network_ip_count(&Network::V4 { addr: 0, prefix: 32 }), 1);
    assert_eq!(network_ip_count(&Network::V4 { addr: 0, prefix: 0 }), 1u128 << 32);
    assert_eq!(network_ip_count(&Network::V6 { addr: 0, prefix: 64 }), 1u128 << 64);
    assert_eq!(network_ip_count(&Network::V6 { addr: 0, prefix: 1 }), 1u128 << 127);
    assert_eq!(network_ip_count(&Network::V6 { addr: 0, prefix: 128 }), 1);
}

#[test]
fn counting_addresses_for_the_warning() {
    assert_eq!(count_cidr_ips("10.0.0.0/24\nexample.com\n1.1.1.1"), 258);
    assert_eq!(count_cidr_ips("10.0.0.0/8"), 1 << 24);
    assert_eq!(count_cidr_ips(""), 0);
}

#[test]
fn count_is_never_below_the_number_of_targets() {
    let input = "10.0.0.0/28, host.invalid; 10.0.0.0/15\n::1";
    let t = parse_targets(&classify_entries(input));
    assert_eq!(t.len(), 17);
    assert_eq!(count_cidr_ips(input), 16 + 1 + 131072 + 1);
    assert!(t.len() <= count_cidr_ips(input));
}

#[test]
fn counts_too_large_for_usize_saturate() {
    assert_eq!(count_cidr_ips("::/0"), usize::MAX);
    assert_eq!(count_cidr_ips("::/1"), usize::MAX);
    assert_eq!(count_cidr_ips("::/64"), usize::MAX);
    assert_eq!(count_cidr_ips("::/65, ::/65, 1.1.1.1"), usize::MAX);
    assert_eq!(count_cidr_ips("::/65"), 1usize << 63);
    assert_eq!(count_cidr_ips("a, b"), 2);
}

#[test]
fn the_whole_ipv6_space_is_skipped_and_counted_as_largest() {
    assert_eq!(network_ip_count(&Network::V6 { addr: 0, prefix: 0 }), u128::MAX);
    let e = classify_entries("::/0
10.0.0.1");
    assert_eq!(e[0], TargetEntry::Network(Network::V6 { addr: 0, prefix: 0 }));
    let t = parse_targets(&e);
    assert_eq!(t, vec![("10.0.0.1".to_string(), v4(10, 0, 0, 1))]);
}

#[test]
fn large_runs_ask_first() {
    assert_eq!(WARN_ABOVE, 1000);
    assert!(!needs_ip_warning(1000, false));
    assert!(needs_ip_warning(1001, false));
    assert!(!needs_ip_warning(1001, true));
    assert!(needs_ip_warning(count_cidr_ips("10.0.0.0/22"), false));
    assert!(!needs_ip_warning(count_cidr_ips("10.0.0.0/23"), false));
}

#[test]
fn joined_lists_give_both_lists_in_order() {
    let a = "10.0.0.0/31, 10.0.0.1";
    let b = "10.0.0.1;x.invalid\n::1";
    let joined = format!("{}\n{}", a, b);
    let ea = classify_entries(a);
    let eb = classify_entries(b);
    let mut both = ea.clone();
    both.extend(eb.clone());
    assert_eq!(classify_entries(&joined), both);
    let mut targets = parse_targets(&ea);
    targets.extend(parse_targets(&eb));
    assert_eq!(parse_targets(&classify_entries(&joined)), targets);
    assert_eq!(names(&targets), vec!["10.0.0.0", "10.0.0.1", "10.0.0.1", "10.0.0.1", "::1"]);
    assert_eq!(count_cidr_ips(&joined), count_cidr_ips(a) + count_cidr_ips(b));
    assert_eq!(count_cidr_ips(&joined), 6);
}

#[test]
fn targets_match_the_count_when_everything_expands() {
    let input = "10.0.0.0/30\n1.1.1.1, h.example";
    let mut e = classify_entries(input);
    assert_eq!(parse_targets(&e).len() + 1, count_cidr_ips(input));
    if let TargetEntry::Host(_, found) = &mut e[2] {
        *found = Some(v4(192, 0, 2, 1));
    }
    assert_eq!(parse_targets(&e).len(), count_cidr_ips(input));
    let big = "10.0.0.0/16";
    assert!(parse_targets(&classify_entries(big)).len() < count_cidr_ips(big));
}

fn s(x: &str) -> String {
    x.to_string()
}

#[test]
fn finds_the_address_columns() {
    let headers = vec![s("名称"), s("IP"), s("网段")];
    let rows = vec![
        vec![s("a"), s(" 10.0.0.1 "), s("10.0.0.0/24")],
        vec![s("b"), s("10.0.0.2"), s("x")],
        vec![s("c"), s("10.0.0.3"), s("y")],
        vec![s("d")],
    ];
    let cols = find_ip_columns(&headers, &rows);
    assert_eq!(cols, vec![(1, s("IP"))]);
}

#[test]
fn half_of_the_rows_is_not_enough() {
    let headers = vec![s("ip")];
    let rows = vec![vec![s("10.0.0.1")], vec![s("n/a")]];
    assert!(find_ip_columns(&headers, &rows).is_empty());
    let rows = vec![vec![s("10.0.0.1")], vec![s("10.0.0.0/8")], vec![s("n/a")]];
    assert_eq!(find_ip_columns(&headers, &rows), vec![(0, s("ip"))]);
}

#[test]
fn only_the_first_twenty_rows_count() {
    let headers = vec![s("ip")];
    let mut rows: Vec<Vec<String>> = (0..20).map(|_| vec![s("n/a")]).collect();
    rows.extend((0..100).map(|i| vec![format!("10.0.0.{}", i)]));
    assert!(find_ip_columns(&headers, &rows).is_empty());
    rows[0] = vec![s("1.1.1.1")];
    for r in rows.iter_mut().take(10) {
        *r = vec![s("1.1.1.1")];
    }
    assert!(find_ip_columns(&headers, &rows).is_empty());
    rows[10] = vec![s("1.1.1.1")];
    assert_eq!(find_ip_columns(&headers, &rows), vec![(0, s("ip"))]);
}

#[test]
fn no_rows_means_no_address_columns() {
    let headers = vec![s("ip")];
    let rows: Vec<Vec<String>> = Vec::new();
    assert!(find_ip_columns(&headers, &rows).is_empty());
}

#[test]
fn column_cells_are_taken_trimmed() {
    let rows = vec![
        vec![s("a"), s(" 10.0.0.1 ")],
        vec![s("b")],
        vec![s("c"), s("   ")],
        vec![s("d"), s("host.example")],
    ];
    assert_eq!(pingtest::utils::extract_column_entries(&rows, 1), vec![s("10.0.0.1"), s("host.example")]);
    assert!(pingtest::utils::extract_column_entries(&rows, 5).is_empty());
}

#[test]
fn entries_written_one_per_line_read_back() {
    let first = split_entries(" a.example ;10.0.0.0/30,\r\n\n 2001:db8::1\t");
    let again = split_entries(&first.join("\n"));
    assert_eq!(first, again);
    assert_eq!(again, vec!["a.example", "10.0.0.0/30", "2001:db8::1"]);
}

#[test]
fn counting_read_entries() {
    let e = classify_entries("10.0.0.0/30, x.example");
    assert_eq!(count_entries(&e), 5);
    let e = classify_entries("::/0");
    assert_eq!(count_entries(&e), usize::MAX);
}

#[test]
fn remembered_lines_are_trimmed_and_non_empty() {
    let l = pingtest::text::nonempty_lines(" 10.0.0.1, 10.0.0.2 \r\n\n\t\nexample.com\n");
    assert_eq!(l, vec!["10.0.0.1, 10.0.0.2", "example.com"]);
    assert!(pingtest::text::nonempty_lines("").is_empty());
    assert_eq!(pingtest::text::nonempty_lines("a"), vec!["a"]);
}
