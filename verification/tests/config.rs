use pingtest::config::{DisplayConfig, ExportConfig, PingConfig};

#[test]
fn ping_defaults() {
    let c = PingConfig::default();
    assert_eq!(c.timeout_ms, 3000);
    assert_eq!(c.packet_size, 32);
    assert_eq!(c.interval_ms, 1000);
    assert_eq!(c.max_concurrent, 200);
}

#[test]
fn display_defaults_show_everything() {
    let d = DisplayConfig::default();
    assert!(d.show_hostname && d.show_ip && d.show_success_count && d.show_fail_count);
    assert!(d.show_fail_rate && d.show_total_sent && d.show_last_rtt && d.show_max_rtt);
    assert!(d.show_min_rtt && d.show_avg_rtt && d.show_index);
}

#[test]
fn export_defaults_leave_out_last_rtt() {
    let x = ExportConfig::default();
    assert!(!x.export_last_rtt);
    assert!(x.export_hostname && x.export_ip && x.export_success_count && x.export_fail_count);
    assert!(x.export_fail_rate && x.export_total_sent && x.export_max_rtt && x.export_min_rtt && x.export_avg_rtt);
}

#[test]
fn editor_values_are_raised_to_their_minimum() {
    let mut c = PingConfig::default();
    c.set_from_editor(5, 0, -20, 0);
    assert_eq!((c.timeout_ms, c.packet_size, c.interval_ms, c.max_concurrent), (100, 1, 100, 1));
    c.set_from_editor(2500, 64, 750, 50);
    assert_eq!((c.timeout_ms, c.packet_size, c.interval_ms, c.max_concurrent), (2500, 64, 750, 50));
}
