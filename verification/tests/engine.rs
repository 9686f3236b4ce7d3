use pingtest::net::IpAddress;
use pingtest::ping::{id_from_hash, rand_id, PingEngine, PingStats, PingTarget};

fn target(i: usize, name: &str, ip: u32) -> PingTarget {
    PingTarget { index: i, hostname: name.to_string(), ip: IpAddress::V4(ip), stats: PingStats::default() }
}

#[test]
fn new_engine_is_stopped_and_empty() {
    let e = PingEngine::new(3000, 1000, 32, 200);
    assert!(!e.is_running());
    assert!(e.targets().is_empty());
    assert_eq!((e.timeout_ms(), e.interval_ms(), e.packet_size(), e.max_concurrent()), (3000, 1000, 32, 200));
}

#[test]
fn start_and_stop_flip_running() {
    let mut e = PingEngine::new(3000, 1000, 32, 200);
    e.set_targets(vec![target(0, "a", 1)]);
    e.start();
    assert!(e.is_running());
    e.stop();
    assert!(!e.is_running());
    assert_eq!(e.targets().len(), 1);
}

#[test]
fn results_go_to_their_target() {
    let mut e = PingEngine::new(3000, 1000, 32, 200);
    e.set_targets(vec![target(0, "a", 1), target(1, "b", 2)]);
    e.record_result(1, Some(1200));
    e.record_result(1, None);
    e.record_result(0, None);
    let t = e.targets();
    assert_eq!(t[0].stats.fail_count, 1);
    assert_eq!(t[0].stats.success_count, 0);
    assert_eq!(t[1].stats.success_count, 1);
    assert_eq!(t[1].stats.fail_count, 1);
    assert_eq!(t[1].stats.max_rtt_us, 1200);
    assert_eq!(t[1].hostname, "b");
}

#[test]
fn round_delay_fills_the_interval() {
    let e = PingEngine::new(3000, 1000, 32, 200);
    assert_eq!(e.round_delay_ns(0), 1_000_000_000);
    assert_eq!(e.round_delay_ns(250_000_000), 750_000_000);
    assert_eq!(e.round_delay_ns(1_000_000_000), 0);
    assert_eq!(e.round_delay_ns(5_000_000_000), 0);
}

#[test]
fn id_is_low_sixteen_bits_of_hash() {
    assert_eq!(id_from_hash(0x1234_5678_9abc_def0), 0xdef0);
    assert_eq!(id_from_hash(65535), 65535);
    assert_eq!(id_from_hash(65536), 0);
}

#[test]
fn random_ids_vary() {
    let ids: Vec<u16> = (0..16).map(|_| rand_id()).collect();
    assert!(ids.iter().any(|&x| x != ids[0]));
}
