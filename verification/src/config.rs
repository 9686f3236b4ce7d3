//! Settings: how to ping, which columns to show, which to export.

use vstd::prelude::*;

verus! {

/// How to ping.
#[derive(Debug, Clone, Copy, PartialEq, Eq, Structural)]
pub struct PingConfig {
    pub timeout_ms: u64,
    pub packet_size: usize,
    pub interval_ms: u64,
    pub max_concurrent: usize,
}

/// Which columns the result table shows.
#[derive(Debug, Clone, Copy, PartialEq, Eq, Structural)]
pub struct DisplayConfig {
    pub show_hostname: bool,
    pub show_ip: bool,
    pub show_success_count: bool,
    pub show_fail_count: bool,
    pub show_fail_rate: bool,
    pub show_total_sent: bool,
    pub show_last_rtt: bool,
    pub show_max_rtt: bool,
    pub show_min_rtt: bool,
    pub show_avg_rtt: bool,
    pub show_index: bool,
}

/// Which columns an export writes.
#[derive(Debug, Clone, Copy, PartialEq, Eq, Structural)]
pub struct ExportConfig {
    pub export_hostname: bool,
    pub export_ip: bool,
    pub export_success_count: bool,
    pub export_fail_count: bool,
    pub export_fail_rate: bool,
    pub export_total_sent: bool,
    pub export_last_rtt: bool,
    pub export_max_rtt: bool,
    pub export_min_rtt: bool,
    pub export_avg_rtt: bool,
}

/// The lowest value the settings editor keeps for the timeout, the payload
/// size, the interval and the number of pings in flight.
pub const MIN_TIMEOUT_MS: i64 = 100;
pub const MIN_PACKET_SIZE: i64 = 1;
pub const MIN_INTERVAL_MS: i64 = 100;
pub const MIN_CONCURRENT: i64 = 1;

pub open spec fn at_least(v: i64, lo: i64) -> i64 {
    if v < lo {
        lo
    } else {
        v
    }
}

impl PingConfig {
    /// Takes the values of the settings editor, each raised to its lowest
    /// allowed value.
    pub fn set_from_editor(&mut self, timeout_ms: i64, packet_size: i64, interval_ms: i64, max_concurrent: i64)
        ensures
            final(self).timeout_ms == at_least(timeout_ms, MIN_TIMEOUT_MS),
            final(self).packet_size == at_least(packet_size, MIN_PACKET_SIZE) as usize,
            final(self).interval_ms == at_least(interval_ms, MIN_INTERVAL_MS),
            final(self).max_concurrent == at_least(max_concurrent, MIN_CONCURRENT) as usize,
    {
        self.timeout_ms = (if timeout_ms < MIN_TIMEOUT_MS { MIN_TIMEOUT_MS } else { timeout_ms }) as u64;
        self.packet_size = (if packet_size < MIN_PACKET_SIZE { MIN_PACKET_SIZE } else { packet_size }) as usize;
        self.interval_ms = (if interval_ms < MIN_INTERVAL_MS { MIN_INTERVAL_MS } else { interval_ms }) as u64;
        self.max_concurrent = (if max_concurrent < MIN_CONCURRENT { MIN_CONCURRENT } else { max_concurrent }) as usize;
    }
}

impl Default for PingConfig {
    fn default() -> (r: PingConfig)
        ensures
            r == (PingConfig { timeout_ms: 3000, packet_size: 32, interval_ms: 1000, max_concurrent: 200 }),
    {
        PingConfig { timeout_ms: 3000, packet_size: 32, interval_ms: 1000, max_concurrent: 200 }
    }
}

impl Default for DisplayConfig {
    /// Every column shown.
    fn default() -> (r: DisplayConfig)
        ensures
            r == (DisplayConfig {
                show_hostname: true,
                show_ip: true,
                show_success_count: true,
                show_fail_count: true,
                show_fail_rate: true,
                show_total_sent: true,
                show_last_rtt: true,
                show_max_rtt: true,
                show_min_rtt: true,
                show_avg_rtt: true,
                show_index: true,
            }),
    {
        DisplayConfig {
            show_hostname: true,
            show_ip: true,
            show_success_count: true,
            show_fail_count: true,
            show_fail_rate: true,
            show_total_sent: true,
            show_last_rtt: true,
            show_max_rtt: true,
            show_min_rtt: true,
            show_avg_rtt: true,
            show_index: true,
        }
    }
}

impl Default for ExportConfig {
    /// Every column exported but the last round trip.
    fn default() -> (r: ExportConfig)
        ensures
            r == (ExportConfig {
                export_hostname: true,
                export_ip: true,
                export_success_count: true,
                export_fail_count: true,
                export_fail_rate: true,
                export_total_sent: true,
                export_last_rtt: false,
                export_max_rtt: true,
                export_min_rtt: true,
                export_avg_rtt: true,
            }),
    {
        ExportConfig {
            export_hostname: true,
            export_ip: true,
            export_success_count: true,
            export_fail_count: true,
            export_fail_rate: true,
            export_total_sent: true,
            export_last_rtt: false,
            export_max_rtt: true,
            export_min_rtt: true,
            export_avg_rtt: true,
        }
    }
}

} // verus!
