//! Ping targets, their running statistics, and the ping engine's state and
//! decisions: which target a result belongs to, what it does to the
//! statistics, and how long to wait before the next round.

use std::collections::hash_map::RandomState;
use std::hash::BuildHasher;
use vstd::prelude::*;
use crate::net::IpAddress;

verus! {

/// Running statistics of one ping target.
#[derive(Debug, Clone)]
pub struct PingStats {
    pub success_count: u64,
    pub fail_count: u64,
    pub total_sent: u64,
    pub last_rtt_us: Option<u64>,
    pub max_rtt_us: u64,
    pub min_rtt_us: u64,
    pub total_rtt_us: u64,
    pub is_alive: bool,
}

impl PingStats {
    /// The all-zero statistics of a target that has not been pinged yet.
    pub open spec fn spec_zero() -> PingStats {
        PingStats {
            success_count: 0,
            fail_count: 0,
            total_sent: 0,
            last_rtt_us: None,
            max_rtt_us: 0,
            min_rtt_us: 0,
            total_rtt_us: 0,
            is_alive: false,
        }
    }

    /// Mean round trip time in microseconds, rounded down; 0 before any success.
    pub open spec fn spec_avg_rtt_us(self) -> u64 {
        if self.success_count == 0 {
            0
        } else {
            (self.total_rtt_us / self.success_count) as u64
        }
    }

    /// The relations between the counters that every sequence of recorded
    /// results keeps, starting from the zero statistics.
    pub open spec fn well_formed(self) -> bool {
        &&& self.success_count + self.fail_count == self.total_sent
        &&& self.is_alive <==> self.last_rtt_us is Some
        &&& self.success_count == 0 ==> {
            &&& self.total_rtt_us == 0
            &&& self.min_rtt_us == 0
            &&& self.max_rtt_us == 0
            &&& self.last_rtt_us is None
        }
        &&& self.success_count > 0 ==> {
            &&& self.min_rtt_us <= self.max_rtt_us
            &&& self.success_count * self.min_rtt_us <= self.total_rtt_us
            &&& self.total_rtt_us <= self.success_count * self.max_rtt_us
        }
        &&& self.last_rtt_us matches Some(r) ==> self.min_rtt_us <= r <= self.max_rtt_us
    }

    /// The statistics after one more successful ping with round trip `rtt`.
    pub open spec fn after_success(self, rtt: u64) -> PingStats {
        PingStats {
            success_count: (self.success_count + 1) as u64,
            fail_count: self.fail_count,
            total_sent: (self.total_sent + 1) as u64,
            last_rtt_us: Some(rtt),
            max_rtt_us: if self.success_count == 0 || rtt > self.max_rtt_us {
                rtt
            } else {
                self.max_rtt_us
            },
            min_rtt_us: if self.success_count == 0 || rtt < self.min_rtt_us {
                rtt
            } else {
                self.min_rtt_us
            },
            total_rtt_us: (self.total_rtt_us + rtt) as u64,
            is_alive: true,
        }
    }

    /// The statistics after one more failed ping.
    pub open spec fn after_failure(self) -> PingStats {
        PingStats {
            fail_count: (self.fail_count + 1) as u64,
            total_sent: (self.total_sent + 1) as u64,
            last_rtt_us: None,
            is_alive: false,
            ..self
        }
    }

    /// Whether one more success with round trip `rtt` fits every counter.
    pub open spec fn can_record_success(self, rtt: u64) -> bool {
        &&& self.total_sent < u64::MAX
        &&& self.success_count < u64::MAX
        &&& self.total_rtt_us + rtt <= u64::MAX
    }

    /// Whether one more failure fits every counter.
    pub open spec fn can_record_failure(self) -> bool {
        &&& self.total_sent < u64::MAX
        &&& self.fail_count < u64::MAX
    }

    /// The statistics after one more ping result: a round trip for a
    /// success, `None` for a failure.
    pub open spec fn after_result(self, rtt: Option<u64>) -> PingStats {
        match rtt {
            Some(r) => self.after_success(r),
            None => self.after_failure(),
        }
    }

    /// Whether one more ping result fits every counter.
    pub open spec fn can_record(self, rtt: Option<u64>) -> bool {
        match rtt {
            Some(r) => self.can_record_success(r),
            None => self.can_record_failure(),
        }
    }

    pub fn avg_rtt_us(&self) -> (r: u64)
        ensures
            r == self.spec_avg_rtt_us(),
    {
        if self.success_count == 0 {
            0
        } else {
            self.total_rtt_us / self.success_count
        }
    }

    /// Counts a successful ping: one more sent and succeeded, the round trip
    /// added to the total, remembered as the last one and folded into the
    /// minimum and maximum (which the first success sets outright).
    pub fn record_success(&mut self, rtt_us: u64)
        requires
            old(self).can_record_success(rtt_us),
        ensures
            *final(self) == old(self).after_success(rtt_us),
    {
        self.total_sent += 1;
        self.success_count += 1;
        self.last_rtt_us = Some(rtt_us);
        self.total_rtt_us += rtt_us;
        self.is_alive = true;

        if self.success_count == 1 {
            self.min_rtt_us = rtt_us;
            self.max_rtt_us = rtt_us;
        } else {
            if rtt_us < self.min_rtt_us {
                self.min_rtt_us = rtt_us;
            }
            if rtt_us > self.max_rtt_us {
                self.max_rtt_us = rtt_us;
            }
        }
    }

    /// Counts a failed ping: one more sent and failed, no last round trip,
    /// the target no longer alive; the round trip figures stay as they were.
    pub fn record_failure(&mut self)
        requires
            old(self).can_record_failure(),
        ensures
            *final(self) == old(self).after_failure(),
    {
        self.total_sent += 1;
        self.fail_count += 1;
        self.last_rtt_us = None;
        self.is_alive = false;
    }
}

impl Default for PingStats {
    fn default() -> (r: PingStats)
        ensures
            r == PingStats::spec_zero(),
    {
        PingStats {
            success_count: 0,
            fail_count: 0,
            total_sent: 0,
            last_rtt_us: None,
            max_rtt_us: 0,
            min_rtt_us: 0,
            total_rtt_us: 0,
            is_alive: false,
        }
    }
}

/// The statistics of a target that was never pinged are well formed.
pub proof fn lemma_zero_well_formed()
    ensures
        PingStats::spec_zero().well_formed(),
{
}

/// Recording a success keeps the statistics well formed.
pub proof fn lemma_success_keeps_well_formed(s: PingStats, rtt: u64)
    requires
        s.well_formed(),
        s.can_record_success(rtt),
    ensures
        s.after_success(rtt).well_formed(),
{
    let t = s.after_success(rtt);
    if s.success_count > 0 {
        let n = s.success_count as int;
        assert(t.success_count * t.min_rtt_us <= t.total_rtt_us) by (nonlinear_arith)
            requires
                t.success_count == n + 1,
                n * s.min_rtt_us <= s.total_rtt_us,
                t.min_rtt_us <= s.min_rtt_us,
                t.min_rtt_us <= rtt,
                t.total_rtt_us == s.total_rtt_us + rtt,
                n >= 0,
        ;
        assert(t.total_rtt_us <= t.success_count * t.max_rtt_us) by (nonlinear_arith)
            requires
                t.success_count == n + 1,
                s.total_rtt_us <= n * s.max_rtt_us,
                s.max_rtt_us <= t.max_rtt_us,
                rtt <= t.max_rtt_us,
                t.total_rtt_us == s.total_rtt_us + rtt,
                n >= 0,
        ;
    } else {
        assert(t.success_count * t.min_rtt_us == t.total_rtt_us) by (nonlinear_arith)
            requires
                t.success_count == 1,
                t.min_rtt_us == rtt,
                t.total_rtt_us == rtt,
        ;
        assert(t.success_count * t.max_rtt_us == t.total_rtt_us) by (nonlinear_arith)
            requires
                t.success_count == 1,
                t.max_rtt_us == rtt,
                t.total_rtt_us == rtt,
        ;
    }
}

/// Recording a failure keeps the statistics well formed.
pub proof fn lemma_failure_keeps_well_formed(s: PingStats)
    requires
        s.well_formed(),
        s.can_record_failure(),
    ensures
        s.after_failure().well_formed(),
{
}

/// In well-formed statistics with at least one success, the mean round trip
/// lies between the minimum and the maximum.
pub proof fn lemma_avg_between_min_and_max(s: PingStats)
    requires
        s.well_formed(),
        s.success_count > 0,
    ensures
        s.min_rtt_us <= s.spec_avg_rtt_us() <= s.max_rtt_us,
{
    let n = s.success_count as int;
    let t = s.total_rtt_us as int;
    assert(s.min_rtt_us <= t / n <= s.max_rtt_us) by (nonlinear_arith)
        requires
            n > 0,
            n * s.min_rtt_us <= t,
            t <= n * s.max_rtt_us,
    ;
}

/// The average round trip is the mean of the successful round trips,
/// rounded down: times the number of successes it is at most their total,
/// and one more would exceed it. Before any success it is 0.
pub proof fn lemma_avg_is_mean(s: PingStats)
    ensures
        s.success_count > 0 ==> s.spec_avg_rtt_us() * s.success_count <= s.total_rtt_us,
        s.success_count > 0 ==> s.total_rtt_us < (s.spec_avg_rtt_us() + 1) * s.success_count,
        s.success_count == 0 ==> s.spec_avg_rtt_us() == 0,
{
    if s.success_count > 0 {
        let n = s.success_count as int;
        let t = s.total_rtt_us as int;
        assert((t / n) * n <= t < (t / n + 1) * n) by (nonlinear_arith)
            requires
                n > 0,
                t >= 0,
        ;
        assert(t / n <= t) by (nonlinear_arith)
            requires
                n > 0,
                t >= 0,
        ;
    }
}

/// The statistics after successful pings with round trips `rs`, in order,
/// starting from `s`.
pub open spec fn after_successes(s: PingStats, rs: Seq<u64>) -> PingStats
    decreases rs.len(),
{
    if rs.len() == 0 {
        s
    } else {
        after_successes(s, rs.drop_last()).after_success(rs.last())
    }
}

/// The sum of the round trips.
pub open spec fn sum_of(rs: Seq<u64>) -> int
    decreases rs.len(),
{
    if rs.len() == 0 {
        0
    } else {
        sum_of(rs.drop_last()) + rs.last()
    }
}

proof fn lemma_sum_of_prefix(rs: Seq<u64>)
    requires
        rs.len() > 0,
    ensures
        sum_of(rs.drop_last()) <= sum_of(rs),
{
}

/// What a run of successful pings leaves in fresh statistics: as many
/// successes and pings sent as round trips, no failure, the round trips'
/// sum as total, the last one as last, a minimum and a maximum that are
/// among the round trips and bound every one of them, and as average the
/// sum over the count, rounded down.
pub proof fn lemma_recorded_round_trips(rs: Seq<u64>)
    requires
        sum_of(rs) <= u64::MAX,
        rs.len() < u64::MAX,
    ensures
        ({
            let t = after_successes(PingStats::spec_zero(), rs);
            &&& t.success_count == rs.len()
            &&& t.total_sent == rs.len()
            &&& t.fail_count == 0
            &&& t.total_rtt_us == sum_of(rs)
            &&& rs.len() == 0 ==> t.last_rtt_us is None
            &&& rs.len() > 0 ==> t.last_rtt_us == Some(rs.last())
            &&& forall|i: int| 0 <= i < rs.len() ==> t.min_rtt_us <= #[trigger] rs[i] <= t.max_rtt_us
            &&& rs.len() > 0 ==> exists|i: int| 0 <= i < rs.len() && #[trigger] rs[i] == t.min_rtt_us
            &&& rs.len() > 0 ==> exists|i: int| 0 <= i < rs.len() && #[trigger] rs[i] == t.max_rtt_us
            &&& rs.len() > 0 ==> t.spec_avg_rtt_us() * rs.len() <= sum_of(rs) < (t.spec_avg_rtt_us()
                + 1) * rs.len()
        }),
    decreases rs.len(),
{
    let t = after_successes(PingStats::spec_zero(), rs);
    if rs.len() > 0 {
        let p = rs.drop_last();
        let r = rs.last();
        lemma_sum_of_prefix(rs);
        lemma_recorded_round_trips(p);
        let u = after_successes(PingStats::spec_zero(), p);
        assert(t == u.after_success(r));
        assert forall|i: int| 0 <= i < rs.len() implies t.min_rtt_us <= #[trigger] rs[i] <= t.max_rtt_us by {
            if i < p.len() {
                assert(rs[i] == p[i]);
            }
        }
        if p.len() > 0 && r >= u.min_rtt_us {
            let k = choose|k: int| 0 <= k < p.len() && #[trigger] p[k] == u.min_rtt_us;
            assert(rs[k] == p[k]);
        } else {
            assert(rs[rs.len() - 1] == r);
        }
        if p.len() > 0 && r <= u.max_rtt_us {
            let k = choose|k: int| 0 <= k < p.len() && #[trigger] p[k] == u.max_rtt_us;
            assert(rs[k] == p[k]);
        } else {
            assert(rs[rs.len() - 1] == r);
        }
        lemma_avg_is_mean(t);
    }
}

/// One host to ping: its position in the list, its name, its address and
/// its statistics so far.
#[derive(Debug, Clone)]
pub struct PingTarget {
    pub index: usize,
    pub hostname: String,
    pub ip: IpAddress,
    pub stats: PingStats,
}

/// The targets after target `i` got one more ping result.
pub open spec fn targets_after_result(ts: Seq<PingTarget>, i: int, rtt: Option<u64>) -> Seq<PingTarget> {
    ts.update(i, PingTarget { stats: ts[i].stats.after_result(rtt), ..ts[i] })
}

/// Recording a ping result keeps the statistics of every target well
/// formed, and changes those of no other target.
pub proof fn lemma_result_keeps_targets_well_formed(ts: Seq<PingTarget>, i: int, rtt: Option<u64>)
    requires
        0 <= i < ts.len(),
        forall|j: int| 0 <= j < ts.len() ==> (#[trigger] ts[j]).stats.well_formed(),
        ts[i].stats.can_record(rtt),
    ensures
        forall|j: int|
            0 <= j < ts.len() ==> (#[trigger] targets_after_result(ts, i, rtt)[j]).stats.well_formed(),
        forall|j: int| 0 <= j < ts.len() && j != i ==> targets_after_result(ts, i, rtt)[j] == ts[j],
{
    match rtt {
        Some(r) => lemma_success_keeps_well_formed(ts[i].stats, r),
        None => lemma_failure_keeps_well_formed(ts[i].stats),
    }
}

/// The ping engine: the targets with their statistics, whether it runs, and
/// the settings of a run.
pub struct PingEngine {
    targets: Vec<PingTarget>,
    running: bool,
    timeout_ms: u64,
    interval_ms: u64,
    packet_size: usize,
    max_concurrent: usize,
}

impl PingEngine {
    pub closed spec fn spec_targets(&self) -> Seq<PingTarget> {
        self.targets@
    }

    pub closed spec fn spec_running(&self) -> bool {
        self.running
    }

    pub closed spec fn spec_timeout_ms(&self) -> u64 {
        self.timeout_ms
    }

    pub closed spec fn spec_interval_ms(&self) -> u64 {
        self.interval_ms
    }

    pub closed spec fn spec_packet_size(&self) -> usize {
        self.packet_size
    }

    pub closed spec fn spec_max_concurrent(&self) -> usize {
        self.max_concurrent
    }

    /// The settings of `self` and `other` agree.
    pub open spec fn same_settings(&self, other: &PingEngine) -> bool {
        &&& self.spec_timeout_ms() == other.spec_timeout_ms()
        &&& self.spec_interval_ms() == other.spec_interval_ms()
        &&& self.spec_packet_size() == other.spec_packet_size()
        &&& self.spec_max_concurrent() == other.spec_max_concurrent()
    }

    /// A stopped engine without targets, with the given timeout and interval
    /// (milliseconds), payload size (bytes) and number of pings in flight.
    pub fn new(timeout_ms: u64, interval_ms: u64, packet_size: usize, max_concurrent: usize) -> (r:
        Self)
        ensures
            r.spec_targets() == Seq::<PingTarget>::empty(),
            !r.spec_running(),
            r.spec_timeout_ms() == timeout_ms,
            r.spec_interval_ms() == interval_ms,
            r.spec_packet_size() == packet_size,
            r.spec_max_concurrent() == max_concurrent,
    {
        PingEngine {
            targets: Vec::new(),
            running: false,
            timeout_ms,
            interval_ms,
            packet_size,
            max_concurrent,
        }
    }

    /// Replaces the targets.
    pub fn set_targets(&mut self, targets: Vec<PingTarget>)
        ensures
            final(self).spec_targets() == targets@,
            final(self).spec_running() == old(self).spec_running(),
            final(self).same_settings(old(self)),
    {
        self.targets = targets;
    }

    pub fn targets(&self) -> (r: &[PingTarget])
        ensures
            r@ == self.spec_targets(),
    {
        self.targets.as_slice()
    }

    pub fn is_running(&self) -> (r: bool)
        ensures
            r == self.spec_running(),
    {
        self.running
    }

    pub fn timeout_ms(&self) -> (r: u64)
        ensures
            r == self.spec_timeout_ms(),
    {
        self.timeout_ms
    }

    pub fn interval_ms(&self) -> (r: u64)
        ensures
            r == self.spec_interval_ms(),
    {
        self.interval_ms
    }

    pub fn packet_size(&self) -> (r: usize)
        ensures
            r == self.spec_packet_size(),
    {
        self.packet_size
    }

    pub fn max_concurrent(&self) -> (r: usize)
        ensures
            r == self.spec_max_concurrent(),
    {
        self.max_concurrent
    }

    /// Marks the engine as running; the caller then pings the targets round
    /// after round for as long as it runs.
    pub fn start(&mut self)
        ensures
            final(self).spec_running(),
            final(self).spec_targets() == old(self).spec_targets(),
            final(self).same_settings(old(self)),
    {
        self.running = true;
    }

    /// Marks the engine as stopped; no round starts after this, and no ping
    /// of the current round that has not begun is sent.
    pub fn stop(&mut self)
        ensures
            !final(self).spec_running(),
            final(self).spec_targets() == old(self).spec_targets(),
            final(self).same_settings(old(self)),
    {
        self.running = false;
    }

    /// Records the outcome of one ping of target `i`: a round trip in
    /// microseconds counts as a success, `None` (no reply, or an error) as a
    /// failure. Nothing else changes.
    pub fn record_result(&mut self, i: usize, rtt_us: Option<u64>)
        requires
            i < old(self).spec_targets().len(),
            old(self).spec_targets()[i as int].stats.can_record(rtt_us),
        ensures
            final(self).spec_targets() == targets_after_result(old(self).spec_targets(), i as int, rtt_us),
            final(self).spec_running() == old(self).spec_running(),
            final(self).same_settings(old(self)),
    {
        match rtt_us {
            Some(rtt) => self.targets[i].stats.record_success(rtt),
            None => self.targets[i].stats.record_failure(),
        }
    }

    /// How long to wait, in nanoseconds, after a round that took `elapsed_ns`
    /// nanoseconds: the rest of the interval, or nothing if the round took
    /// the whole interval or longer.
    pub fn round_delay_ns(&self, elapsed_ns: u128) -> (r: u128)
        ensures
            elapsed_ns < self.spec_interval_ms() * 1_000_000 ==> elapsed_ns + r
                == self.spec_interval_ms() * 1_000_000,
            elapsed_ns >= self.spec_interval_ms() * 1_000_000 ==> r == 0,
    {
        let interval_ns = self.interval_ms as u128 * 1_000_000;
        if elapsed_ns < interval_ns {
            interval_ns - elapsed_ns
        } else {
            0
        }
    }
}

/// The ping identifier drawn from a hash value: its low 16 bits.
pub fn id_from_hash(h: u64) -> (r: u16)
    ensures
        r == h % 0x1_0000,
{
    (h % 0x1_0000) as u16
}

/// `RandomState::new`: a hasher builder with a fresh random seed.
#[verifier::external_body]
fn new_random_state() -> RandomState {
    RandomState::new()
}

/// `BuildHasher::hash_one` on a `u64` (a hasher built from `state`, fed the
/// value with `write_u64`, finished). Nothing is stated of the result: the
/// seed of `state` is random.
#[verifier::external_body]
fn hash_u64(state: &RandomState, x: u64) -> u64 {
    state.hash_one(x)
}

/// `SystemTime::elapsed` of `UNIX_EPOCH`: nanoseconds since 1970 (zero if
/// the clock is set before it), cut to 64 bits. Nothing is stated of the
/// result: it is the time.
#[verifier::external_body]
fn nanos_since_epoch() -> u64 {
    std::time::UNIX_EPOCH.elapsed().unwrap_or_default().as_nanos() as u64
}

/// A random ping identifier: the current time hashed with a randomly seeded
/// hasher, cut to 16 bits.
pub fn rand_id() -> u16 {
    let s = new_random_state();
    let h = hash_u64(&s, nanos_since_epoch());
    id_from_hash(h)
}

} // verus!
