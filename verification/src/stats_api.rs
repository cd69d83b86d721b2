//! The report of the relay's counters, and the rates in it.

use crate::num::beyond;
use crate::stats::{wrapped, DropReasonCounters, Stats};
use vstd::prelude::*;

verus! {

/// The shortest span that rates are taken over, in nanoseconds.
pub const STATS_RATE_SAMPLE_MIN_NS: u64 = 1_000_000_000;

/// The latest sample of the byte counters, and the rates since the one before. Times
/// are nanoseconds of a monotonic clock.
#[derive(Clone, Copy, PartialEq, Eq, Structural, Debug)]
pub struct StatsRateWindow {
    pub last_sample_at: Option<u64>,
    pub last_bytes_in: u64,
    pub last_bytes_out: u64,
    pub inbound_bps: u64,
    pub outbound_bps: u64,
}

/// What came and went between two samples.
#[derive(Clone, Copy, PartialEq, Eq, Structural, Debug)]
pub struct RateSample {
    pub delta_in: u64,
    pub delta_out: u64,
    pub elapsed_ns: u64,
}

/// Whether `after` and `r` are what a look at the counters makes of `before`.
pub open spec fn sampled(
    before: StatsRateWindow,
    after: StatsRateWindow,
    r: Option<RateSample>,
    bytes_in: u64,
    bytes_out: u64,
    now: u64,
) -> bool {
    &&& after == if before.due(now) {
        StatsRateWindow {
            last_sample_at: Some(now),
            last_bytes_in: bytes_in,
            last_bytes_out: bytes_out,
            ..before
        }
    } else {
        before
    }
    &&& r == match before.last_sample_at {
        Some(at) => if before.due(now) {
            Some(
                RateSample {
                    delta_in: beyond(bytes_in, before.last_bytes_in),
                    delta_out: beyond(bytes_out, before.last_bytes_out),
                    elapsed_ns: beyond(now, at),
                },
            )
        } else {
            None
        },
        None => None,
    }
}

impl StatsRateWindow {
    pub fn new() -> (r: StatsRateWindow)
        ensures
            r == (StatsRateWindow {
                last_sample_at: None,
                last_bytes_in: 0,
                last_bytes_out: 0,
                inbound_bps: 0,
                outbound_bps: 0,
            }),
    {
        StatsRateWindow {
            last_sample_at: None,
            last_bytes_in: 0,
            last_bytes_out: 0,
            inbound_bps: 0,
            outbound_bps: 0,
        }
    }

    /// Whether the counters are sampled at `now`: the first time, and then when the
    /// latest sample is old enough.
    pub open spec fn due(self, now: u64) -> bool {
        match self.last_sample_at {
            None => true,
            Some(at) => beyond(now, at) >= STATS_RATE_SAMPLE_MIN_NS,
        }
    }

    /// Samples the counters, if that is due. Where there is an earlier sample, what
    /// came and went since then is returned, for the rates to be taken from.
    pub fn sample(&mut self, bytes_in: u64, bytes_out: u64, now: u64) -> (r: Option<RateSample>)
        ensures
            sampled(*old(self), *final(self), r, bytes_in, bytes_out, now),
            r matches Some(s) ==> s.elapsed_ns >= STATS_RATE_SAMPLE_MIN_NS,
    {
        let r: Option<RateSample> = match self.last_sample_at {
            None => None,
            Some(at) => {
                if now < at || now - at < STATS_RATE_SAMPLE_MIN_NS {
                    return None;
                }
                Some(
                    RateSample {
                        delta_in: if bytes_in >= self.last_bytes_in {
                            bytes_in - self.last_bytes_in
                        } else {
                            0
                        },
                        delta_out: if bytes_out >= self.last_bytes_out {
                            bytes_out - self.last_bytes_out
                        } else {
                            0
                        },
                        elapsed_ns: now - at,
                    },
                )
            },
        };
        self.last_sample_at = Some(now);
        self.last_bytes_in = bytes_in;
        self.last_bytes_out = bytes_out;
        r
    }

    /// Keeps the rates that were taken from a sample.
    pub fn set_rates(&mut self, inbound_bps: u64, outbound_bps: u64)
        ensures
            *final(self) == (StatsRateWindow { inbound_bps, outbound_bps, ..*old(self) }),
    {
        self.inbound_bps = inbound_bps;
        self.outbound_bps = outbound_bps;
    }
}

/// The relay's counters as they are reported.
#[derive(Clone, Copy, PartialEq, Eq, Structural, Debug)]
pub struct StatsReport {
    pub timestamp: u64,
    pub active_users: u64,
    pub active_sessions: u64,
    pub throttled_users: u64,
    pub inbound_bps: u64,
    pub outbound_bps: u64,
    pub dropped_in: u64,
    pub dropped_out: u64,
    /// Dropped packets per second of uptime.
    pub dropped_pps: u64,
    pub pool_exhausted: u64,
    pub tcp_forwarded: u64,
    pub tun_udp_forwarded: u64,
    pub drops: DropReasonCounters,
}

/// The report of the counters.
pub open spec fn report_of(
    stats: Stats,
    window: StatsRateWindow,
    uptime_secs: u64,
    now_unix: u64,
) -> StatsReport {
    StatsReport {
        timestamp: now_unix,
        active_users: stats.active_sessions,
        active_sessions: stats.active_sessions,
        throttled_users: stats.throttled_users,
        inbound_bps: window.inbound_bps,
        outbound_bps: window.outbound_bps,
        dropped_in: stats.dropped_in,
        dropped_out: stats.dropped_out,
        dropped_pps: if uptime_secs > 0 {
            wrapped(stats.dropped_in, stats.dropped_out as int) / uptime_secs
        } else {
            0
        },
        pool_exhausted: stats.pool_exhausted,
        tcp_forwarded: stats.tcp_forwarded,
        tun_udp_forwarded: stats.tun_udp_forwarded,
        drops: stats.drop_reasons,
    }
}

/// Puts the report together.
pub fn stats_report(stats: &Stats, window: &StatsRateWindow, uptime_secs: u64, now_unix: u64) -> (r:
    StatsReport)
    ensures
        r == report_of(*stats, *window, uptime_secs, now_unix),
{
    let dropped_pps: u64 = if uptime_secs > 0 {
        stats.dropped_in.wrapping_add(stats.dropped_out) / uptime_secs
    } else {
        0
    };
    StatsReport {
        timestamp: now_unix,
        active_users: stats.active_sessions,
        active_sessions: stats.active_sessions,
        throttled_users: stats.throttled_users,
        inbound_bps: window.inbound_bps,
        outbound_bps: window.outbound_bps,
        dropped_in: stats.dropped_in,
        dropped_out: stats.dropped_out,
        dropped_pps,
        pool_exhausted: stats.pool_exhausted,
        tcp_forwarded: stats.tcp_forwarded,
        tun_udp_forwarded: stats.tun_udp_forwarded,
        drops: stats.drop_reasons,
    }
}

/// Samples are at least a second apart. The first one only sets the counters down; each
/// later one gives what came and went since the one before, and how long that took, and
/// nothing where a counter went back. Between samples nothing changes.
pub proof fn samples_are_a_second_apart(
    before: StatsRateWindow,
    after: StatsRateWindow,
    r: Option<RateSample>,
    bytes_in: u64,
    bytes_out: u64,
    now: u64,
)
    requires
        sampled(before, after, r, bytes_in, bytes_out, now),
    ensures
        ({
            let first = before.last_sample_at is None;
            let at = before.last_sample_at->Some_0;
            let taken = first || now >= at + 1_000_000_000;
            &&& r is Some <==> !first && taken
            &&& taken ==> after.last_sample_at == Some(now) && after.last_bytes_in == bytes_in
                && after.last_bytes_out == bytes_out
            &&& !taken ==> after == before
            &&& after.inbound_bps == before.inbound_bps && after.outbound_bps == before.outbound_bps
            &&& r is Some ==> {
                let s = r->Some_0;
                &&& s.elapsed_ns == now - at
                &&& bytes_in >= before.last_bytes_in ==> s.delta_in == bytes_in - before.last_bytes_in
                &&& bytes_in < before.last_bytes_in ==> s.delta_in == 0
                &&& bytes_out >= before.last_bytes_out ==> s.delta_out == bytes_out - before.last_bytes_out
                &&& bytes_out < before.last_bytes_out ==> s.delta_out == 0
            }
        }),
{
}

/// The report has the counters under their names, and how many packets were dropped, in
/// both directions, for each second that the relay has been up.
pub proof fn reports_have_the_counters(
    stats: Stats,
    window: StatsRateWindow,
    uptime_secs: u64,
    now_unix: u64,
)
    requires
        stats.dropped_in + stats.dropped_out <= u64::MAX,
    ensures
        ({
            let r = report_of(stats, window, uptime_secs, now_unix);
            &&& r.timestamp == now_unix
            &&& r.active_users == stats.active_sessions && r.active_sessions == stats.active_sessions
            &&& r.throttled_users == stats.throttled_users
            &&& r.inbound_bps == window.inbound_bps && r.outbound_bps == window.outbound_bps
            &&& r.dropped_in == stats.dropped_in && r.dropped_out == stats.dropped_out
            &&& r.pool_exhausted == stats.pool_exhausted && r.tcp_forwarded == stats.tcp_forwarded
                && r.tun_udp_forwarded == stats.tun_udp_forwarded
            &&& r.drops == stats.drop_reasons
            &&& uptime_secs == 0 ==> r.dropped_pps == 0
            &&& uptime_secs > 0 ==> r.dropped_pps * uptime_secs <= stats.dropped_in + stats.dropped_out
                < (r.dropped_pps + 1) * uptime_secs
        }),
{
    let total = stats.dropped_in + stats.dropped_out;
    if uptime_secs > 0 {
        let q = total / uptime_secs as int;
        vstd::arithmetic::div_mod::lemma_fundamental_div_mod(total, uptime_secs as int);
        assert(q * uptime_secs as int <= total && total < (q + 1) * uptime_secs as int) by (nonlinear_arith)
            requires
                total == uptime_secs as int * q + total % (uptime_secs as int),
                0 <= total % (uptime_secs as int) < uptime_secs as int,
        ;
    }
}

} // verus!
