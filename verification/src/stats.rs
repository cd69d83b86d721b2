//! Counters of the relay and of its sessions. They go around the end of their range.

use crate::addr::SocketAddr;
use crate::num::next;
use crate::source::{SourceLimitKind, SourceRateLimiter};
use dashmap::DashMap;
use vstd::prelude::*;

verus! {

/// Why a packet was dropped.
#[derive(Clone, Copy, PartialEq, Eq, Structural, Debug)]
pub enum DropReason {
    Auth,
    RateLimit,
    Capacity,
    TooSmall,
    Parse,
    Fragment,
    ForbiddenDst,
    TcpDisabled,
    Pool,
    StaleQueue,
    ShardQueue,
    TxQueue,
    TunQueue,
    FlowQueue,
    FlowCreate,
    FlowSend,
    SocketSend,
}

/// Dropped packets by reason.
#[derive(Clone, Copy, PartialEq, Eq, Structural, Debug)]
pub struct DropReasonCounters {
    pub auth: u64,
    pub rate_limit: u64,
    pub capacity: u64,
    pub too_small: u64,
    pub parse: u64,
    pub fragment: u64,
    pub forbidden_dst: u64,
    pub tcp_disabled: u64,
    pub pool: u64,
    pub stale_queue: u64,
    pub shard_queue: u64,
    pub tx_queue: u64,
    pub tun_queue: u64,
    pub flow_queue: u64,
    pub flow_create: u64,
    pub flow_send: u64,
    pub socket_send: u64,
}

impl DropReasonCounters {
    pub open spec fn zero() -> DropReasonCounters {
        DropReasonCounters {
            auth: 0,
            rate_limit: 0,
            capacity: 0,
            too_small: 0,
            parse: 0,
            fragment: 0,
            forbidden_dst: 0,
            tcp_disabled: 0,
            pool: 0,
            stale_queue: 0,
            shard_queue: 0,
            tx_queue: 0,
            tun_queue: 0,
            flow_queue: 0,
            flow_create: 0,
            flow_send: 0,
            socket_send: 0,
        }
    }

    /// The count of one reason.
    pub open spec fn at(self, reason: DropReason) -> u64 {
        match reason {
            DropReason::Auth => self.auth,
            DropReason::RateLimit => self.rate_limit,
            DropReason::Capacity => self.capacity,
            DropReason::TooSmall => self.too_small,
            DropReason::Parse => self.parse,
            DropReason::Fragment => self.fragment,
            DropReason::ForbiddenDst => self.forbidden_dst,
            DropReason::TcpDisabled => self.tcp_disabled,
            DropReason::Pool => self.pool,
            DropReason::StaleQueue => self.stale_queue,
            DropReason::ShardQueue => self.shard_queue,
            DropReason::TxQueue => self.tx_queue,
            DropReason::TunQueue => self.tun_queue,
            DropReason::FlowQueue => self.flow_queue,
            DropReason::FlowCreate => self.flow_create,
            DropReason::FlowSend => self.flow_send,
            DropReason::SocketSend => self.socket_send,
        }
    }

    /// With one more drop for the reason.
    pub open spec fn plus(self, reason: DropReason) -> DropReasonCounters {
        match reason {
            DropReason::Auth => DropReasonCounters { auth: next(self.auth), ..self },
            DropReason::RateLimit => DropReasonCounters { rate_limit: next(self.rate_limit), ..self },
            DropReason::Capacity => DropReasonCounters { capacity: next(self.capacity), ..self },
            DropReason::TooSmall => DropReasonCounters { too_small: next(self.too_small), ..self },
            DropReason::Parse => DropReasonCounters { parse: next(self.parse), ..self },
            DropReason::Fragment => DropReasonCounters { fragment: next(self.fragment), ..self },
            DropReason::ForbiddenDst => DropReasonCounters {
                forbidden_dst: next(self.forbidden_dst),
                ..self
            },
            DropReason::TcpDisabled => DropReasonCounters {
                tcp_disabled: next(self.tcp_disabled),
                ..self
            },
            DropReason::Pool => DropReasonCounters { pool: next(self.pool), ..self },
            DropReason::StaleQueue => DropReasonCounters { stale_queue: next(self.stale_queue), ..self },
            DropReason::ShardQueue => DropReasonCounters { shard_queue: next(self.shard_queue), ..self },
            DropReason::TxQueue => DropReasonCounters { tx_queue: next(self.tx_queue), ..self },
            DropReason::TunQueue => DropReasonCounters { tun_queue: next(self.tun_queue), ..self },
            DropReason::FlowQueue => DropReasonCounters { flow_queue: next(self.flow_queue), ..self },
            DropReason::FlowCreate => DropReasonCounters { flow_create: next(self.flow_create), ..self },
            DropReason::FlowSend => DropReasonCounters { flow_send: next(self.flow_send), ..self },
            DropReason::SocketSend => DropReasonCounters { socket_send: next(self.socket_send), ..self },
        }
    }

    pub fn new() -> (r: DropReasonCounters)
        ensures
            r == DropReasonCounters::zero(),
    {
        DropReasonCounters {
            auth: 0,
            rate_limit: 0,
            capacity: 0,
            too_small: 0,
            parse: 0,
            fragment: 0,
            forbidden_dst: 0,
            tcp_disabled: 0,
            pool: 0,
            stale_queue: 0,
            shard_queue: 0,
            tx_queue: 0,
            tun_queue: 0,
            flow_queue: 0,
            flow_create: 0,
            flow_send: 0,
            socket_send: 0,
        }
    }

    pub fn increment(&mut self, reason: DropReason)
        ensures
            *final(self) == old(self).plus(reason),
    {
        match reason {
            DropReason::Auth => {
                self.auth = self.auth.wrapping_add(1);
            },
            DropReason::RateLimit => {
                self.rate_limit = self.rate_limit.wrapping_add(1);
            },
            DropReason::Capacity => {
                self.capacity = self.capacity.wrapping_add(1);
            },
            DropReason::TooSmall => {
                self.too_small = self.too_small.wrapping_add(1);
            },
            DropReason::Parse => {
                self.parse = self.parse.wrapping_add(1);
            },
            DropReason::Fragment => {
                self.fragment = self.fragment.wrapping_add(1);
            },
            DropReason::ForbiddenDst => {
                self.forbidden_dst = self.forbidden_dst.wrapping_add(1);
            },
            DropReason::TcpDisabled => {
                self.tcp_disabled = self.tcp_disabled.wrapping_add(1);
            },
            DropReason::Pool => {
                self.pool = self.pool.wrapping_add(1);
            },
            DropReason::StaleQueue => {
                self.stale_queue = self.stale_queue.wrapping_add(1);
            },
            DropReason::ShardQueue => {
                self.shard_queue = self.shard_queue.wrapping_add(1);
            },
            DropReason::TxQueue => {
                self.tx_queue = self.tx_queue.wrapping_add(1);
            },
            DropReason::TunQueue => {
                self.tun_queue = self.tun_queue.wrapping_add(1);
            },
            DropReason::FlowQueue => {
                self.flow_queue = self.flow_queue.wrapping_add(1);
            },
            DropReason::FlowCreate => {
                self.flow_create = self.flow_create.wrapping_add(1);
            },
            DropReason::FlowSend => {
                self.flow_send = self.flow_send.wrapping_add(1);
            },
            DropReason::SocketSend => {
                self.socket_send = self.socket_send.wrapping_add(1);
            },
        }
    }
}

/// A drop is counted for its reason and for no other.
pub proof fn drops_are_counted_by_reason(c: DropReasonCounters, reason: DropReason, other: DropReason)
    ensures
        c.plus(reason).at(reason) == next(c.at(reason)),
        other != reason ==> c.plus(reason).at(other) == c.at(other),
{
}

/// The relay's counters.
#[derive(Clone, Copy, PartialEq, Eq, Structural, Debug)]
pub struct Stats {
    pub packets_in: u64,
    pub packets_out: u64,
    pub bytes_in: u64,
    pub bytes_out: u64,
    pub active_flows: u64,
    pub active_sessions: u64,
    /// Client packets that were dropped.
    pub dropped_in: u64,
    /// Responses that were dropped.
    pub dropped_out: u64,
    /// Events that a rate limit refused.
    pub throttled_users: u64,
    /// TCP packets that went to the device.
    pub tcp_forwarded: u64,
    /// UDP packets that went to the device.
    pub tun_udp_forwarded: u64,
    /// How often the buffer pool was empty; each time counts as a drop too.
    pub pool_exhausted: u64,
    pub drop_reasons: DropReasonCounters,
}

/// A sum around the end of the range.
pub open spec fn wrapped(x: u64, n: int) -> u64 {
    ((x + n) % 0x1_0000_0000_0000_0000) as u64
}

impl Stats {
    pub open spec fn zero() -> Stats {
        Stats {
            packets_in: 0,
            packets_out: 0,
            bytes_in: 0,
            bytes_out: 0,
            active_flows: 0,
            active_sessions: 0,
            dropped_in: 0,
            dropped_out: 0,
            throttled_users: 0,
            tcp_forwarded: 0,
            tun_udp_forwarded: 0,
            pool_exhausted: 0,
            drop_reasons: DropReasonCounters::zero(),
        }
    }

    /// With a packet of `len` bytes from a client.
    pub open spec fn received(self, len: int) -> Stats {
        Stats { packets_in: next(self.packets_in), bytes_in: wrapped(self.bytes_in, len), ..self }
    }

    /// With a packet of `len` bytes sent to a client.
    pub open spec fn sent(self, len: int) -> Stats {
        Stats { packets_out: next(self.packets_out), bytes_out: wrapped(self.bytes_out, len), ..self }
    }

    /// With a client packet dropped.
    pub open spec fn with_drop_in(self, reason: DropReason) -> Stats {
        Stats {
            dropped_in: next(self.dropped_in),
            drop_reasons: self.drop_reasons.plus(reason),
            ..self
        }
    }

    /// With a response dropped.
    pub open spec fn with_drop_out(self, reason: DropReason) -> Stats {
        Stats {
            dropped_out: next(self.dropped_out),
            drop_reasons: self.drop_reasons.plus(reason),
            ..self
        }
    }

    /// With an event that a rate limit refused.
    pub open spec fn throttled(self) -> Stats {
        Stats { throttled_users: next(self.throttled_users), ..self }.with_drop_in(DropReason::RateLimit)
    }

    /// With one more session.
    pub open spec fn with_session(self) -> Stats {
        Stats { active_sessions: next(self.active_sessions), ..self }
    }

    pub fn new() -> (r: Stats)
        ensures
            r == Stats::zero(),
    {
        Stats {
            packets_in: 0,
            packets_out: 0,
            bytes_in: 0,
            bytes_out: 0,
            active_flows: 0,
            active_sessions: 0,
            dropped_in: 0,
            dropped_out: 0,
            throttled_users: 0,
            tcp_forwarded: 0,
            tun_udp_forwarded: 0,
            pool_exhausted: 0,
            drop_reasons: DropReasonCounters::new(),
        }
    }

    pub fn receive(&mut self, len: usize)
        ensures
            *final(self) == old(self).received(len as int),
    {
        self.packets_in = self.packets_in.wrapping_add(1);
        self.bytes_in = self.bytes_in.wrapping_add(len as u64);
    }

    pub fn send(&mut self, len: usize)
        ensures
            *final(self) == old(self).sent(len as int),
    {
        self.packets_out = self.packets_out.wrapping_add(1);
        self.bytes_out = self.bytes_out.wrapping_add(len as u64);
    }

    pub fn drop_in(&mut self, reason: DropReason)
        ensures
            *final(self) == old(self).with_drop_in(reason),
    {
        self.dropped_in = self.dropped_in.wrapping_add(1);
        self.drop_reasons.increment(reason);
    }

    pub fn drop_out(&mut self, reason: DropReason)
        ensures
            *final(self) == old(self).with_drop_out(reason),
    {
        self.dropped_out = self.dropped_out.wrapping_add(1);
        self.drop_reasons.increment(reason);
    }
}

/// Whether the client may do this now; a refusal is counted.
pub fn allow_source_event(
    limiter: &mut SourceRateLimiter,
    stats: &mut Stats,
    client_addr: SocketAddr,
    kind: SourceLimitKind,
    now: u64,
) -> (r: bool)
    ensures
        r == old(limiter)@.has_room(client_addr.ip, kind, now),
        final(limiter)@ == old(limiter)@.after(client_addr.ip, kind, now),
        *final(stats) == if r {
            *old(stats)
        } else {
            old(stats).throttled()
        },
{
    if limiter.allow(client_addr.ip, kind, now) {
        return true;
    }
    stats.throttled_users = stats.throttled_users.wrapping_add(1);
    stats.drop_in(DropReason::RateLimit);
    false
}

/// The traffic of a session.
#[derive(Clone, Copy, PartialEq, Eq, Structural, Debug)]
pub struct SessionTraffic {
    pub connected_at_unix: u64,
    pub bytes_in: u64,
    pub bytes_out: u64,
    pub packets_in: u64,
    pub packets_out: u64,
    pub last_activity_unix: u64,
    /// The round trip that the client reported last, in microseconds.
    pub last_rtt_us: u64,
}

impl SessionTraffic {
    pub open spec fn fresh(connected_at_unix: u64) -> SessionTraffic {
        SessionTraffic {
            connected_at_unix,
            bytes_in: 0,
            bytes_out: 0,
            packets_in: 0,
            packets_out: 0,
            last_activity_unix: connected_at_unix,
            last_rtt_us: 0,
        }
    }

    /// With a packet of `len` bytes from the client.
    pub open spec fn with_in(self, len: int, now_unix: u64) -> SessionTraffic {
        SessionTraffic {
            bytes_in: wrapped(self.bytes_in, len),
            packets_in: next(self.packets_in),
            last_activity_unix: now_unix,
            ..self
        }
    }

    /// With a packet of `len` bytes to the client.
    pub open spec fn with_out(self, len: int, now_unix: u64) -> SessionTraffic {
        SessionTraffic {
            bytes_out: wrapped(self.bytes_out, len),
            packets_out: next(self.packets_out),
            last_activity_unix: now_unix,
            ..self
        }
    }

    /// With a packet of `len` bytes to the client that is no activity of the session.
    pub open spec fn with_idle_out(self, len: int) -> SessionTraffic {
        SessionTraffic {
            bytes_out: wrapped(self.bytes_out, len),
            packets_out: next(self.packets_out),
            ..self
        }
    }

    pub fn new(connected_at_unix: u64) -> (r: SessionTraffic)
        ensures
            r == SessionTraffic::fresh(connected_at_unix),
    {
        SessionTraffic {
            connected_at_unix,
            bytes_in: 0,
            bytes_out: 0,
            packets_in: 0,
            packets_out: 0,
            last_activity_unix: connected_at_unix,
            last_rtt_us: 0,
        }
    }
}

/// What a map from session keys to traffic holds.
pub uninterp spec fn traffic_of(m: DashMap<u64, SessionTraffic>) -> Map<u64, SessionTraffic>;

/// `DashMap::new`: the map is empty.
#[verifier::external_body]
fn new_traffic() -> (r: DashMap<u64, SessionTraffic>)
    ensures
        traffic_of(r) == (Map::<u64, SessionTraffic>::empty()),
{
    DashMap::new()
}

/// `DashMap::get`, copied out: the traffic under `key`, if there is any.
#[verifier::external_body]
fn get_traffic(m: &DashMap<u64, SessionTraffic>, key: u64) -> (r: Option<SessionTraffic>)
    ensures
        r == if traffic_of(*m).contains_key(key) {
            Some(traffic_of(*m)[key])
        } else {
            None
        },
{
    m.get(&key).map(|e| *e)
}

/// `DashMap::insert`: the traffic under `key` becomes `v`.
#[verifier::external_body]
fn insert_traffic(m: &mut DashMap<u64, SessionTraffic>, key: u64, v: SessionTraffic)
    ensures
        traffic_of(*final(m)) == traffic_of(*old(m)).insert(key, v),
{
    m.insert(key, v);
}

/// `DashMap::remove`: nothing is left under `key`.
#[verifier::external_body]
fn remove_traffic(m: &mut DashMap<u64, SessionTraffic>, key: u64)
    ensures
        traffic_of(*final(m)) == traffic_of(*old(m)).remove(key),
{
    m.remove(&key);
}

/// The traffic of all sessions.
pub struct TrafficTable {
    pub traffic: DashMap<u64, SessionTraffic>,
}

/// With a packet of `len` bytes from the client of a session, whose first one it may
/// be.
pub open spec fn ingress(m: Map<u64, SessionTraffic>, key: u64, now_unix: u64, len: int) -> Map<
    u64,
    SessionTraffic,
> {
    let before = if m.contains_key(key) {
        m[key]
    } else {
        SessionTraffic::fresh(now_unix)
    };
    m.insert(key, before.with_in(len, now_unix))
}

/// With a packet of `len` bytes to the client of a session, if the session has traffic.
pub open spec fn egress(m: Map<u64, SessionTraffic>, key: u64, now_unix: u64, len: int) -> Map<
    u64,
    SessionTraffic,
> {
    if m.contains_key(key) {
        m.insert(key, m[key].with_out(len, now_unix))
    } else {
        m
    }
}

/// With a packet of `len` bytes to the client of a session that is no activity, if the
/// session has traffic.
pub open spec fn idle_egress(m: Map<u64, SessionTraffic>, key: u64, len: int) -> Map<
    u64,
    SessionTraffic,
> {
    if m.contains_key(key) {
        m.insert(key, m[key].with_idle_out(len))
    } else {
        m
    }
}

/// With a round trip that the client of a session reported.
pub open spec fn rtt_reported(m: Map<u64, SessionTraffic>, key: u64, rtt_us: u64) -> Map<
    u64,
    SessionTraffic,
> {
    if m.contains_key(key) {
        m.insert(key, SessionTraffic { last_rtt_us: rtt_us, ..m[key] })
    } else {
        m
    }
}

impl TrafficTable {
    pub open spec fn view(self) -> Map<u64, SessionTraffic> {
        traffic_of(self.traffic)
    }

    pub fn new() -> (r: TrafficTable)
        ensures
            r@ == (Map::<u64, SessionTraffic>::empty()),
    {
        TrafficTable { traffic: new_traffic() }
    }

    pub fn get(&self, key: u64) -> (r: Option<SessionTraffic>)
        ensures
            r == if self@.contains_key(key) {
                Some(self@[key])
            } else {
                None
            },
    {
        get_traffic(&self.traffic, key)
    }

    pub fn remove(&mut self, key: u64)
        ensures
            final(self)@ == old(self)@.remove(key),
    {
        remove_traffic(&mut self.traffic, key);
    }

    /// Counts a packet that was sent to the client of a session.
    pub fn record_egress(&mut self, key: u64, now_unix: u64, len: usize)
        ensures
            final(self)@ == egress(old(self)@, key, now_unix, len as int),
    {
        if let Some(t) = get_traffic(&self.traffic, key) {
            let t = SessionTraffic {
                bytes_out: t.bytes_out.wrapping_add(len as u64),
                packets_out: t.packets_out.wrapping_add(1),
                last_activity_unix: now_unix,
                ..t
            };
            insert_traffic(&mut self.traffic, key, t);
        }
    }

    /// Counts a packet that was sent to the client of a session and is no activity.
    pub fn record_idle_egress(&mut self, key: u64, len: usize)
        ensures
            final(self)@ == idle_egress(old(self)@, key, len as int),
    {
        if let Some(t) = get_traffic(&self.traffic, key) {
            let t = SessionTraffic {
                bytes_out: t.bytes_out.wrapping_add(len as u64),
                packets_out: t.packets_out.wrapping_add(1),
                ..t
            };
            insert_traffic(&mut self.traffic, key, t);
        }
    }

    /// Notes a reported round trip.
    pub fn record_rtt(&mut self, key: u64, rtt_us: u64)
        ensures
            final(self)@ == rtt_reported(old(self)@, key, rtt_us),
    {
        if let Some(t) = get_traffic(&self.traffic, key) {
            insert_traffic(&mut self.traffic, key, SessionTraffic { last_rtt_us: rtt_us, ..t });
        }
    }
}

/// Counts a packet that came from the client of a session.
pub fn record_session_ingress(
    session_traffic: &mut TrafficTable,
    key: u64,
    connected_at_unix: u64,
    packet_len: usize,
)
    ensures
        final(session_traffic)@ == ingress(
            old(session_traffic)@,
            key,
            connected_at_unix,
            packet_len as int,
        ),
{
    let t: SessionTraffic = match get_traffic(&session_traffic.traffic, key) {
        Some(t) => t,
        None => SessionTraffic::new(connected_at_unix),
    };
    let t = SessionTraffic {
        bytes_in: t.bytes_in.wrapping_add(packet_len as u64),
        packets_in: t.packets_in.wrapping_add(1),
        last_activity_unix: connected_at_unix,
        ..t
    };
    insert_traffic(&mut session_traffic.traffic, key, t);
}

/// Each reason for a drop has a counter of its own name.
pub proof fn drops_are_counted_by_name(c: DropReasonCounters)
    ensures
        c.plus(DropReason::Auth) == (DropReasonCounters { auth: next(c.auth), ..c }),
        c.plus(DropReason::RateLimit) == (DropReasonCounters { rate_limit: next(c.rate_limit), ..c }),
        c.plus(DropReason::Capacity) == (DropReasonCounters { capacity: next(c.capacity), ..c }),
        c.plus(DropReason::TooSmall) == (DropReasonCounters { too_small: next(c.too_small), ..c }),
        c.plus(DropReason::Parse) == (DropReasonCounters { parse: next(c.parse), ..c }),
        c.plus(DropReason::Fragment) == (DropReasonCounters { fragment: next(c.fragment), ..c }),
        c.plus(DropReason::ForbiddenDst) == (DropReasonCounters {
            forbidden_dst: next(c.forbidden_dst),
            ..c
        }),
        c.plus(DropReason::TcpDisabled) == (DropReasonCounters { tcp_disabled: next(c.tcp_disabled), ..c }),
        c.plus(DropReason::Pool) == (DropReasonCounters { pool: next(c.pool), ..c }),
        c.plus(DropReason::StaleQueue) == (DropReasonCounters { stale_queue: next(c.stale_queue), ..c }),
        c.plus(DropReason::ShardQueue) == (DropReasonCounters { shard_queue: next(c.shard_queue), ..c }),
        c.plus(DropReason::TxQueue) == (DropReasonCounters { tx_queue: next(c.tx_queue), ..c }),
        c.plus(DropReason::TunQueue) == (DropReasonCounters { tun_queue: next(c.tun_queue), ..c }),
        c.plus(DropReason::FlowQueue) == (DropReasonCounters { flow_queue: next(c.flow_queue), ..c }),
        c.plus(DropReason::FlowCreate) == (DropReasonCounters { flow_create: next(c.flow_create), ..c }),
        c.plus(DropReason::FlowSend) == (DropReasonCounters { flow_send: next(c.flow_send), ..c }),
        c.plus(DropReason::SocketSend) == (DropReasonCounters { socket_send: next(c.socket_send), ..c }),
{
}

/// A drop counts once in its direction and once for its reason; a refusal by a rate limit
/// is such a drop of a client's packet, and counts as a refusal too.
pub proof fn drops_count_once(s: Stats, reason: DropReason)
    ensures
        s.with_drop_in(reason).dropped_in == next(s.dropped_in),
        s.with_drop_in(reason).dropped_out == s.dropped_out,
        s.with_drop_in(reason).drop_reasons == s.drop_reasons.plus(reason),
        s.with_drop_out(reason).dropped_out == next(s.dropped_out),
        s.with_drop_out(reason).dropped_in == s.dropped_in,
        s.with_drop_out(reason).drop_reasons == s.drop_reasons.plus(reason),
        s.throttled().throttled_users == next(s.throttled_users),
        s.throttled().dropped_in == next(s.dropped_in),
        s.throttled().drop_reasons.rate_limit == next(s.drop_reasons.rate_limit),
        s.with_drop_in(reason).packets_in == s.packets_in && s.with_drop_in(reason).bytes_in
            == s.bytes_in && s.with_drop_in(reason).active_sessions == s.active_sessions,
{
}

/// What is received and what is sent is counted as such, packet by packet and byte by
/// byte, around the end of the range.
pub proof fn traffic_counts_packets_and_bytes(s: Stats, len: int)
    requires
        0 <= len,
    ensures
        s.received(len).packets_in == next(s.packets_in),
        (s.received(len).bytes_in - s.bytes_in - len) % 0x1_0000_0000_0000_0000 == 0,
        s.received(len).packets_out == s.packets_out && s.received(len).bytes_out == s.bytes_out,
        s.sent(len).packets_out == next(s.packets_out),
        (s.sent(len).bytes_out - s.bytes_out - len) % 0x1_0000_0000_0000_0000 == 0,
        s.sent(len).packets_in == s.packets_in && s.sent(len).bytes_in == s.bytes_in,
{
    lemma_wrapped(s.bytes_in, len);
    lemma_wrapped(s.bytes_out, len);
}

proof fn lemma_wrapped(x: u64, n: int)
    requires
        0 <= n,
    ensures
        (wrapped(x, n) - x - n) % 0x1_0000_0000_0000_0000 == 0,
{
    let q = (x + n) / 0x1_0000_0000_0000_0000;
    assert(wrapped(x, n) - x - n == -q * 0x1_0000_0000_0000_0000);
    vstd::arithmetic::div_mod::lemma_mod_multiples_basic(-q, 0x1_0000_0000_0000_0000);
}

/// A client's packet counts for its session alone, which it opens the books of at its
/// first one, and is activity now.
pub proof fn ingress_counts_for_its_session(
    m: Map<u64, SessionTraffic>,
    key: u64,
    now_unix: u64,
    len: int,
    other: u64,
)
    requires
        0 <= len,
    ensures
        ({
            let after = ingress(m, key, now_unix, len);
            let known = m.contains_key(key);
            let packets = if known {
                m[key].packets_in
            } else {
                0
            };
            let bytes = if known {
                m[key].bytes_in
            } else {
                0
            };
            &&& after.contains_key(key)
            &&& after[key].packets_in == next(packets)
            &&& (after[key].bytes_in - bytes - len) % 0x1_0000_0000_0000_0000 == 0
            &&& after[key].last_activity_unix == now_unix
            &&& known ==> after[key].connected_at_unix == m[key].connected_at_unix
                && after[key].packets_out == m[key].packets_out && after[key].bytes_out
                == m[key].bytes_out && after[key].last_rtt_us == m[key].last_rtt_us
            &&& !known ==> after[key].connected_at_unix == now_unix && after[key].packets_out == 0
                && after[key].bytes_out == 0 && after[key].last_rtt_us == 0
            &&& other != key ==> (after.contains_key(other) <==> m.contains_key(other))
            &&& other != key && m.contains_key(other) ==> after[other] == m[other]
        }),
{
    lemma_wrapped(
        if m.contains_key(key) {
            m[key].bytes_in
        } else {
            0
        },
        len,
    );
}

/// A packet to a client counts for its session alone, if the session has traffic at all;
/// it is activity now, unless it is only an answer of the relay's own. A reported round
/// trip changes nothing but the round trip.
pub proof fn egress_counts_for_its_session(
    m: Map<u64, SessionTraffic>,
    key: u64,
    now_unix: u64,
    len: int,
    rtt_us: u64,
    other: u64,
)
    requires
        0 <= len,
    ensures
        !m.contains_key(key) ==> egress(m, key, now_unix, len) == m && idle_egress(m, key, len) == m
            && rtt_reported(m, key, rtt_us) == m,
        m.contains_key(key) ==> {
            let a = egress(m, key, now_unix, len);
            let b = idle_egress(m, key, len);
            let c = rtt_reported(m, key, rtt_us);
            &&& a.dom() == m.dom() && b.dom() == m.dom() && c.dom() == m.dom()
            &&& a[key].packets_out == next(m[key].packets_out) && b[key].packets_out == next(
                m[key].packets_out,
            )
            &&& (a[key].bytes_out - m[key].bytes_out - len) % 0x1_0000_0000_0000_0000 == 0
            &&& b[key].bytes_out == a[key].bytes_out
            &&& a[key].last_activity_unix == now_unix
            &&& b[key].last_activity_unix == m[key].last_activity_unix
            &&& a[key].packets_in == m[key].packets_in && a[key].bytes_in == m[key].bytes_in
            &&& b[key].packets_in == m[key].packets_in && b[key].bytes_in == m[key].bytes_in
            &&& a[key].connected_at_unix == m[key].connected_at_unix && a[key].last_rtt_us
                == m[key].last_rtt_us
            &&& c[key] == (SessionTraffic { last_rtt_us: rtt_us, ..m[key] })
            &&& other != key && m.contains_key(other) ==> a[other] == m[other] && b[other] == m[other]
                && c[other] == m[other]
        },
{
    if m.contains_key(key) {
        lemma_wrapped(m[key].bytes_out, len);
        assert(egress(m, key, now_unix, len).dom() =~= m.dom());
        assert(idle_egress(m, key, len).dom() =~= m.dom());
        assert(rtt_reported(m, key, rtt_us).dom() =~= m.dom());
    }
}

} // verus!
