//! Limits on what one source address may do.

use crate::addr::{ip_key, ip_table_key, lemma_ip_key_injective, IpAddr};
use crate::num::{beyond, next};
use dashmap::DashMap;
use vstd::prelude::*;

verus! {

/// The length of a rate window, in nanoseconds.
pub const SOURCE_RATE_WINDOW_NS: u64 = 1_000_000_000;

/// How often idle sources are looked for, in milliseconds.
pub const SOURCE_RATE_PRUNE_INTERVAL_MS: u64 = 30_000;

/// How old the window of an idle source is, in nanoseconds.
pub const SOURCE_RATE_IDLE_TTL_NS: u64 = 120_000_000_000;

pub const MAX_PACKETS_PER_SOURCE_WINDOW: u32 = 50_000;

pub const MAX_NEW_SESSIONS_PER_SOURCE_WINDOW: u32 = 256;

pub const MAX_NEW_FLOWS_PER_SOURCE_WINDOW: u32 = 4096;

/// What a source does.
#[derive(Clone, Copy, PartialEq, Eq, Structural, Debug)]
pub enum SourceLimitKind {
    Packet,
    NewSession,
    NewFlow,
}

/// What a source did in its current window. Times are nanoseconds of a monotonic
/// clock.
#[derive(Clone, Copy, PartialEq, Eq, Structural, Debug)]
pub struct SourceRateState {
    pub window_start: u64,
    pub packets: u32,
    pub new_sessions: u32,
    pub new_flows: u32,
}

impl SourceRateState {
    /// A window that starts at `now`.
    pub open spec fn fresh(now: u64) -> SourceRateState {
        SourceRateState { window_start: now, packets: 0, new_sessions: 0, new_flows: 0 }
    }

    /// The window at `now`: this one, or a new one if this one is over.
    pub open spec fn at(self, now: u64) -> SourceRateState {
        if beyond(now, self.window_start) >= SOURCE_RATE_WINDOW_NS {
            SourceRateState::fresh(now)
        } else {
            self
        }
    }

    /// How often the source did this in the window.
    pub open spec fn count(self, kind: SourceLimitKind) -> u32 {
        match kind {
            SourceLimitKind::Packet => self.packets,
            SourceLimitKind::NewSession => self.new_sessions,
            SourceLimitKind::NewFlow => self.new_flows,
        }
    }

    /// The window with one more of the kind.
    pub open spec fn with(self, kind: SourceLimitKind) -> SourceRateState {
        match kind {
            SourceLimitKind::Packet => SourceRateState { packets: (self.packets + 1) as u32, ..self },
            SourceLimitKind::NewSession => SourceRateState {
                new_sessions: (self.new_sessions + 1) as u32,
                ..self
            },
            SourceLimitKind::NewFlow => SourceRateState { new_flows: (self.new_flows + 1) as u32, ..self },
        }
    }

    pub fn new(now: u64) -> (r: SourceRateState)
        ensures
            r == SourceRateState::fresh(now),
    {
        SourceRateState { window_start: now, packets: 0, new_sessions: 0, new_flows: 0 }
    }

    /// Counts one event, if the window has room for it.
    pub fn allow(&mut self, kind: SourceLimitKind, now: u64) -> (r: bool)
        ensures
            r == (old(self).at(now).count(kind) < source_limit(kind)),
            *final(self) == if r {
                old(self).at(now).with(kind)
            } else {
                old(self).at(now)
            },
    {
        if now >= self.window_start && now - self.window_start >= SOURCE_RATE_WINDOW_NS {
            *self = SourceRateState::new(now);
        }
        match kind {
            SourceLimitKind::Packet => {
                if self.packets >= MAX_PACKETS_PER_SOURCE_WINDOW {
                    return false;
                }
                self.packets = self.packets + 1;
            },
            SourceLimitKind::NewSession => {
                if self.new_sessions >= MAX_NEW_SESSIONS_PER_SOURCE_WINDOW {
                    return false;
                }
                self.new_sessions = self.new_sessions + 1;
            },
            SourceLimitKind::NewFlow => {
                if self.new_flows >= MAX_NEW_FLOWS_PER_SOURCE_WINDOW {
                    return false;
                }
                self.new_flows = self.new_flows + 1;
            },
        }
        true
    }
}

/// How often a source may do this in one window.
pub open spec fn source_limit(kind: SourceLimitKind) -> u32 {
    match kind {
        SourceLimitKind::Packet => MAX_PACKETS_PER_SOURCE_WINDOW,
        SourceLimitKind::NewSession => MAX_NEW_SESSIONS_PER_SOURCE_WINDOW,
        SourceLimitKind::NewFlow => MAX_NEW_FLOWS_PER_SOURCE_WINDOW,
    }
}

/// A duration of `nanos` nanoseconds in whole milliseconds, as far as they fit.
pub fn duration_millis_u64(nanos: u128) -> (r: u64)
    ensures
        r == if nanos / 1_000_000 > u64::MAX {
            u64::MAX as int
        } else {
            nanos as int / 1_000_000
        },
{
    let millis: u128 = nanos / 1_000_000;
    if millis > u64::MAX as u128 {
        u64::MAX
    } else {
        millis as u64
    }
}

/// What a map from source keys to windows holds.
pub uninterp spec fn sources_of(m: DashMap<(u8, u128), SourceRateState>) -> Map<(u8, u128), SourceRateState>;

/// `DashMap::new`: the map is empty.
#[verifier::external_body]
fn new_sources() -> (r: DashMap<(u8, u128), SourceRateState>)
    ensures
        sources_of(r) == (Map::<(u8, u128), SourceRateState>::empty()),
{
    DashMap::new()
}

/// `DashMap::get`, copied out: the window under `key`, if there is one.
#[verifier::external_body]
fn get_source(m: &DashMap<(u8, u128), SourceRateState>, key: (u8, u128)) -> (r: Option<SourceRateState>)
    ensures
        r == if sources_of(*m).contains_key(key) {
            Some(sources_of(*m)[key])
        } else {
            None
        },
{
    m.get(&key).map(|e| *e)
}

/// `DashMap::insert`: the window under `key` becomes `v`.
#[verifier::external_body]
fn insert_source(m: &mut DashMap<(u8, u128), SourceRateState>, key: (u8, u128), v: SourceRateState)
    ensures
        sources_of(*final(m)) == sources_of(*old(m)).insert(key, v),
{
    m.insert(key, v);
}

/// `DashMap::retain`, with [`source_is_live`]: the entries that it keeps are left.
#[verifier::external_body]
fn retain_live_sources(m: &mut DashMap<(u8, u128), SourceRateState>, now: u64)
    ensures
        sources_of(*final(m)) == live_sources(sources_of(*old(m)), now),
{
    m.retain(|_, state| source_is_live(state, now))
}

/// Whether a source's window is young enough to be kept.
pub open spec fn live(state: SourceRateState, now: u64) -> bool {
    beyond(now, state.window_start) < SOURCE_RATE_IDLE_TTL_NS
}

fn source_is_live(state: &SourceRateState, now: u64) -> (r: bool)
    ensures
        r == live(*state, now),
{
    now < state.window_start || now - state.window_start < SOURCE_RATE_IDLE_TTL_NS
}

/// The sources that are not idle at `now`.
pub open spec fn live_sources(m: Map<(u8, u128), SourceRateState>, now: u64) -> Map<
    (u8, u128),
    SourceRateState,
> {
    m.restrict(Set::new(|key: (u8, u128)| m.contains_key(key) && live(m[key], now)))
}

/// The windows of all sources.
pub struct SourceRateLimiter {
    pub sources: DashMap<(u8, u128), SourceRateState>,
    pub created_at: u64,
    pub last_prune_ms: u64,
}

/// The content of a [`SourceRateLimiter`].
pub ghost struct LimiterView {
    pub sources: Map<(u8, u128), SourceRateState>,
    pub created_at: u64,
    pub last_prune_ms: u64,
}

impl LimiterView {
    /// The limiter's age in milliseconds.
    pub open spec fn age_ms(self, now: u64) -> u64 {
        beyond(now, self.created_at) / 1_000_000
    }

    /// Whether idle sources are looked for at `now`.
    pub open spec fn prune_due(self, now: u64) -> bool {
        beyond(self.age_ms(now), self.last_prune_ms) >= SOURCE_RATE_PRUNE_INTERVAL_MS
    }

    /// The limiter at `now`, after idle sources are dropped if that is due.
    pub open spec fn pruned(self, now: u64) -> LimiterView {
        if self.prune_due(now) {
            LimiterView {
                sources: live_sources(self.sources, now),
                last_prune_ms: self.age_ms(now),
                ..self
            }
        } else {
            self
        }
    }

    /// The window of a source at `now`, before what it does is counted.
    pub open spec fn window(self, ip: IpAddr, now: u64) -> SourceRateState {
        let m = self.pruned(now).sources;
        if m.contains_key(ip_key(ip)) {
            m[ip_key(ip)].at(now)
        } else {
            SourceRateState::fresh(now)
        }
    }

    /// Whether the source has room for one more of the kind in its window.
    pub open spec fn has_room(self, ip: IpAddr, kind: SourceLimitKind, now: u64) -> bool {
        self.window(ip, now).count(kind) < source_limit(kind)
    }

    /// The limiter after an event of the source, which counts if there is room for it.
    pub open spec fn after(self, ip: IpAddr, kind: SourceLimitKind, now: u64) -> LimiterView {
        let window = self.window(ip, now);
        let pruned = self.pruned(now);
        LimiterView {
            sources: pruned.sources.insert(
                ip_key(ip),
                if self.has_room(ip, kind, now) {
                    window.with(kind)
                } else {
                    window
                },
            ),
            ..pruned
        }
    }
}

impl SourceRateLimiter {
    pub open spec fn view(self) -> LimiterView {
        LimiterView {
            sources: sources_of(self.sources),
            created_at: self.created_at,
            last_prune_ms: self.last_prune_ms,
        }
    }

    pub fn new(now: u64) -> (r: SourceRateLimiter)
        ensures
            r@ == (LimiterView { sources: Map::empty(), created_at: now, last_prune_ms: 0 }),
    {
        SourceRateLimiter { sources: new_sources(), created_at: now, last_prune_ms: 0 }
    }

    /// Whether the source may do this now; if so, it is counted.
    pub fn allow(&mut self, ip: IpAddr, kind: SourceLimitKind, now: u64) -> (r: bool)
        ensures
            r == old(self)@.has_room(ip, kind, now),
            final(self)@ == old(self)@.after(ip, kind, now),
    {
        self.prune_idle(now);
        let key: (u8, u128) = ip_table_key(&ip);
        let mut state: SourceRateState = match get_source(&self.sources, key) {
            Some(state) => state,
            None => SourceRateState::new(now),
        };
        let r: bool = state.allow(kind, now);
        insert_source(&mut self.sources, key, state);
        r
    }

    /// Drops idle sources, if that is due.
    pub fn prune_idle(&mut self, now: u64)
        ensures
            final(self)@ == old(self)@.pruned(now),
    {
        let age: u64 = if now >= self.created_at {
            now - self.created_at
        } else {
            0
        };
        let now_ms: u64 = duration_millis_u64(age as u128);
        if now_ms < self.last_prune_ms || now_ms - self.last_prune_ms < SOURCE_RATE_PRUNE_INTERVAL_MS {
            return;
        }
        self.last_prune_ms = now_ms;
        retain_live_sources(&mut self.sources, now);
    }
}

/// What one source does leaves the windows of all other sources alone.
pub proof fn sources_are_independent(
    limiter: LimiterView,
    ip: IpAddr,
    kind: SourceLimitKind,
    other: IpAddr,
    other_kind: SourceLimitKind,
    now: u64,
)
    requires
        other != ip,
    ensures
        limiter.after(ip, kind, now).has_room(other, other_kind, now) == limiter.has_room(
            other,
            other_kind,
            now,
        ),
{
    if ip_key(ip) == ip_key(other) {
        lemma_ip_key_injective(ip, other);
    }
}

/// In the window that is current at `now`, a source has never done more than its
/// limit, if that held before.
pub proof fn source_limits_hold(state: SourceRateState, kind: SourceLimitKind, other: SourceLimitKind, now: u64)
    requires
        state.count(other) <= source_limit(other),
    ensures
        state.at(now).count(other) <= source_limit(other),
        state.at(now).count(kind) < source_limit(kind) ==> state.at(now).with(kind).count(other)
            <= source_limit(other),
{
}

/// What a map from source keys to session counts holds.
pub uninterp spec fn counts_of(m: DashMap<(u8, u128), u64>) -> Map<(u8, u128), u64>;

/// `DashMap::new`: the map is empty.
#[verifier::external_body]
fn new_counts() -> (r: DashMap<(u8, u128), u64>)
    ensures
        counts_of(r) == (Map::<(u8, u128), u64>::empty()),
{
    DashMap::new()
}

/// `DashMap::get`, copied out: the count under `key`, if there is one.
#[verifier::external_body]
fn get_count(m: &DashMap<(u8, u128), u64>, key: (u8, u128)) -> (r: Option<u64>)
    ensures
        r == if counts_of(*m).contains_key(key) {
            Some(counts_of(*m)[key])
        } else {
            None
        },
{
    m.get(&key).map(|e| *e)
}

/// `DashMap::insert`: the count under `key` becomes `v`.
#[verifier::external_body]
fn insert_count(m: &mut DashMap<(u8, u128), u64>, key: (u8, u128), v: u64)
    ensures
        counts_of(*final(m)) == counts_of(*old(m)).insert(key, v),
{
    m.insert(key, v);
}

/// `DashMap::remove`: nothing is left under `key`.
#[verifier::external_body]
fn remove_count(m: &mut DashMap<(u8, u128), u64>, key: (u8, u128))
    ensures
        counts_of(*final(m)) == counts_of(*old(m)).remove(key),
{
    m.remove(&key);
}

/// How many sessions each source has; a source without any is not in it.
pub struct SourceSessionCounts {
    pub counts: DashMap<(u8, u128), u64>,
}

/// The count of a source in `m`.
pub open spec fn count_in(m: Map<(u8, u128), u64>, ip: IpAddr) -> u64 {
    if m.contains_key(ip_key(ip)) {
        m[ip_key(ip)]
    } else {
        0
    }
}

/// With one more session of the source.
pub open spec fn incremented(m: Map<(u8, u128), u64>, ip: IpAddr) -> Map<(u8, u128), u64> {
    m.insert(ip_key(ip), next(count_in(m, ip)))
}

/// With one session of the source less; the last one takes the source out.
pub open spec fn decremented(m: Map<(u8, u128), u64>, ip: IpAddr) -> Map<(u8, u128), u64> {
    if count_in(m, ip) > 1 {
        m.insert(ip_key(ip), (count_in(m, ip) - 1) as u64)
    } else {
        m.remove(ip_key(ip))
    }
}

/// With one session moved from a source to another.
pub open spec fn rebound(m: Map<(u8, u128), u64>, old_ip: IpAddr, new_ip: IpAddr) -> Map<(u8, u128), u64> {
    if old_ip == new_ip {
        m
    } else {
        incremented(decremented(m, old_ip), new_ip)
    }
}

impl SourceSessionCounts {
    pub open spec fn view(self) -> Map<(u8, u128), u64> {
        counts_of(self.counts)
    }

    pub fn new() -> (r: SourceSessionCounts)
        ensures
            r@ == (Map::<(u8, u128), u64>::empty()),
    {
        SourceSessionCounts { counts: new_counts() }
    }
}

/// How many sessions the source has.
pub fn source_session_count(counts: &SourceSessionCounts, source_ip: IpAddr) -> (r: u64)
    ensures
        r == count_in(counts@, source_ip),
{
    match get_count(&counts.counts, ip_table_key(&source_ip)) {
        Some(count) => count,
        None => 0,
    }
}

/// One more session of the source.
pub fn increment_source_session_count(counts: &mut SourceSessionCounts, source_ip: IpAddr)
    ensures
        final(counts)@ == incremented(old(counts)@, source_ip),
{
    let count: u64 = source_session_count(counts, source_ip);
    insert_count(&mut counts.counts, ip_table_key(&source_ip), count.wrapping_add(1));
}

/// One session of the source less.
pub fn decrement_source_session_count(counts: &mut SourceSessionCounts, source_ip: IpAddr)
    ensures
        final(counts)@ == decremented(old(counts)@, source_ip),
{
    let count: u64 = source_session_count(counts, source_ip);
    if count > 1 {
        insert_count(&mut counts.counts, ip_table_key(&source_ip), count - 1);
    } else {
        remove_count(&mut counts.counts, ip_table_key(&source_ip));
    }
}

/// A session's source has changed.
pub fn update_source_session_count_for_rebind(
    counts: &mut SourceSessionCounts,
    old_ip: IpAddr,
    new_ip: IpAddr,
)
    ensures
        final(counts)@ == rebound(old(counts)@, old_ip, new_ip),
{
    if old_ip == new_ip {
        return;
    }
    decrement_source_session_count(counts, old_ip);
    increment_source_session_count(counts, new_ip);
}

/// Opening a session and closing it again leaves every source's count as it was.
pub proof fn closing_undoes_opening(m: Map<(u8, u128), u64>, ip: IpAddr, other: IpAddr)
    requires
        count_in(m, ip) < u64::MAX,
    ensures
        count_in(decremented(incremented(m, ip), ip), other) == count_in(m, other),
{
    if other != ip && ip_key(ip) == ip_key(other) {
        lemma_ip_key_injective(ip, other);
    }
}

/// A session that moves from a source to another takes its count with it, and no
/// other source's count changes.
pub proof fn rebinding_moves_one_count(
    m: Map<(u8, u128), u64>,
    old_ip: IpAddr,
    new_ip: IpAddr,
    other: IpAddr,
)
    requires
        old_ip != new_ip,
        count_in(m, old_ip) > 0,
        count_in(m, new_ip) < u64::MAX,
    ensures
        count_in(rebound(m, old_ip, new_ip), old_ip) == count_in(m, old_ip) - 1,
        count_in(rebound(m, old_ip, new_ip), new_ip) == count_in(m, new_ip) + 1,
        other != old_ip && other != new_ip ==> count_in(rebound(m, old_ip, new_ip), other) == count_in(
            m,
            other,
        ),
{
    if ip_key(old_ip) == ip_key(new_ip) {
        lemma_ip_key_injective(old_ip, new_ip);
    }
    if ip_key(old_ip) == ip_key(other) {
        lemma_ip_key_injective(old_ip, other);
    }
    if ip_key(other) == ip_key(new_ip) {
        lemma_ip_key_injective(other, new_ip);
    }
}

/// The limiter after `n` events of a source at one time.
pub open spec fn after_events(l: LimiterView, ip: IpAddr, kind: SourceLimitKind, now: u64, n: nat) -> LimiterView
    decreases n,
{
    if n == 0 {
        l
    } else {
        after_events(l, ip, kind, now, (n - 1) as nat).after(ip, kind, now)
    }
}

/// In one second a source that was not there before may send 50000 packets, open 256
/// sessions and open 4096 flows, and not one more; what it does of one kind takes nothing
/// from the others.
pub proof fn a_second_has_room_for_so_many(
    l: LimiterView,
    ip: IpAddr,
    kind: SourceLimitKind,
    other: SourceLimitKind,
    now: u64,
    n: nat,
)
    requires
        !l.sources.contains_key(ip_key(ip)),
        other != kind,
    ensures
        ({
            let limit = match kind {
                SourceLimitKind::Packet => 50_000nat,
                SourceLimitKind::NewSession => 256,
                SourceLimitKind::NewFlow => 4096,
            };
            &&& after_events(l, ip, kind, now, n).has_room(ip, kind, now) <==> n < limit
            &&& after_events(l, ip, kind, now, n).has_room(ip, other, now)
        }),
{
    lemma_after_events(l, ip, kind, now, n);
}

/// The window of a source after `n` events.
proof fn lemma_after_events(l: LimiterView, ip: IpAddr, kind: SourceLimitKind, now: u64, n: nat)
    requires
        !l.sources.contains_key(ip_key(ip)),
    ensures
        ({
            let w = after_events(l, ip, kind, now, n).window(ip, now);
            &&& w.window_start == now
            &&& w.count(kind) == if n < source_limit(kind) {
                n
            } else {
                source_limit(kind) as nat
            }
            &&& forall|k: SourceLimitKind| k != kind ==> #[trigger] w.count(k) == 0
        }),
    decreases n,
{
    if n > 0 {
        lemma_after_events(l, ip, kind, now, (n - 1) as nat);
        let before = after_events(l, ip, kind, now, (n - 1) as nat);
        let after = before.after(ip, kind, now);
        let w = before.window(ip, now);
        let stored = if before.has_room(ip, kind, now) {
            w.with(kind)
        } else {
            w
        };
        assert(after.sources[ip_key(ip)] == stored);
        assert(stored.window_start == now);
        assert(live(stored, now));
        assert(after.pruned(now).sources.contains_key(ip_key(ip)));
        assert(after.pruned(now).sources[ip_key(ip)] == stored);
        assert(after.window(ip, now) == stored);
        assert forall|k: SourceLimitKind| k != kind implies #[trigger] stored.count(k) == 0 by {
            assert(w.count(k) == 0);
        }
        assert(after_events(l, ip, kind, now, n) == after);
    } else {
        let w = l.window(ip, now);
        assert(!l.pruned(now).sources.contains_key(ip_key(ip)));
        assert(w == SourceRateState::fresh(now));
        assert forall|k: SourceLimitKind| k != kind implies #[trigger] w.count(k) == 0 by {}
    }
}

/// A second after its latest event at the latest, a source has all its room again.
pub proof fn a_second_later_there_is_room(
    l: LimiterView,
    ip: IpAddr,
    kind: SourceLimitKind,
    now: u64,
    other: SourceLimitKind,
    later: u64,
)
    requires
        later >= now + 1_000_000_000,
        l.sources.contains_key(ip_key(ip)) ==> l.sources[ip_key(ip)].window_start <= now,
    ensures
        l.after(ip, kind, now).has_room(ip, other, later),
        l.after(ip, kind, now).window(ip, later).window_start == later,
{
}

/// Within a second of its start a window goes on, with what was counted in it.
pub proof fn a_window_lasts_a_second(s: SourceRateState, now: u64)
    ensures
        now < s.window_start + 1_000_000_000 ==> s.at(now) == s,
        now >= s.window_start + 1_000_000_000 ==> s.at(now).packets == 0 && s.at(now).new_sessions == 0
            && s.at(now).new_flows == 0 && s.at(now).window_start == now,
{
}

/// Forgetting idle sources changes nobody's room: it happens every half minute, and a
/// source is idle when its window began two minutes ago.
pub proof fn pruning_takes_no_room(l: LimiterView, ip: IpAddr, kind: SourceLimitKind, now: u64)
    ensures
        ({
            let known = l.sources.contains_key(ip_key(ip));
            let w = if known {
                l.sources[ip_key(ip)].at(now)
            } else {
                SourceRateState { window_start: now, packets: 0, new_sessions: 0, new_flows: 0 }
            };
            &&& l.window(ip, now) == w
            &&& now < l.created_at + 30_000_000_000 ==> l.pruned(now).sources == l.sources
                || l.last_prune_ms > 0 && l.pruned(now).sources == l.sources
        }),
        l.sources.contains_key(ip_key(ip)) && now < l.sources[ip_key(ip)].window_start
            + 120_000_000_000 ==> l.pruned(now).sources.contains_key(ip_key(ip)),
{
}

/// A source's count of sessions, in numbers.
pub proof fn counts_go_up_and_down_by_one(m: Map<(u8, u128), u64>, ip: IpAddr, other: IpAddr)
    ensures
        count_in(m, ip) < u64::MAX ==> count_in(incremented(m, ip), ip) == count_in(m, ip) + 1,
        count_in(m, ip) > 0 ==> count_in(decremented(m, ip), ip) == count_in(m, ip) - 1,
        count_in(m, ip) == 0 ==> count_in(decremented(m, ip), ip) == 0,
        other != ip ==> count_in(incremented(m, ip), other) == count_in(m, other) && count_in(
            decremented(m, ip),
            other,
        ) == count_in(m, other),
        count_in(m, ip) <= 1 ==> !decremented(m, ip).contains_key(ip_key(ip)),
{
    if other != ip && ip_key(ip) == ip_key(other) {
        lemma_ip_key_injective(ip, other);
    }
}

} // verus!
