use swifttunnel_relay::addr::{ip_table_key, IpAddr, Ipv4Addr, SocketAddr};
use swifttunnel_relay::auth::SessionAuthState;
use swifttunnel_relay::limits::{MAX_SESSIONS_PER_SRC_IP, SESSION_ID_LEN};
use swifttunnel_relay::session::{
    authenticated_session_source_allowed, derive_user_id, session_auth_is_current,
    v1_session_capacity_available, SessionEntry, SessionTable,
};
use swifttunnel_relay::source::{
    decrement_source_session_count, duration_millis_u64, increment_source_session_count,
    source_session_count, update_source_session_count_for_rebind, SourceLimitKind,
    SourceRateLimiter, SourceRateState, SourceSessionCounts, MAX_NEW_FLOWS_PER_SOURCE_WINDOW,
    MAX_NEW_SESSIONS_PER_SOURCE_WINDOW, MAX_PACKETS_PER_SOURCE_WINDOW, SOURCE_RATE_IDLE_TTL_NS,
    SOURCE_RATE_PRUNE_INTERVAL_MS, SOURCE_RATE_WINDOW_NS,
};
use swifttunnel_relay::stats::{allow_source_event, DropReason, Stats};

const MILLISECOND: u64 = 1_000_000;
const SECOND: u64 = 1_000_000_000;
const START: u64 = 1_000_000 * SECOND;

fn host(a: u8, b: u8, c: u8, d: u8) -> IpAddr {
    IpAddr::V4(Ipv4Addr::new(a, b, c, d))
}

fn endpoint(a: u8, b: u8, c: u8, d: u8, port: u16) -> SocketAddr {
    SocketAddr { ip: host(a, b, c, d), port }
}

#[test]
fn test_source_rate_state_resets_after_window() {
    let now = START;
    let mut state = SourceRateState::new(now);
    state.packets = MAX_PACKETS_PER_SOURCE_WINDOW;

    assert!(!state.allow(SourceLimitKind::Packet, now));
    assert!(state.allow(
        SourceLimitKind::Packet,
        now + SOURCE_RATE_WINDOW_NS + MILLISECOND
    ));
}

#[test]
fn test_source_rate_buckets_are_independent() {
    let now = START;
    let mut state = SourceRateState::new(now);
    state.new_sessions = MAX_NEW_SESSIONS_PER_SOURCE_WINDOW;

    assert!(!state.allow(SourceLimitKind::NewSession, now));
    assert!(state.allow(SourceLimitKind::NewFlow, now));
    assert!(state.allow(SourceLimitKind::Packet, now));
}

#[test]
fn test_allow_source_event_records_rate_limit_drop() {
    let mut limiter = SourceRateLimiter::new(START);
    let mut stats = Stats::new();
    let client_addr: SocketAddr = endpoint(203, 0, 113, 10, 40000);
    let now = START;
    let mut saturated = SourceRateState::new(now);
    saturated.new_flows = MAX_NEW_FLOWS_PER_SOURCE_WINDOW;
    limiter.sources.insert(ip_table_key(&client_addr.ip), saturated);

    assert!(!allow_source_event(
        &mut limiter,
        &mut stats,
        client_addr,
        SourceLimitKind::NewFlow,
        now
    ));
    assert_eq!(stats.dropped_in, 1);
    assert_eq!(stats.throttled_users, 1);
    assert_eq!(stats.drop_reasons.rate_limit, 1);
}

#[test]
fn test_source_rate_limiter_prunes_idle_sources() {
    let mut limiter = SourceRateLimiter::new(START);
    let now = limiter.created_at + SOURCE_RATE_PRUNE_INTERVAL_MS * MILLISECOND + MILLISECOND;
    let stale_ip = host(203, 0, 113, 10);
    let active_ip = host(203, 0, 113, 11);

    limiter.sources.insert(
        ip_table_key(&stale_ip),
        SourceRateState::new(now - SOURCE_RATE_IDLE_TTL_NS - SECOND),
    );
    limiter.sources.insert(ip_table_key(&active_ip), SourceRateState::new(now));

    assert!(limiter.allow(active_ip, SourceLimitKind::Packet, now));
    assert!(!limiter.sources.contains_key(&ip_table_key(&stale_ip)));
    assert!(limiter.sources.contains_key(&ip_table_key(&active_ip)));
}

#[test]
fn test_source_session_counts_track_rebind_and_removal() {
    let mut source_session_counts = SourceSessionCounts::new();
    let old_ip = host(198, 51, 100, 10);
    let new_ip = host(198, 51, 100, 11);

    increment_source_session_count(&mut source_session_counts, old_ip);
    assert_eq!(source_session_count(&source_session_counts, old_ip), 1);

    update_source_session_count_for_rebind(&mut source_session_counts, old_ip, new_ip);
    assert_eq!(source_session_count(&source_session_counts, old_ip), 0);
    assert_eq!(source_session_count(&source_session_counts, new_ip), 1);

    decrement_source_session_count(&mut source_session_counts, new_ip);
    assert_eq!(source_session_count(&source_session_counts, new_ip), 0);
}

#[test]
fn test_v1_session_capacity_uses_source_session_counter() {
    let sessions = SessionTable::new();
    let mut source_session_counts = SourceSessionCounts::new();
    let mut stats = Stats::new();
    let source_ip = host(198, 51, 100, 10);
    source_session_counts.counts.insert(ip_table_key(&source_ip), MAX_SESSIONS_PER_SRC_IP as u64);

    assert!(!v1_session_capacity_available(
        &sessions,
        &source_session_counts,
        &mut stats,
        source_ip
    ));
    assert_eq!(stats.dropped_in, 1);
    assert_eq!(stats.drop_reasons.capacity, 1);
}

#[test]
fn test_authenticated_session_without_lease_remains_current() {
    let session = SessionEntry {
        user_id: "legacy-client".to_string(),
        auth_state: SessionAuthState::Authenticated,
        lease_expires_at_unix: None,
        client_addr: endpoint(198, 51, 100, 10, 40000),
        created_at_unix: 1,
        last_activity: START,
        last_activity_unix: 1,
    };

    assert!(session_auth_is_current(&session, 10_000));
}

#[test]
fn test_authenticated_session_with_live_lease_is_current() {
    let session = SessionEntry {
        user_id: "lease-client".to_string(),
        auth_state: SessionAuthState::Authenticated,
        lease_expires_at_unix: Some(101),
        client_addr: endpoint(198, 51, 100, 10, 40000),
        created_at_unix: 1,
        last_activity: START,
        last_activity_unix: 1,
    };

    assert!(session_auth_is_current(&session, 100));
}

#[test]
fn test_authenticated_session_with_expired_lease_is_not_current() {
    let session = SessionEntry {
        user_id: "lease-client".to_string(),
        auth_state: SessionAuthState::Authenticated,
        lease_expires_at_unix: Some(100),
        client_addr: endpoint(198, 51, 100, 10, 40000),
        created_at_unix: 1,
        last_activity: START,
        last_activity_unix: 1,
    };

    assert!(!session_auth_is_current(&session, 100));
}

#[test]
fn test_authenticated_session_source_rejects_forged_address() {
    let session = SessionEntry {
        user_id: "user".to_string(),
        auth_state: SessionAuthState::Authenticated,
        lease_expires_at_unix: None,
        client_addr: endpoint(198, 51, 100, 10, 40000),
        created_at_unix: 1,
        last_activity: START,
        last_activity_unix: 1,
    };

    assert!(authenticated_session_source_allowed(
        &session,
        true,
        endpoint(198, 51, 100, 10, 40001),
        false
    ));
    assert!(!authenticated_session_source_allowed(
        &session,
        true,
        endpoint(203, 0, 113, 55, 40000),
        false
    ));
    assert!(authenticated_session_source_allowed(
        &session,
        true,
        endpoint(203, 0, 113, 55, 40000),
        true
    ));
}

#[test]
fn test_derive_user_id_known_input() {
    let session_id = [0, 0, 0, 0, 0, 0, 0, 1];
    assert_eq!(derive_user_id(session_id), "session-0000000000000001");
}

#[test]
fn test_derive_user_id_all_zeros() {
    let session_id = [0u8; SESSION_ID_LEN];
    assert_eq!(derive_user_id(session_id), "session-0000000000000000");
}

#[test]
fn source_limits_hold_in_every_window() {
    let ip = host(203, 0, 113, 10);
    let other = host(203, 0, 113, 11);
    let mut limiter = SourceRateLimiter::new(START);
    for _ in 0..MAX_NEW_SESSIONS_PER_SOURCE_WINDOW {
        assert!(limiter.allow(ip, SourceLimitKind::NewSession, START));
    }
    assert!(!limiter.allow(ip, SourceLimitKind::NewSession, START + SECOND - 1));
    // Another source has a window of its own.
    assert!(limiter.allow(other, SourceLimitKind::NewSession, START));
    assert!(limiter.allow(ip, SourceLimitKind::NewSession, START + SECOND));
    let state = *limiter.sources.get(&ip_table_key(&ip)).unwrap();
    assert_eq!(state.window_start, START + SECOND);
    assert_eq!(state.new_sessions, 1);
}

#[test]
fn sources_of_both_families_are_told_apart() {
    let mut limiter = SourceRateLimiter::new(START);
    let four = host(1, 2, 3, 4);
    let six = IpAddr::V6(0x0102_0304);
    for _ in 0..MAX_NEW_SESSIONS_PER_SOURCE_WINDOW {
        limiter.allow(four, SourceLimitKind::NewSession, START);
    }
    assert!(!limiter.allow(four, SourceLimitKind::NewSession, START));
    assert!(limiter.allow(six, SourceLimitKind::NewSession, START));
}

#[test]
fn closing_a_session_undoes_opening_it() {
    let ip = host(1, 2, 3, 4);
    let mut counts = SourceSessionCounts::new();
    increment_source_session_count(&mut counts, ip);
    increment_source_session_count(&mut counts, ip);
    decrement_source_session_count(&mut counts, ip);
    assert_eq!(source_session_count(&counts, ip), 1);
    decrement_source_session_count(&mut counts, ip);
    assert_eq!(source_session_count(&counts, ip), 0);
    assert!(counts.counts.is_empty());
    decrement_source_session_count(&mut counts, ip);
    assert_eq!(source_session_count(&counts, ip), 0);
    increment_source_session_count(&mut counts, ip);
    update_source_session_count_for_rebind(&mut counts, ip, ip);
    assert_eq!(source_session_count(&counts, ip), 1);
}

#[test]
fn durations_are_whole_milliseconds() {
    assert_eq!(duration_millis_u64(0), 0);
    assert_eq!(duration_millis_u64(1_999_999), 1);
    assert_eq!(duration_millis_u64(u128::MAX), u64::MAX);
}

#[test]
fn session_capacity_is_granted_below_the_limits() {
    let mut counts = SourceSessionCounts::new();
    let ip = host(198, 51, 100, 10);
    counts.counts.insert(ip_table_key(&ip), MAX_SESSIONS_PER_SRC_IP as u64 - 1);
    let mut stats = Stats::new();
    assert!(v1_session_capacity_available(&SessionTable::new(), &counts, &mut stats, ip));
    assert_eq!(stats, Stats::new());
}

#[test]
fn drops_are_counted_under_one_reason() {
    let reasons = [
        DropReason::Auth,
        DropReason::RateLimit,
        DropReason::Capacity,
        DropReason::TooSmall,
        DropReason::Parse,
        DropReason::Fragment,
        DropReason::ForbiddenDst,
        DropReason::TcpDisabled,
        DropReason::Pool,
        DropReason::StaleQueue,
        DropReason::ShardQueue,
        DropReason::TxQueue,
        DropReason::TunQueue,
        DropReason::FlowQueue,
        DropReason::FlowCreate,
        DropReason::FlowSend,
        DropReason::SocketSend,
    ];
    let mut stats = Stats::new();
    for (times, reason) in reasons.iter().enumerate() {
        for _ in 0..=times {
            stats.drop_in(*reason);
        }
    }
    let d = stats.drop_reasons;
    let counted = [
        d.auth,
        d.rate_limit,
        d.capacity,
        d.too_small,
        d.parse,
        d.fragment,
        d.forbidden_dst,
        d.tcp_disabled,
        d.pool,
        d.stale_queue,
        d.shard_queue,
        d.tx_queue,
        d.tun_queue,
        d.flow_queue,
        d.flow_create,
        d.flow_send,
        d.socket_send,
    ];
    let expected: Vec<u64> = (1..=17).collect();
    assert_eq!(counted.to_vec(), expected);
    assert_eq!(stats.dropped_in, 153);
    assert_eq!(stats.dropped_out, 0);
    stats.drop_out(DropReason::TxQueue);
    assert_eq!(stats.dropped_in, 153);
    assert_eq!(stats.dropped_out, 1);
    assert_eq!(stats.drop_reasons.tx_queue, 13);
}

#[test]
fn session_tables_keep_what_is_put_in() {
    let mut table = SessionTable::new();
    assert!(table.get(1).is_none());
    for (key, name) in [(1u64, "one"), (2, "two")] {
        table.put(
            key,
            SessionEntry {
                user_id: name.to_string(),
                auth_state: SessionAuthState::Legacy,
                lease_expires_at_unix: None,
                client_addr: endpoint(1, 2, 3, 4, 5),
                created_at_unix: 1,
                last_activity: START,
                last_activity_unix: 1,
            },
        );
    }
    assert_eq!(table.len(), 2);
    assert!(table.contains(1));
    assert!(!table.contains(3));
    assert_eq!(table.get(2).unwrap().user_id, "two");
    let mut keys = table.keys();
    keys.sort();
    assert_eq!(keys, vec![1, 2]);
    assert_eq!(table.take(1).unwrap().user_id, "one");
    assert!(table.take(1).is_none());
    assert_eq!(table.len(), 1);
}

#[test]
fn sessions_without_tickets_are_judged_by_mode_alone() {
    let session = SessionEntry {
        user_id: "user".to_string(),
        auth_state: SessionAuthState::Legacy,
        lease_expires_at_unix: None,
        client_addr: endpoint(198, 51, 100, 10, 40000),
        created_at_unix: 1,
        last_activity: START,
        last_activity_unix: 1,
    };
    assert!(!session_auth_is_current(&session, 10));
    assert!(authenticated_session_source_allowed(
        &session,
        false,
        endpoint(203, 0, 113, 55, 1),
        false
    ));
}
