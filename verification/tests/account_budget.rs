use swifttunnel_relay::account_budget::{p95, Budgets, Counts, Flow, Policy};
use swifttunnel_relay::addr::{IpAddr, Ipv4Addr, SocketAddr};
use swifttunnel_relay::auth::SessionAuthState;
use swifttunnel_relay::session::{SessionEntry, SessionTable};

fn flow(sid: u64) -> Flow {
    Flow {
        sid,
        proto: 17,
        src: Ipv4Addr::new(127, 0, 0, 1),
        dst: Ipv4Addr::new(1, 1, 1, 1),
        sport: 100,
        dport: 200,
    }
}

#[test]
fn sessions_and_directions_share_packet_and_byte_limits() {
    let mut budget = Budgets::new(Policy {
        enforce: true,
        packets: 2,
        bytes: 100,
        new_flows: 0,
    });
    assert!(budget.event("one", false, 40, Some(flow(1)), 1));
    assert!(budget.event("one", true, 40, None, 1));
    assert!(!budget.event("one", false, 1, Some(flow(2)), 1));
    assert!(budget.event("other", false, 40, Some(flow(2)), 1));
    assert!(!budget.event("one", false, 101, None, 2));
    assert!(budget.event("one", false, 40, None, 3));
}

#[test]
fn flow_churn_is_account_wide_and_observe_never_enforces_configured_limits() {
    let mut budget = Budgets::new(Policy {
        enforce: true,
        new_flows: 1,
        ..Policy::default()
    });
    assert!(budget.event("one", false, 40, Some(flow(1)), 1));
    assert!(!budget.event("one", false, 40, Some(flow(2)), 1));
    assert!(budget.event("one", false, 40, Some(flow(2)), 61));
    let mut observe = Budgets::new(Policy {
        packets: 1,
        bytes: 1,
        new_flows: 1,
        ..Policy::default()
    });
    for sid in 1..10 {
        assert!(observe.event("one", false, 100, Some(flow(sid)), 1));
    }
    assert_eq!(observe.snapshot(1).accounts[0].budget_breaches, 9);
    assert_eq!(observe.snapshot(1).accounts[0].dropped_packets, 0);
}

#[test]
fn stale_flows_release_the_shared_tracking_capacity() {
    let mut budget = Budgets::new(Policy::default());
    budget.event("one", false, 40, Some(flow(1)), 1);
    assert_eq!(budget.slots, 1);
    budget.event("one", false, 40, Some(flow(2)), 122);
    budget.maintain(122);
    assert_eq!(budget.slots, 1);
}

#[test]
fn delayed_threads_cannot_reopen_an_old_window() {
    let mut budget = Budgets::new(Policy {
        enforce: true,
        packets: 1,
        ..Policy::default()
    });
    assert!(budget.event("one", false, 1, None, 61));
    assert!(!budget.event("one", false, 1, None, 60));
    assert!(!budget.event("one", false, 1, None, 61));
}

#[test]
fn capacity_preserves_tracked_accounts_and_recovers_after_idle() {
    for enforce in [false, true] {
        let mut budget = Budgets::new(Policy {
            enforce,
            ..Policy::default()
        });
        budget.account_limit = 1;
        budget.flow_limit = 1;
        assert!(budget.event("one", false, 40, Some(flow(1)), 1));
        assert_eq!(budget.event("two", false, 40, None, 1), !enforce);
        assert_eq!(budget.event("one", false, 40, Some(flow(2)), 1), !enforce);
        assert!(budget.event("one", false, 40, Some(flow(1)), 1));
        assert_eq!(budget.accounts.len(), 1);
        assert_eq!(budget.slots, 1);
        budget.maintain(602);
        assert_eq!(budget.slots, 0);
        assert!(budget.event("two", false, 40, Some(flow(2)), 602));
    }
}

#[test]
fn concurrent_accounts_cannot_exceed_capacity() {
    let mut budget = Budgets::new(Policy::default());
    budget.account_limit = 2;
    for i in 0..16 {
        budget.event(&i.to_string(), false, 1, None, 1);
    }
    assert_eq!(budget.accounts.len(), 2);
    assert_eq!(budget.capacity_packets, 14);
    assert_eq!(budget.capacity_drops, 0);
}

#[test]
fn refused_packets_are_counted_too() {
    let mut budget = Budgets::new(Policy {
        enforce: true,
        packets: 1,
        ..Policy::default()
    });
    assert!(budget.event("one", false, 10, None, 5));
    assert!(!budget.event("one", true, 20, None, 5));
    let row = &budget.snapshot(5).accounts[0];
    assert_eq!(row.account, "one");
    assert_eq!(
        row.totals,
        Counts { packets_in: 1, bytes_in: 10, packets_out: 1, bytes_out: 20 }
    );
    assert_eq!(row.peak_per_second, row.totals);
    assert_eq!(row.budget_breaches, 1);
    assert_eq!(row.dropped_packets, 1);
}

#[test]
fn snapshots_report_percentiles_and_recent_flows() {
    let mut budget = Budgets::new(Policy::default());
    for second in 0..100 {
        for _ in 0..=second % 20 {
            budget.event("one", false, 3, None, 1000 + second);
        }
    }
    budget.event("one", false, 3, Some(flow(7)), 1100);
    let snapshot = budget.snapshot(1100);
    assert_eq!(snapshot.mode, "observe");
    let row = &snapshot.accounts[0];
    // Sixty past seconds, three of each count from one to twenty, and the current one.
    assert_eq!(row.p95_recent_active_seconds.packets_in, 19);
    assert_eq!(row.p95_recent_active_seconds.bytes_in, 57);
    assert_eq!(row.flows_seen_within_120s, 1);
    assert_eq!(row.new_flows_this_minute, 1);
    assert_eq!(budget.snapshot(1219).accounts[0].flows_seen_within_120s, 1);
    assert_eq!(budget.snapshot(1220).accounts[0].flows_seen_within_120s, 0);
    assert_eq!(budget.snapshot(1220).accounts[0].new_flows_this_minute, 0);
    assert_eq!(row.peak_tracked_flows, 1);
}

#[test]
fn percentiles_are_exact() {
    assert_eq!(p95(&vec![5]), 5);
    assert_eq!(p95(&vec![9, 1]), 9);
    let values: Vec<u64> = (1..=100).rev().collect();
    assert_eq!(p95(&values), 95);
}

#[test]
fn flows_are_read_from_packets() {
    let mut packet = vec![0u8; 24];
    packet[0] = 0x45;
    packet[9] = 6;
    packet[12..16].copy_from_slice(&[10, 0, 0, 1]);
    packet[16..20].copy_from_slice(&[192, 0, 2, 1]);
    packet[20..24].copy_from_slice(&[0x30, 0x39, 0x01, 0xBB]);
    let parsed = Flow::parse(7, &packet).unwrap();
    assert_eq!(parsed.proto, 6);
    assert_eq!(parsed.sport, 12345);
    assert_eq!(parsed.dport, 443);
    assert_eq!(parsed.dst, Ipv4Addr::new(192, 0, 2, 1));
    assert!(Flow::parse(7, &packet[..23]).is_none());
    packet[7] = 1;
    assert!(Flow::parse(7, &packet).is_none(), "a later fragment shows no ports");
    packet[7] = 0;
    packet[9] = 1;
    assert!(Flow::parse(7, &packet).is_none());
    packet[9] = 17;
    packet[0] = 0x44;
    assert!(Flow::parse(7, &packet).is_none());
}

#[test]
fn policies_are_read_from_settings() {
    assert_eq!(
        Policy::from_env(Some("enforce"), Some("10"), Some("x"), Some("18446744073709551615")),
        Policy { enforce: true, packets: 10, bytes: 0, new_flows: u64::MAX }
    );
    assert_eq!(Policy::from_env(Some("Enforce"), None, None, None), Policy::default());
    assert_eq!(
        Policy::from_env(None, Some("18446744073709551616"), Some(" 1"), None),
        Policy::default()
    );
}

fn session(user: &str, auth_state: SessionAuthState) -> SessionEntry {
    SessionEntry {
        user_id: user.to_string(),
        auth_state,
        lease_expires_at_unix: None,
        client_addr: SocketAddr { ip: IpAddr::V4(Ipv4Addr::new(127, 0, 0, 1)), port: 40000 },
        created_at_unix: 1,
        last_activity: 0,
        last_activity_unix: 1,
    }
}

#[test]
fn budgets_apply_to_sessions_with_tickets() {
    let mut sessions = SessionTable::new();
    sessions.put(1, session("owner", SessionAuthState::Authenticated));
    sessions.put(2, session("nobody", SessionAuthState::Legacy));
    let mut budget = Budgets::new(Policy {
        enforce: true,
        packets: 1,
        ..Policy::default()
    });
    let packet = [0u8; 40];
    assert!(!swifttunnel_relay::account_budget::allow(&mut budget, &sessions, 9, false, &packet, 1));
    assert!(swifttunnel_relay::account_budget::allow(&mut budget, &sessions, 2, false, &packet, 1));
    assert_eq!(budget.accounts.len(), 0);
    assert!(swifttunnel_relay::account_budget::allow(&mut budget, &sessions, 1, false, &packet, 1));
    assert!(!swifttunnel_relay::account_budget::allow(&mut budget, &sessions, 1, true, &packet, 1));
    assert_eq!(budget.accounts.len(), 1);
}
