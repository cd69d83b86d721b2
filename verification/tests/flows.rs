use swifttunnel_relay::addr::{IpAddr, Ipv4Addr, SocketAddr};
use swifttunnel_relay::auth::SessionAuthState;
use swifttunnel_relay::flows::{
    age_flow, flow_key, indexed_session_flow_count, remove_v1_session_flow_key,
    v1_flow_capacity_available, FlowRecord, FlowStep, SessionFlowKeys, V1Flows,
};
use swifttunnel_relay::limits::MAX_FLOWS_PER_SESSION;
use swifttunnel_relay::packet::OriginalPacketInfo;
use swifttunnel_relay::session::{SessionEntry, SessionTable};
use swifttunnel_relay::source::{SourceRateLimiter, MAX_NEW_FLOWS_PER_SOURCE_WINDOW};
use swifttunnel_relay::stats::Stats;

const SECOND: u64 = 1_000_000_000;
const START: u64 = 1_000 * SECOND;

fn client(port: u16) -> SocketAddr {
    SocketAddr { ip: IpAddr::V4(Ipv4Addr::new(203, 0, 113, 10)), port }
}

fn info(port: u16) -> OriginalPacketInfo {
    OriginalPacketInfo {
        tos: 0,
        src_ip: Ipv4Addr::new(10, 0, 0, 1),
        src_port: 40000,
        dst_ip: Ipv4Addr::new(198, 51, 100, 10),
        dst_port: port,
    }
}

fn opened(flows: &mut V1Flows, key: u64, port: u16, now: u64) -> FlowStep {
    let mut limiter = SourceRateLimiter::new(START);
    let mut stats = Stats::new();
    flows.use_flow(&mut limiter, &mut stats, key, client(4000), info(port), now)
}

#[test]
fn test_v1_flow_capacity_uses_session_flow_index() {
    let mut flows = V1Flows::new();
    let mut stats = Stats::new();
    let session_id = 0x0123_4567_89ab_cdef_u64;

    for idx in 0..MAX_FLOWS_PER_SESSION {
        flows
            .session_flow_keys
            .push(session_id, &format!("0123456789abcdef:203.0.113.1:{}", idx));
    }

    assert!(!v1_flow_capacity_available(&flows, &mut stats, session_id));
    assert_eq!(stats.dropped_in, 1);
    assert_eq!(stats.drop_reasons.capacity, 1);
}

#[test]
fn test_v1_session_flow_index_removes_only_target_flow() {
    let mut index = SessionFlowKeys::new();
    let session_id = 0x0123_4567_89ab_cdef_u64;
    index.push(session_id, "0123456789abcdef:1.1.1.1:1000");
    index.push(session_id, "0123456789abcdef:2.2.2.2:2000");

    remove_v1_session_flow_key(&mut index, session_id, "0123456789abcdef:1.1.1.1:1000");

    let keys = index.keys.get(&session_id).unwrap();
    assert_eq!(keys.as_slice(), ["0123456789abcdef:2.2.2.2:2000"]);
}

#[test]
fn the_index_forgets_sessions_without_flows() {
    let mut index = SessionFlowKeys::new();
    index.push(1, "a");
    assert_eq!(indexed_session_flow_count(&index, 1), 1);
    assert_eq!(indexed_session_flow_count(&index, 2), 0);
    remove_v1_session_flow_key(&mut index, 1, "b");
    assert_eq!(indexed_session_flow_count(&index, 1), 1);
    remove_v1_session_flow_key(&mut index, 1, "a");
    assert!(index.keys.is_empty());
    remove_v1_session_flow_key(&mut index, 1, "a");
}

#[test]
fn flows_open_once_and_follow_their_client() {
    let mut flows = V1Flows::new();
    let mut limiter = SourceRateLimiter::new(START);
    let mut stats = Stats::new();
    assert_eq!(
        flows.use_flow(&mut limiter, &mut stats, 1, client(4000), info(5), START),
        FlowStep::Opened
    );
    assert_eq!(
        flows.use_flow(&mut limiter, &mut stats, 1, client(4001), info(5), START + SECOND),
        FlowStep::Existing
    );
    assert_eq!(flows.len(), 1);
    let name = flow_key(1, info(5));
    assert_eq!(
        flows.get(&name),
        Some(FlowRecord {
            client_addr: client(4001),
            last_activity: START + SECOND,
            original_info: info(5),
            marked_for_removal: None,
        })
    );
    assert_eq!(indexed_session_flow_count(&flows.session_flow_keys, 1), 1);
    assert!(v1_flow_capacity_available(&flows, &mut stats, 1));
    assert_eq!(stats, Stats::new());
}

#[test]
fn new_flows_are_limited_by_source() {
    let mut flows = V1Flows::new();
    let mut limiter = SourceRateLimiter::new(START);
    let mut stats = Stats::new();
    let mut refused = 0;
    for n in 0..=MAX_NEW_FLOWS_PER_SOURCE_WINDOW {
        let key = u64::from(n / 1000);
        let step = flows.use_flow(
            &mut limiter,
            &mut stats,
            key,
            client(4000),
            info((n % 1000) as u16 + 1),
            START,
        );
        if step == FlowStep::Refused {
            refused += 1;
        }
    }
    assert_eq!(refused, 1);
    assert_eq!(stats.drop_reasons.rate_limit, 1);
    assert_eq!(flows.len(), MAX_NEW_FLOWS_PER_SOURCE_WINDOW as usize);
}

#[test]
fn flows_are_removed_in_two_steps() {
    let mut f = FlowRecord {
        client_addr: client(4000),
        last_activity: START,
        original_info: info(5),
        marked_for_removal: None,
    };
    assert!(age_flow(&mut f, START + 180 * SECOND - 1));
    assert_eq!(f.marked_for_removal, None);
    let marked_at = START + 180 * SECOND;
    assert!(age_flow(&mut f, marked_at));
    assert_eq!(f.marked_for_removal, Some(marked_at));
    assert!(age_flow(&mut f, marked_at + 30 * SECOND - 1));
    assert!(!age_flow(&mut f, marked_at + 30 * SECOND));
}

fn session(client_addr: SocketAddr) -> SessionEntry {
    SessionEntry {
        user_id: "user".to_string(),
        auth_state: SessionAuthState::Legacy,
        lease_expires_at_unix: None,
        client_addr,
        created_at_unix: 1,
        last_activity: START,
        last_activity_unix: 1,
    }
}

#[test]
fn cleanup_leaves_flows_and_index_in_step() {
    let mut flows = V1Flows::new();
    assert_eq!(opened(&mut flows, 1, 5, START), FlowStep::Opened);
    assert_eq!(opened(&mut flows, 1, 6, START + 100 * SECOND), FlowStep::Opened);
    assert_eq!(opened(&mut flows, 2, 5, START), FlowStep::Opened);
    let mut sessions = SessionTable::new();
    sessions.put(1, session(client(4000)));
    flows.cleanup(&sessions, START + 180 * SECOND);
    assert_eq!(flows.len(), 3);
    flows.cleanup(&sessions, START + 210 * SECOND);
    assert_eq!(flows.len(), 1);
    assert!(flows.get(&flow_key(1, info(6))).is_some());
    assert_eq!(indexed_session_flow_count(&flows.session_flow_keys, 1), 1);
    assert_eq!(indexed_session_flow_count(&flows.session_flow_keys, 2), 0);
}

#[test]
fn closing_a_flow_takes_it_out_of_the_index() {
    let mut flows = V1Flows::new();
    opened(&mut flows, 1, 5, START);
    opened(&mut flows, 1, 6, START);
    flows.close(1, &flow_key(1, info(5)));
    assert_eq!(flows.len(), 1);
    assert_eq!(indexed_session_flow_count(&flows.session_flow_keys, 1), 1);
    assert!(flows.get(&flow_key(1, info(5))).is_none());
}

#[test]
fn refreshing_reaches_the_flows_of_one_session() {
    let mut flows = V1Flows::new();
    opened(&mut flows, 1, 5, START);
    opened(&mut flows, 2, 5, START);
    flows.refresh(1, client(5000), START + 9 * SECOND);
    let one = flows.get(&flow_key(1, info(5))).unwrap();
    assert_eq!((one.client_addr, one.last_activity), (client(5000), START + 9 * SECOND));
    let two = flows.get(&flow_key(2, info(5))).unwrap();
    assert_eq!((two.client_addr, two.last_activity), (client(4000), START));
}
