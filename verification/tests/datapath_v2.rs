use std::collections::{HashMap, HashSet};
use swifttunnel_relay::addr::{IpAddr, Ipv4Addr, SocketAddr};
use swifttunnel_relay::config::{
    clamp_usize, get_flow_socket_rcvbuf_bytes, get_flow_socket_sndbuf_bytes, get_pool_slots,
    get_relay_datapath, get_shard_count, get_shard_queue_cap, get_socket_rcvbuf_bytes,
    get_socket_sndbuf_bytes, get_tx_queue_cap, relay_v2_tuning, shard_count_for, RelayDatapath,
    RelayV2Settings,
};
use swifttunnel_relay::flows::FlowRecord;
use swifttunnel_relay::packet::{
    build_response_ip_packet, write_response_ip_packet_into, OriginalPacketInfo, UDP_HEADER_SIZE,
};
use swifttunnel_relay::pool::BufferPool;
use swifttunnel_relay::rewrite::IP_HEADER_MIN;
use swifttunnel_relay::shard::{
    allocate_flow_token, remove_flow_from_session_index, shard_for_session,
    should_drop_stale_queued_packet, FlowKey, GameAddr, PacketStep, QueuedPacketKind, Shard,
    MAX_DATA_QUEUE_AGE_NS,
};

const MILLISECOND: u64 = 1_000_000;
const SECOND: u64 = 1_000_000_000;

fn test_original_info() -> OriginalPacketInfo {
    OriginalPacketInfo {
        tos: 0,
        src_ip: Ipv4Addr::new(10, 0, 0, 5),
        src_port: 54321,
        dst_ip: Ipv4Addr::new(1, 2, 3, 4),
        dst_port: 12345,
    }
}

fn make_flow_key(sid: u8, port: u16) -> FlowKey {
    FlowKey {
        sid: u64::from_be_bytes([sid, 0, 0, 0, 0, 0, 0, 0]),
        game: GameAddr { ip: Ipv4Addr::new(127, 0, 0, 1), port },
    }
}

fn client(port: u16) -> SocketAddr {
    SocketAddr { ip: IpAddr::V4(Ipv4Addr::new(203, 0, 113, 7)), port }
}

#[test]
fn test_stale_data_queue_packet_is_dropped() {
    let now = 10 * SECOND;
    assert!(should_drop_stale_queued_packet(
        QueuedPacketKind::Data,
        now - MAX_DATA_QUEUE_AGE_NS - MILLISECOND,
        now
    ));
}

#[test]
fn test_fresh_data_queue_packet_is_not_dropped() {
    let now = 10 * SECOND;
    assert!(!should_drop_stale_queued_packet(
        QueuedPacketKind::Data,
        now - MAX_DATA_QUEUE_AGE_NS,
        now
    ));
}

#[test]
fn test_stale_control_queue_packet_is_not_dropped() {
    let now = 10 * SECOND;
    assert!(!should_drop_stale_queued_packet(
        QueuedPacketKind::Control,
        now - MAX_DATA_QUEUE_AGE_NS - MILLISECOND,
        now
    ));
}

#[test]
fn test_get_relay_datapath_default_is_v2() {
    assert_eq!(get_relay_datapath(None), RelayDatapath::V2);
}

#[test]
fn test_get_relay_datapath_v1_literal() {
    assert_eq!(get_relay_datapath(Some("v1")), RelayDatapath::V1);
}

#[test]
fn test_get_relay_datapath_tokio_alias() {
    assert_eq!(get_relay_datapath(Some("tokio")), RelayDatapath::V1);
}

#[test]
fn datapath_names_are_trimmed_and_case_insensitive() {
    assert_eq!(get_relay_datapath(Some(" ToKiO\t")), RelayDatapath::V1);
    assert_eq!(get_relay_datapath(Some("sharded")), RelayDatapath::V2);
    assert_eq!(get_relay_datapath(Some("v3")), RelayDatapath::V2);
}

#[test]
fn test_clamp_usize_below_min() {
    assert_eq!(clamp_usize(5, 10, 100), 10);
}

#[test]
fn test_clamp_usize_above_max() {
    assert_eq!(clamp_usize(200, 10, 100), 100);
}

#[test]
fn test_clamp_usize_in_range() {
    assert_eq!(clamp_usize(50, 10, 100), 50);
}

#[test]
fn test_clamp_usize_at_min_boundary() {
    assert_eq!(clamp_usize(10, 10, 100), 10);
}

#[test]
fn test_clamp_usize_at_max_boundary() {
    assert_eq!(clamp_usize(100, 10, 100), 100);
}

#[test]
fn tuning_settings_have_defaults_and_bounds() {
    assert_eq!(get_pool_slots(None), 8192);
    assert_eq!(get_pool_slots(Some("1")), 512);
    assert_eq!(get_pool_slots(Some(" 1024 ")), 1024);
    assert_eq!(get_pool_slots(Some("99999999")), 262_144);
    assert_eq!(get_shard_queue_cap(Some("nonsense")), 4096);
    assert_eq!(get_tx_queue_cap(Some("+300")), 300);
    assert_eq!(get_socket_rcvbuf_bytes(None), 4 * 1024 * 1024);
    assert_eq!(get_socket_sndbuf_bytes(Some("0")), 256 * 1024);
    assert_eq!(get_flow_socket_rcvbuf_bytes(None), 2 * 1024 * 1024);
    assert_eq!(get_flow_socket_sndbuf_bytes(Some("1000000000")), 64 * 1024 * 1024);
    assert_eq!(shard_count_for(None, 0), 1);
    assert_eq!(shard_count_for(None, 6), 6);
    assert_eq!(shard_count_for(None, 1000), 256);
    assert_eq!(shard_count_for(Some("3"), 6), 3);
    assert_eq!(get_shard_count(Some("300")), 256);
    let cores = get_shard_count(None);
    assert!((1..=256).contains(&cores));
    let settings = RelayV2Settings {
        shards: Some("2"),
        pool_slots: Some("600"),
        shard_queue: None,
        tx_queue: Some("257"),
        socket_rcvbuf: None,
        socket_sndbuf: None,
        flow_rcvbuf: Some("300000"),
        flow_sndbuf: None,
    };
    let tuning = relay_v2_tuning(settings);
    assert_eq!(tuning.shard_count, 2);
    assert_eq!(tuning.pool_slots, 600);
    assert_eq!(tuning.shard_queue_cap, 4096);
    assert_eq!(tuning.tx_queue_cap, 257);
    assert_eq!(tuning.flow_rcvbuf_bytes, 300_000);
}

#[test]
fn test_shard_for_session_deterministic() {
    let sid = [0xAA, 0xBB, 0xCC, 0xDD, 0x11, 0x22, 0x33, 0x44];
    let a = shard_for_session(sid, 8);
    let b = shard_for_session(sid, 8);
    assert_eq!(a, b, "same input must produce same shard");
}

#[test]
fn test_shard_for_session_different_ids() {
    let sid_a = [1, 0, 0, 0, 0, 0, 0, 0];
    let sid_b = [2, 0, 0, 0, 0, 0, 0, 0];
    // With 256 shards, two distinct IDs should (almost certainly) hash differently.
    let a = shard_for_session(sid_a, 256);
    let b = shard_for_session(sid_b, 256);
    assert_ne!(a, b, "distinct session IDs should likely map to different shards");
}

#[test]
fn test_shard_for_session_single_shard() {
    let sid = [0xFF; 8];
    assert_eq!(shard_for_session(sid, 1), 0);
}

#[test]
fn test_shard_for_session_distribution() {
    let shard_count = 8usize;
    let mut counts = vec![0u32; shard_count];
    for i in 0u64..256 {
        let sid = i.to_be_bytes();
        counts[shard_for_session(sid, shard_count)] += 1;
    }
    for (shard_id, &count) in counts.iter().enumerate() {
        assert!(
            count >= 1,
            "shard {} received 0 session IDs out of 256; distribution is broken",
            shard_id
        );
    }
}

#[test]
fn test_shard_for_session_in_range() {
    for shard_count in [1, 2, 4, 7, 16, 255] {
        for i in 0u64..64 {
            let sid = i.to_be_bytes();
            let shard = shard_for_session(sid, shard_count);
            assert!(
                shard < shard_count,
                "shard {} >= shard_count {} for session {:?}",
                shard,
                shard_count,
                sid
            );
        }
    }
}

#[test]
fn shard_mixing_has_exact_values() {
    // The finaliser of 64-bit MurmurHash3.
    let mixed = |mut x: u64| {
        x ^= x >> 33;
        x = x.wrapping_mul(0xff51afd7ed558ccd);
        x ^= x >> 33;
        x = x.wrapping_mul(0xc4ceb9fe1a85ec53);
        x ^ (x >> 33)
    };
    assert_eq!(shard_for_session([0; 8], 251), 0);
    for i in [1u64, 2, 0xDEAD_BEEF, u64::MAX] {
        assert_eq!(
            shard_for_session(i.to_be_bytes(), 251),
            (mixed(i) % 251) as usize
        );
    }
}

#[test]
fn test_write_response_ip_packet_into_normal() {
    let payload = b"hello game";
    let original = test_original_info();
    let total = IP_HEADER_MIN + UDP_HEADER_SIZE + payload.len();
    let mut buf = vec![0u8; total + 64]; // extra room
    let result = write_response_ip_packet_into(&mut buf, payload, original);
    assert_eq!(result, Some(total));
    // IP version+IHL
    assert_eq!(buf[0], 0x45);
    // Protocol = UDP (17)
    assert_eq!(buf[9], 17);
    // TTL = 64
    assert_eq!(buf[8], 64);
    // Source IP = original dst_ip (game server = 1.2.3.4)
    assert_eq!(&buf[12..16], &[1, 2, 3, 4]);
    // Dest IP = original src_ip (client = 10.0.0.5)
    assert_eq!(&buf[16..20], &[10, 0, 0, 5]);
    // UDP payload
    let payload_start = IP_HEADER_MIN + UDP_HEADER_SIZE;
    assert_eq!(&buf[payload_start..payload_start + payload.len()], payload);
}

#[test]
fn test_write_response_ip_packet_into_buffer_too_small() {
    let payload = b"hello game";
    let original = test_original_info();
    let total = IP_HEADER_MIN + UDP_HEADER_SIZE + payload.len();
    let mut buf = vec![0u8; total - 1]; // one byte short
    let result = write_response_ip_packet_into(&mut buf, payload, original);
    assert_eq!(result, None);
}

#[test]
fn test_write_response_ip_packet_into_zero_payload() {
    let original = test_original_info();
    let total = IP_HEADER_MIN + UDP_HEADER_SIZE;
    let mut buf = vec![0u8; total];
    let result = write_response_ip_packet_into(&mut buf, &[], original);
    assert_eq!(result, Some(total));
}

#[test]
fn test_write_response_ip_packet_into_exact_buffer_size() {
    let payload = b"data";
    let original = test_original_info();
    let total = IP_HEADER_MIN + UDP_HEADER_SIZE + payload.len();
    let mut buf = vec![0u8; total]; // exactly right
    let result = write_response_ip_packet_into(&mut buf, payload, original);
    assert_eq!(result, Some(total));
}

#[test]
fn test_write_response_ip_packet_into_matches_build() {
    let payload = b"match test payload";
    let original = test_original_info();
    let expected = build_response_ip_packet(payload, original);
    let mut buf = vec![0u8; expected.len() + 32];
    let len = write_response_ip_packet_into(&mut buf, payload, original).unwrap();
    assert_eq!(
        &buf[..len],
        &expected[..],
        "write_into must match build_response_ip_packet byte-for-byte"
    );
}

#[test]
fn writing_matches_building_with_a_service_byte_too() {
    let payload = b"match test payload";
    let original = OriginalPacketInfo { tos: 0xB8, ..test_original_info() };
    let expected = build_response_ip_packet(payload, original);
    let mut buf = vec![7u8; expected.len() + 3];
    let len = write_response_ip_packet_into(&mut buf, payload, original).unwrap();
    assert_eq!(&buf[..len], &expected[..]);
    assert_eq!(&buf[len..], &[7, 7, 7]);
}

#[test]
fn test_remove_flow_existing() {
    let flow = make_flow_key(1, 8000);
    let mut session_flows = HashMap::new();
    session_flows.insert(flow.sid, vec![flow.game]);
    remove_flow_from_session_index(&mut session_flows, &flow);
    // Session entry should be removed because the list became empty.
    assert!(!session_flows.contains_key(&flow.sid));
}

#[test]
fn test_remove_flow_missing_session_is_noop() {
    let flow = make_flow_key(99, 9999);
    let mut session_flows: HashMap<u64, Vec<GameAddr>> = HashMap::new();
    // Should not panic or modify anything.
    remove_flow_from_session_index(&mut session_flows, &flow);
    assert!(session_flows.is_empty());
}

#[test]
fn test_remove_flow_missing_game_addr_is_noop() {
    let flow = make_flow_key(1, 8000);
    let other_addr = GameAddr { ip: Ipv4Addr::new(127, 0, 0, 1), port: 9999 };
    let mut session_flows = HashMap::new();
    session_flows.insert(flow.sid, vec![other_addr]);
    remove_flow_from_session_index(&mut session_flows, &flow);
    // The entry should remain with the other address intact.
    assert_eq!(session_flows[&flow.sid], vec![other_addr]);
}

#[test]
fn test_remove_flow_last_flow_removes_session_entry() {
    let flow = make_flow_key(1, 5000);
    let mut session_flows = HashMap::new();
    session_flows.insert(flow.sid, vec![flow.game]);
    remove_flow_from_session_index(&mut session_flows, &flow);
    assert!(
        session_flows.is_empty(),
        "removing last flow must remove the session entry"
    );
}

#[test]
fn test_remove_flow_multiple_flows_same_session() {
    let flow_a = make_flow_key(1, 7000);
    let flow_b = FlowKey {
        sid: flow_a.sid,
        game: GameAddr { ip: Ipv4Addr::new(127, 0, 0, 1), port: 7001 },
    };
    let mut session_flows = HashMap::new();
    session_flows.insert(flow_a.sid, vec![flow_a.game, flow_b.game]);
    remove_flow_from_session_index(&mut session_flows, &flow_a);
    let remaining = &session_flows[&flow_a.sid];
    assert_eq!(remaining.len(), 1);
    assert_eq!(remaining[0], flow_b.game);
}

#[test]
fn removing_a_flow_swaps_the_last_one_in() {
    let keys: Vec<FlowKey> = (0..3).map(|i| make_flow_key(1, 7000 + i)).collect();
    let mut session_flows = HashMap::new();
    session_flows.insert(keys[0].sid, keys.iter().map(|k| k.game).collect());
    remove_flow_from_session_index(&mut session_flows, &keys[0]);
    assert_eq!(session_flows[&keys[0].sid], vec![keys[2].game, keys[1].game]);
}

#[test]
fn test_allocate_flow_token_first_allocation() {
    let mut next = 1usize;
    let map: HashMap<usize, u128> = HashMap::new();
    let token = allocate_flow_token(&mut next, &map);
    assert_eq!(token, Some(1));
}

#[test]
fn test_allocate_flow_token_skips_zero() {
    let mut next = 0usize;
    let map: HashMap<usize, u128> = HashMap::new();
    let token = allocate_flow_token(&mut next, &map);
    // Token 0 is reserved; it should skip to token 1.
    assert_eq!(token, Some(1));
}

#[test]
fn test_allocate_flow_token_skips_occupied() {
    let mut next = 1usize;
    let mut map: HashMap<usize, u128> = HashMap::new();
    map.insert(1, make_flow_key(1, 1000).id());
    let token = allocate_flow_token(&mut next, &map);
    assert_eq!(token, Some(2));
}

#[test]
fn test_allocate_flow_token_wraps_around() {
    let mut next = usize::MAX;
    let map: HashMap<usize, u128> = HashMap::new();
    let token = allocate_flow_token(&mut next, &map);
    // usize::MAX is a valid token value, should be returned.
    assert_eq!(token, Some(usize::MAX));
    // Next allocation should wrap around past 0 to 1.
    let token2 = allocate_flow_token(&mut next, &map);
    assert_eq!(token2, Some(1));
}

#[test]
fn test_allocate_flow_token_sequential_unique() {
    let mut next = 1usize;
    let mut map: HashMap<usize, u128> = HashMap::new();
    let mut allocated = Vec::new();
    for i in 0..100 {
        let token = allocate_flow_token(&mut next, &map).unwrap();
        // Simulate occupying the token.
        map.insert(token, make_flow_key(i as u8, 1000 + i).id());
        allocated.push(token);
    }
    // All tokens must be distinct.
    let mut set = HashSet::new();
    for t in &allocated {
        assert!(set.insert(*t), "duplicate token {:?}", t);
    }
}

#[test]
fn test_allocate_flow_token_full_cycle_returns_none() {
    let mut next = 1usize;
    let mut map: HashMap<usize, u128> = HashMap::new();
    // Occupy tokens 1, 2, 3.
    map.insert(1, make_flow_key(1, 1000).id());
    map.insert(2, make_flow_key(2, 1001).id());
    map.insert(3, make_flow_key(3, 1002).id());

    // The whole range cannot be occupied here; the allocator skips occupied tokens and
    // finds the first open one.
    let token = allocate_flow_token(&mut next, &map);
    // Token 4 is not occupied, so it should be returned.
    assert_eq!(token, Some(4));
}

#[test]
fn test_buffer_pool_new_creates_correct_slot_count() {
    let mut pool = BufferPool::new(16);
    let mut acquired = Vec::new();
    while let Some(idx) = pool.try_acquire() {
        acquired.push(idx);
    }
    assert_eq!(acquired.len(), 16, "pool of 16 slots should yield 16 acquires");
}

#[test]
fn test_buffer_pool_try_acquire_returns_indices() {
    let mut pool = BufferPool::new(4);
    let mut indices: Vec<usize> = Vec::new();
    for _ in 0..4 {
        indices.push(pool.try_acquire().expect("should acquire"));
    }
    indices.sort();
    assert_eq!(indices, vec![0, 1, 2, 3]);
}

#[test]
fn test_buffer_pool_release_and_reacquire() {
    let mut pool = BufferPool::new(2);
    let a = pool.try_acquire().unwrap();
    let b = pool.try_acquire().unwrap();
    assert!(pool.try_acquire().is_none(), "pool should be exhausted");
    pool.release(a);
    let c = pool.try_acquire().unwrap();
    assert_eq!(c, a, "released index should be re-acquired");
    pool.release(b);
    pool.release(c);
}

#[test]
fn test_buffer_pool_exhaustion_returns_none() {
    let mut pool = BufferPool::new(1);
    let _idx = pool.try_acquire().unwrap();
    assert!(pool.try_acquire().is_none());
}

#[test]
fn test_buffer_pool_acquire_all_then_release_all() {
    let slots = 32;
    let mut pool = BufferPool::new(slots);
    let mut acquired = Vec::new();
    for _ in 0..slots {
        acquired.push(pool.try_acquire().unwrap());
    }
    assert!(pool.try_acquire().is_none());
    for idx in acquired {
        pool.release(idx);
    }
    // After releasing all, we should be able to acquire them again.
    let mut re_acquired = Vec::new();
    while let Some(idx) = pool.try_acquire() {
        re_acquired.push(idx);
    }
    assert_eq!(re_acquired.len(), slots);
}

#[test]
fn test_buffer_pool_read_write() {
    let mut pool = BufferPool::new(2);
    let idx = pool.try_acquire().unwrap();
    {
        let buf = pool.buffer_mut(idx);
        buf[0] = 0xDE;
        buf[1] = 0xAD;
        buf[2] = 0xBE;
        buf[3] = 0xEF;
    }
    {
        let buf = pool.buffer(idx);
        assert_eq!(buf[0], 0xDE);
        assert_eq!(buf[1], 0xAD);
        assert_eq!(buf[2], 0xBE);
        assert_eq!(buf[3], 0xEF);
    }
    pool.release(idx);
}

#[test]
fn freed_buffers_come_back_in_the_order_of_release() {
    let mut pool = BufferPool::new(3);
    let a = pool.try_acquire().unwrap();
    let b = pool.try_acquire().unwrap();
    assert_eq!((a, b), (0, 1));
    pool.release(b);
    pool.release(a);
    assert_eq!(pool.try_acquire(), Some(2));
    assert_eq!(pool.try_acquire(), Some(1));
    assert_eq!(pool.try_acquire(), Some(0));
    assert_eq!(pool.try_acquire(), None);
    assert_eq!(BufferPool::new(0).try_acquire(), None);
}

fn open(shard: &mut Shard, key: FlowKey, now: u64) -> usize {
    let token = shard.take_token().unwrap();
    shard.open_flow(key, token, client(1000), test_original_info(), now);
    token
}

#[test]
fn shard_flows_open_age_and_go() {
    let mut shard = Shard::new();
    let key = make_flow_key(1, 7000);
    let start = 1000 * SECOND;
    assert_eq!(shard.packet_step(key, start, start), PacketStep::New);
    assert_eq!(
        shard.packet_step(key, start, start + 251 * MILLISECOND),
        PacketStep::Stale
    );
    let token = open(&mut shard, key, start);
    assert_eq!(token, 1);
    assert_eq!(shard.packet_step(key, start, start), PacketStep::Known(token));
    assert_eq!(shard.flow_of_token(token).unwrap().key, key);
    assert!(shard.flow_of_token(99).is_none());

    // Not idle for long enough, then marked, then gone after the grace period.
    assert!(shard.cleanup(start + 179 * SECOND).is_empty());
    assert!(shard.flow_of_token(token).unwrap().record.marked_for_removal.is_none());
    assert!(shard.cleanup(start + 180 * SECOND).is_empty());
    assert_eq!(
        shard.flow_of_token(token).unwrap().record.marked_for_removal,
        Some(start + 180 * SECOND)
    );
    assert!(shard.cleanup(start + 209 * SECOND).is_empty());
    assert_eq!(shard.cleanup(start + 210 * SECOND), vec![token]);
    assert!(shard.flow_of_token(token).is_none());
    assert!(shard.flows.is_empty());
    assert!(shard.token_to_flow.is_empty());
    assert!(shard.session_flows.is_empty());
}

#[test]
fn a_marked_shard_flow_is_revived_by_traffic() {
    let mut shard = Shard::new();
    let key = make_flow_key(1, 7000);
    let start = 1000 * SECOND;
    let token = open(&mut shard, key, start);
    shard.cleanup(start + 200 * SECOND);
    let marked = shard.flow_of_token(token).unwrap();
    assert!(marked.record.marked_for_removal.is_some());
    shard.use_flow(key, client(2000), test_original_info(), start + 201 * SECOND);
    let used = shard.flow_of_token(token).unwrap().record;
    assert_eq!(
        used,
        FlowRecord {
            client_addr: client(2000),
            last_activity: start + 201 * SECOND,
            original_info: test_original_info(),
            marked_for_removal: None,
        }
    );
    shard.mark_active(shard.flow_of_token(token).unwrap(), start + 202 * SECOND);
    assert_eq!(
        shard.flow_of_token(token).unwrap().record.last_activity,
        start + 202 * SECOND
    );
}

#[test]
fn keepalives_and_removal_reach_all_flows_of_one_session_only() {
    let mut shard = Shard::new();
    let start = 1000 * SECOND;
    let a = open(&mut shard, make_flow_key(1, 7000), start);
    let b = open(&mut shard, make_flow_key(1, 7001), start);
    let c = open(&mut shard, make_flow_key(2, 7000), start);
    let sid = make_flow_key(1, 7000).sid;
    shard.keepalive(sid, client(4000), start + SECOND);
    for token in [a, b] {
        let record = shard.flow_of_token(token).unwrap().record;
        assert_eq!(record.client_addr, client(4000));
        assert_eq!(record.last_activity, start + SECOND);
    }
    assert_eq!(shard.flow_of_token(c).unwrap().record.client_addr, client(1000));
    let mut freed = shard.remove_session(sid);
    freed.sort();
    assert_eq!(freed, vec![a, b]);
    assert!(shard.flow_of_token(a).is_none());
    assert!(shard.flow_of_token(c).is_some());
    assert!(shard.remove_session(sid).is_empty());
    shard.keepalive(sid, client(5000), start + 2 * SECOND);
    assert_eq!(shard.flow_of_token(c).unwrap().record.client_addr, client(1000));
}
