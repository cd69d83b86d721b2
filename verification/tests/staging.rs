use swifttunnel_relay::addr::{IpAddr, Ipv4Addr, SocketAddr};
use swifttunnel_relay::auth::{RelayAuthConfig, RelayAuthMode};
use swifttunnel_relay::config::RelayDatapath;
use swifttunnel_relay::datapath_v2::{
    admit_flow, drop_payload, flow_opened, payload_sent, queue_refused, send_done, stage_control_frame,
    stage_payload, stage_reply, still_wanted, take_packet, ClientPacket, PacketTask, QueuedFrame,
    ReplyStep,
};
use swifttunnel_relay::dest_policy::{default_tcp_ports, DestPolicy, Mode};
use swifttunnel_relay::flow_handler::IoErrorKind;
use swifttunnel_relay::packet::{build_response_ip_packet, OriginalPacketInfo};
use swifttunnel_relay::pool::{BufferPool, MAX_PACKET_SIZE};
use swifttunnel_relay::relay::Relay;
use swifttunnel_relay::shard::{FlowKey, GameAddr, QueuedPacketKind, Shard, ShardFlow};
use swifttunnel_relay::source::MAX_NEW_FLOWS_PER_SOURCE_WINDOW;
use swifttunnel_relay::stats::DropReason;

const MILLISECOND: u64 = 1_000_000;
const START: u64 = 1_000_000_000_000;
const NOW_UNIX: u64 = 1_739_790_000;

fn relay() -> Relay {
    let auth = RelayAuthConfig { mode: RelayAuthMode::Off, public_key: None, server_id: None };
    let policy = DestPolicy::build(Mode::Off, None, default_tcp_ports());
    Relay::new(auth, false, false, RelayDatapath::V2, policy, START)
}

fn client() -> SocketAddr {
    SocketAddr { ip: IpAddr::V4(Ipv4Addr::new(203, 0, 113, 10)), port: 4000 }
}

fn info() -> OriginalPacketInfo {
    OriginalPacketInfo {
        tos: 0x2e,
        src_ip: Ipv4Addr::new(10, 0, 0, 1),
        src_port: 40000,
        dst_ip: Ipv4Addr::new(198, 51, 100, 10),
        dst_port: 50000,
    }
}

fn shard_with_flow() -> (Shard, ShardFlow) {
    let mut shard = Shard::new();
    let key = FlowKey { sid: 1, game: GameAddr { ip: info().dst_ip, port: info().dst_port } };
    let token = shard.take_token().unwrap();
    shard.open_flow(key, token, client(), info(), START);
    let f = shard.flow_of_token(token).unwrap();
    (shard, f)
}

fn control(pool: &mut BufferPool, relay: &mut Relay) -> QueuedFrame {
    stage_control_frame(pool, relay, client(), 1u64.to_be_bytes(), b"pong", START).unwrap()
}

#[test]
fn payloads_are_held_until_they_are_sent() {
    let mut pool = BufferPool::new(1);
    let mut relay = relay();
    let idx = stage_payload(&mut pool, &mut relay, b"payload").unwrap();
    assert_eq!(&pool.buffer(idx)[..7], b"payload");
    assert!(stage_payload(&mut pool, &mut relay, b"more").is_none());
    assert_eq!(relay.stats.pool_exhausted, 1);
    assert_eq!(relay.stats.drop_reasons.pool, 1);
    payload_sent(&mut pool, &mut relay, idx, None);
    let idx = stage_payload(&mut pool, &mut relay, b"more").unwrap();
    payload_sent(&mut pool, &mut relay, idx, Some(IoErrorKind::WouldBlock));
    assert_eq!(relay.stats.drop_reasons.flow_send, 1);
    let idx = stage_payload(&mut pool, &mut relay, b"more").unwrap();
    drop_payload(&mut pool, &mut relay, idx, DropReason::ShardQueue);
    assert_eq!(relay.stats.drop_reasons.shard_queue, 1);
    assert_eq!(relay.stats.dropped_in, 3);
    assert_eq!(pool.try_acquire(), Some(idx));
}

#[test]
fn replies_are_framed_for_the_flows_client() {
    let mut pool = BufferPool::new(2);
    let mut relay = relay();
    let (mut shard, f) = shard_with_flow();
    let step = stage_reply(
        &mut pool,
        &mut relay,
        &mut shard,
        f,
        1u64.to_be_bytes(),
        b"pong",
        START + MILLISECOND,
        NOW_UNIX,
    );
    match step {
        ReplyStep::Queue(q) => {
            let mut expected = 1u64.to_be_bytes().to_vec();
            expected.extend_from_slice(&build_response_ip_packet(b"pong", info()));
            assert_eq!(&pool.buffer(q.buf_idx)[..q.len], &expected[..]);
            assert_eq!(q.addr, client());
            assert!(q.kind == QueuedPacketKind::Data);
            assert!(still_wanted(&mut pool, &mut relay, q, START + 251 * MILLISECOND));
            assert!(!still_wanted(&mut pool, &mut relay, q, START + 252 * MILLISECOND));
            assert_eq!(relay.stats.drop_reasons.stale_queue, 1);
        }
        _ => panic!("not queued"),
    }
    assert_eq!(
        shard.flow_of_token(f.token).unwrap().record.last_activity,
        START + MILLISECOND
    );
}

#[test]
fn replies_that_do_not_fit_are_dropped() {
    let mut pool = BufferPool::new(1);
    let mut relay = relay();
    let (mut shard, f) = shard_with_flow();
    let long = vec![1u8; MAX_PACKET_SIZE - 35];
    let step = stage_reply(
        &mut pool,
        &mut relay,
        &mut shard,
        f,
        1u64.to_be_bytes(),
        &long,
        START,
        NOW_UNIX,
    );
    assert!(matches!(step, ReplyStep::TooLong));
    // Its buffer is free again; with that taken, there is none.
    assert_eq!(pool.try_acquire(), Some(0));
    let f = shard.flow_of_token(f.token).unwrap();
    let step = stage_reply(
        &mut pool,
        &mut relay,
        &mut shard,
        f,
        1u64.to_be_bytes(),
        b"pong",
        START,
        NOW_UNIX,
    );
    assert!(matches!(step, ReplyStep::NoBuffer));
    assert_eq!(relay.stats.pool_exhausted, 1);
    assert_eq!(relay.stats.dropped_out, 1);
}

#[test]
fn control_frames_do_not_go_stale() {
    let mut pool = BufferPool::new(1);
    let mut relay = relay();
    let q = control(&mut pool, &mut relay);
    assert_eq!(&pool.buffer(q.buf_idx)[..q.len], b"pong");
    assert!(still_wanted(&mut pool, &mut relay, q, START + 10_000 * MILLISECOND));
    send_done(&mut pool, &mut relay, q, true, NOW_UNIX);
    assert_eq!(relay.stats.packets_out, 1);
    assert_eq!(relay.stats.bytes_out, 4);
    let q = control(&mut pool, &mut relay);
    send_done(&mut pool, &mut relay, q, false, NOW_UNIX);
    assert_eq!(relay.stats.drop_reasons.socket_send, 1);
    let q = control(&mut pool, &mut relay);
    queue_refused(&mut pool, &mut relay, q);
    assert_eq!(relay.stats.drop_reasons.tx_queue, 1);
    assert_eq!(pool.try_acquire(), Some(0));
}

#[test]
fn new_flows_are_refused_beyond_the_sources_limit() {
    let mut pool = BufferPool::new(1);
    let mut relay = relay();
    let idx = stage_payload(&mut pool, &mut relay, b"payload").unwrap();
    for _ in 0..MAX_NEW_FLOWS_PER_SOURCE_WINDOW {
        assert!(admit_flow(&mut pool, &mut relay, idx, client(), START));
    }
    assert!(!admit_flow(&mut pool, &mut relay, idx, client(), START));
    assert_eq!(relay.stats.drop_reasons.rate_limit, 1);
    assert_eq!(relay.stats.throttled_users, 1);
    // The payload's buffer is free again.
    assert_eq!(pool.try_acquire(), Some(idx));
}

fn packet(payload_idx: usize) -> ClientPacket {
    ClientPacket {
        key: FlowKey { sid: 1, game: GameAddr { ip: info().dst_ip, port: info().dst_port } },
        client_addr: client(),
        original_info: info(),
        payload_idx,
        payload_len: 7,
        enqueued_at: START,
    }
}

#[test]
fn packets_give_their_buffer_back_once_on_every_way_out() {
    let mut pool = BufferPool::new(1);
    let mut relay = relay();
    let mut shard = Shard::new();
    let late = START + 251 * MILLISECOND;

    // It has waited for too long.
    let idx = stage_payload(&mut pool, &mut relay, b"payload").unwrap();
    let task = take_packet(&mut pool, &mut relay, &mut shard, packet(idx), late);
    assert_eq!(task, PacketTask::Dropped);
    assert_eq!(relay.stats.drop_reasons.stale_queue, 1);

    // No socket could be opened.
    let idx = stage_payload(&mut pool, &mut relay, b"payload").unwrap();
    let task = take_packet(&mut pool, &mut relay, &mut shard, packet(idx), START);
    assert_eq!(task, PacketTask::Open);
    assert!(stage_payload(&mut pool, &mut relay, b"more").is_none());
    let task = flow_opened(&mut pool, &mut relay, &mut shard, packet(idx), None, START);
    assert_eq!(task, PacketTask::Dropped);
    assert_eq!(relay.stats.drop_reasons.flow_create, 1);

    // A new flow, then the same flow again.
    let idx = stage_payload(&mut pool, &mut relay, b"payload").unwrap();
    let task = take_packet(&mut pool, &mut relay, &mut shard, packet(idx), START);
    assert_eq!(task, PacketTask::Open);
    let token = shard.take_token();
    let task = flow_opened(&mut pool, &mut relay, &mut shard, packet(idx), token, START);
    assert_eq!(task, PacketTask::Send(1));
    payload_sent(&mut pool, &mut relay, idx, None);
    let idx = stage_payload(&mut pool, &mut relay, b"payload").unwrap();
    let again = START + MILLISECOND;
    let task = take_packet(&mut pool, &mut relay, &mut shard, packet(idx), again);
    assert_eq!(task, PacketTask::Send(1));
    assert_eq!(shard.flow_of_token(1).unwrap().record.last_activity, again);
    payload_sent(&mut pool, &mut relay, idx, Some(IoErrorKind::WouldBlock));

    assert_eq!(pool.try_acquire(), Some(idx));
    assert_eq!(pool.try_acquire(), None);
}
