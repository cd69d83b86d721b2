use base64::engine::general_purpose::URL_SAFE_NO_PAD;
use base64::Engine;
use ring::signature::{Ed25519KeyPair, KeyPair};
use serde_json::{Map as JsonObject, Value};
use swifttunnel_relay::addr::{IpAddr, Ipv4Addr, SocketAddr};
use swifttunnel_relay::auth::{RelayAuthConfig, RelayAuthMode, RelayTicketClaims, SessionAuthState};
use swifttunnel_relay::config::RelayDatapath;
use swifttunnel_relay::dest_policy::{default_tcp_ports, DestPolicy, Mode};
use swifttunnel_relay::flow_handler::{
    FlowHandler, HandlerStep, IoErrorKind, ResponseStep, MAX_CONSECUTIVE_ERRORS,
};
use swifttunnel_relay::flows::{flow_key, FlowStep, V1Flows};
use swifttunnel_relay::frame::{classify, FrameKind};
use swifttunnel_relay::limits::MAX_SESSIONS_PER_SRC_IP;
use swifttunnel_relay::packet::build_response_ip_packet;
use swifttunnel_relay::relay::{forwarding_addr, Action, Arrival, Relay};
use swifttunnel_relay::source::source_session_count;

const SECOND: u64 = 1_000_000_000;
const START: u64 = 1_000 * SECOND;
const NOW_UNIX: u64 = 1_739_790_000;

fn decode_claims(bytes: &[u8]) -> Option<RelayTicketClaims> {
    let value: Value = serde_json::from_slice(bytes).ok()?;
    let text = |name: &str| Some(value.get(name)?.as_str()?.to_string());
    Some(RelayTicketClaims {
        v: u8::try_from(value.get("v")?.as_u64()?).ok()?,
        iss: text("iss")?,
        aud: text("aud")?,
        sub: text("sub")?,
        sid: text("sid")?,
        srv: text("srv")?,
        iat: value.get("iat")?.as_u64()?,
        exp: value.get("exp")?.as_u64()?,
        jti: text("jti")?,
        lease: value.get("lease")?.as_bool()?,
    })
}

/// An auth hello for session 1, signed by `key`.
fn hello_with(key: &Ed25519KeyPair, owner: &str, jti: &str, lease: bool) -> Vec<u8> {
    let mut claims = JsonObject::new();
    claims.insert("v".to_string(), Value::from(1));
    for (name, value) in [
        ("iss", "swifttunnel-web"),
        ("aud", "swifttunnel-relay"),
        ("sub", owner),
        ("sid", "0000000000000001"),
        ("srv", "local-test"),
        ("jti", jti),
    ] {
        claims.insert(name.to_string(), Value::from(value));
    }
    claims.insert("iat".to_string(), Value::from(NOW_UNIX));
    claims.insert("exp".to_string(), Value::from(NOW_UNIX + 300));
    claims.insert("lease".to_string(), Value::from(lease));
    let payload = serde_json::to_vec(&Value::Object(claims)).unwrap();
    let token = format!(
        "{}.{}",
        URL_SAFE_NO_PAD.encode(&payload),
        URL_SAFE_NO_PAD.encode(key.sign(&payload).as_ref())
    );
    let mut frame = 1u64.to_be_bytes().to_vec();
    frame.push(0xa1);
    frame.extend_from_slice(&(token.len() as u16).to_be_bytes());
    frame.extend_from_slice(token.as_bytes());
    frame
}

fn hello(key: &Ed25519KeyPair, owner: &str, jti: &str) -> Vec<u8> {
    hello_with(key, owner, jti, true)
}

fn ping() -> Vec<u8> {
    let mut frame = 1u64.to_be_bytes().to_vec();
    frame.push(0xa3);
    frame.extend_from_slice(&[0; 12]);
    frame
}

/// One UDP packet for session 1, from the client's tunnel address.
fn udp_frame(dst: [u8; 4], dst_port: u16) -> Vec<u8> {
    let mut ip = [0u8; 32];
    ip[0] = 0x45;
    ip[2..4].copy_from_slice(&32u16.to_be_bytes());
    ip[8] = 64;
    ip[9] = 17;
    ip[12..16].copy_from_slice(&[10, 0, 0, 1]);
    ip[16..20].copy_from_slice(&dst);
    ip[20..22].copy_from_slice(&40000u16.to_be_bytes());
    ip[22..24].copy_from_slice(&dst_port.to_be_bytes());
    ip[24..26].copy_from_slice(&12u16.to_be_bytes());
    ip[28..32].copy_from_slice(b"ping");
    let mut frame = 1u64.to_be_bytes().to_vec();
    frame.extend_from_slice(&ip);
    frame
}

fn endpoint(port: u16) -> SocketAddr {
    SocketAddr { ip: IpAddr::V4(Ipv4Addr::new(127, 0, 0, 1)), port }
}

fn from(port: u16) -> Arrival {
    Arrival { client_addr: endpoint(port), now: START, now_unix: NOW_UNIX, uptime_ms: 7 }
}

fn signing_key() -> Ed25519KeyPair {
    Ed25519KeyPair::from_seed_unchecked(&[42; 32]).unwrap()
}

fn relay_with(mode: RelayAuthMode, policy: DestPolicy, tcp: bool, tun_udp: bool) -> Relay {
    let auth = RelayAuthConfig {
        mode,
        public_key: Some(signing_key().public_key().as_ref().to_vec()),
        server_id: Some("local-test".to_string()),
    };
    Relay::new(auth, tcp, tun_udp, RelayDatapath::V1, policy, START)
}

fn relay() -> Relay {
    let policy = DestPolicy::build(Mode::Observe, None, default_tcp_ports());
    relay_with(RelayAuthMode::Required, policy, false, false)
}

fn open_relay(tcp: bool, tun_udp: bool) -> Relay {
    let policy = DestPolicy::build(Mode::Off, None, default_tcp_ports());
    relay_with(RelayAuthMode::Off, policy, tcp, tun_udp)
}

fn reply(relay: &mut Relay, frame: &[u8], port: u16) -> Vec<u8> {
    match relay.receive(frame, from(port), decode_claims) {
        Action::Reply(reply) => reply,
        _ => panic!("no reply"),
    }
}

fn forwarded(action: &Action) -> bool {
    matches!(action, Action::Forward { .. })
}

#[test]
fn both_datapaths_require_the_owner_before_changing_the_endpoint() {
    let key = signing_key();
    let mut relay = relay();
    let (original, changed) = (4000, 4001);
    for sid in 2..100u64 {
        relay.receive(&sid.to_be_bytes(), from(original), decode_claims);
    }
    assert_eq!(relay.stats.active_sessions, 0, "unsigned traffic allocated sessions");
    assert_eq!(reply(&mut relay, &hello(&key, "owner", "first"), original)[9], 0);
    assert_eq!(reply(&mut relay, &ping(), changed)[9], 9, "NAT change must request proof");
    assert_eq!(reply(&mut relay, &hello(&key, "other", "wrong-owner"), changed)[9], 8);
    assert_ne!(
        reply(&mut relay, &ping(), original).get(9),
        Some(&9),
        "rejected ticket changed endpoint"
    );
    assert_eq!(reply(&mut relay, &hello(&key, "owner", "fresh"), changed)[9], 0);
    assert_eq!(
        reply(&mut relay, &ping(), original)[9],
        9,
        "old endpoint still owns session"
    );
    assert_ne!(reply(&mut relay, &ping(), changed).get(9), Some(&9));
}

#[test]
fn both_datapaths_refuse_unlisted_destinations_only_when_enforcing() {
    for mode in [Mode::Observe, Mode::Enforce] {
        let policy = DestPolicy::build(
            mode,
            Some(("list".to_string(), Ok("198.51.100.0/24\n".to_string()))),
            default_tcp_ports(),
        );
        let mut relay = relay_with(RelayAuthMode::Required, policy, false, false);
        assert_eq!(reply(&mut relay, &hello(&signing_key(), "owner", "t"), 4000)[9], 0);
        for dst in [[198, 51, 100, 10], [203, 0, 113, 10]] {
            relay.receive(&udp_frame(dst, 50000), from(4000), decode_claims);
        }
        let policy = relay.policy.snapshot();
        assert_eq!(policy.mode, mode.as_str());
        // Exactly one: the listed packet was judged too, and not counted.
        assert_eq!(policy.counters.udp_unlisted, 1);
        assert_eq!(policy.networks[0].network, "203.0.113.0/24");

        // The datapath's own drop counter: refused, not merely counted.
        let expected = u64::from(mode == Mode::Enforce);
        assert_eq!(policy.counters.dropped, expected);
        assert_eq!(relay.stats.drop_reasons.forbidden_dst, expected);

        // First fragments still contain the destination port. Fragmenting
        // TCP must not evade port observation/enforcement, and fragmenting
        // UDP must not bypass the existing forbidden-port rule.
        for (protocol, dst_port) in [(6, 22), (17, 53)] {
            let mut frame = udp_frame([198, 51, 100, 10], dst_port);
            frame.truncate(8 + 28);
            frame[8 + 2..8 + 4].copy_from_slice(&28u16.to_be_bytes());
            frame[8 + 6] = 0x20;
            frame[8 + 9] = protocol;
            relay.receive(&frame, from(4000), decode_claims);
        }
        assert_eq!(relay.policy.snapshot().counters.tcp_unlisted_port, 1);
        assert_eq!(relay.stats.drop_reasons.forbidden_dst, 1 + 2 * expected);
    }
}

#[test]
fn v1_keeps_receiving_after_opening_udp_flows() {
    let mut relay = relay();
    let mut flows = V1Flows::new();
    assert_eq!(reply(&mut relay, &hello(&signing_key(), "owner", "t"), 4000)[9], 0);
    for dst in [[198, 51, 100, 20], [203, 0, 113, 20]] {
        match relay.receive(&udp_frame(dst, 50000), from(4000), decode_claims) {
            Action::Forward { original_info, payload, .. } => {
                assert_eq!(payload, b"ping");
                assert_eq!(
                    flows.use_flow(
                        &mut relay.limiter,
                        &mut relay.stats,
                        1,
                        endpoint(4000),
                        original_info,
                        START
                    ),
                    FlowStep::Opened
                );
            }
            _ => panic!("not forwarded"),
        }
    }
    assert_eq!(flows.len(), 2);
    assert_eq!(reply(&mut relay, &ping(), 4000)[8], 0xa4);
    // The session saw every frame: the hello, both packets and the ping.
    assert_eq!(relay.traffic.get(1).unwrap().packets_in, 4);
}

#[test]
fn every_refused_ticket_is_answered_and_changes_nothing() {
    let key = signing_key();
    let mut relay = relay();
    assert_eq!(reply(&mut relay, &hello(&key, "owner", "first"), 4000)[9], 0);
    // The same ticket again.
    assert_eq!(reply(&mut relay, &hello(&key, "owner", "first"), 4001)[9], 7);
    // A signature by another key.
    let stranger = Ed25519KeyPair::from_seed_unchecked(&[43; 32]).unwrap();
    assert_eq!(reply(&mut relay, &hello(&stranger, "owner", "second"), 4001)[9], 2);
    // A frame that is cut short.
    let whole = hello(&key, "owner", "third");
    assert_eq!(reply(&mut relay, &whole[..whole.len() - 1], 4001)[9], 1);
    // A ticket for another session.
    let mut other = hello(&key, "owner", "fourth");
    other[7] = 2;
    assert_eq!(reply(&mut relay, &other, 4001)[9], 4);
    assert_eq!(relay.stats.active_sessions, 1);
    assert_eq!(relay.sessions.get(1).unwrap().client_addr, endpoint(4000));
    assert_eq!(relay.sessions.get(1).unwrap().user_id, "owner");
}

#[test]
fn tickets_are_not_taken_when_authentication_is_off() {
    let mut relay = open_relay(false, false);
    let ack = reply(&mut relay, &hello(&signing_key(), "owner", "first"), 4000);
    assert_eq!(ack, vec![0, 0, 0, 0, 0, 0, 0, 1, 0xa2, 6]);
}

#[test]
fn sessions_need_no_ticket_when_authentication_is_off() {
    let mut relay = open_relay(false, false);
    relay.receive(&1u64.to_be_bytes(), from(4000), decode_claims);
    assert_eq!(relay.sessions.get(1).unwrap().user_id, "session-0000000000000001");
    let action = relay.receive(&udp_frame([198, 51, 100, 10], 50000), from(4000), decode_claims);
    match action {
        Action::Forward { game_addr, payload, original_info } => {
            assert_eq!(game_addr.ip, IpAddr::V4(Ipv4Addr::new(198, 51, 100, 10)));
            assert_eq!(game_addr.port, 50000);
            assert_eq!(payload, b"ping");
            assert_eq!(original_info.src_port, 40000);
        }
        _ => panic!("not forwarded"),
    }
    let session = relay.sessions.get(1).unwrap();
    assert_eq!(session.user_id, "10.0.0.1", "known by its tunnel address");
    assert_eq!(session.auth_state, SessionAuthState::Legacy);
    assert_eq!(source_session_count(&relay.source_counts, endpoint(4000).ip), 1);
    assert_eq!(relay.stats.packets_in, 2);
    assert_eq!(relay.stats.bytes_in, 48);
}

#[test]
fn pings_are_echoed_with_the_relays_clock() {
    let mut relay = open_relay(false, false);
    let mut frame = 1u64.to_be_bytes().to_vec();
    frame.push(0xa3);
    frame.extend_from_slice(&[1, 2, 3, 4, 5, 6, 7, 8, 9, 10, 11, 12]);
    let pong = reply(&mut relay, &frame, 4000);
    let mut expected = frame.clone();
    expected[8] = 0xa4;
    expected.extend_from_slice(&7u64.to_be_bytes());
    assert_eq!(pong, expected);
}

#[test]
fn round_trips_are_recorded() {
    let mut relay = open_relay(false, false);
    relay.receive(&udp_frame([198, 51, 100, 10], 50000), from(4000), decode_claims);
    let mut frame = 1u64.to_be_bytes().to_vec();
    frame.push(0xa5);
    frame.extend_from_slice(&31_000u32.to_be_bytes());
    relay.receive(&frame, from(4000), decode_claims);
    assert_eq!(relay.traffic.get(1).unwrap().last_rtt_us, 31_000);
}

#[test]
fn frames_are_told_apart_by_type_and_length() {
    let id = [0u8; 8];
    let with = |rest: &[u8]| {
        let mut frame = id.to_vec();
        frame.extend_from_slice(rest);
        classify(&frame)
    };
    assert_eq!(classify(&id[..7]), FrameKind::TooShort);
    assert_eq!(with(&[]), FrameKind::Keepalive);
    assert_eq!(with(&[0xa1, 0, 0]), FrameKind::Hello);
    assert_eq!(with(&[0xa1, 0]), FrameKind::Packet);
    assert_eq!(with(&[0xa6]), FrameKind::Resolve);
    assert_eq!(classify(&ping()), FrameKind::Ping);
    assert_eq!(with(&[0xa3; 14]), FrameKind::Packet);
    assert_eq!(with(&[0xa5, 0, 0, 0, 0]), FrameKind::RttReport);
    assert_eq!(classify(&udp_frame([1, 1, 1, 1], 1)), FrameKind::Packet);
}

#[test]
fn drops_are_told_apart() {
    let mut relay = open_relay(false, false);
    relay.receive(&[0; 7], from(4000), decode_claims);
    assert_eq!(relay.stats.drop_reasons.too_small, 1);
    let mut junk = 1u64.to_be_bytes().to_vec();
    junk.extend_from_slice(&[0; 30]);
    relay.receive(&junk, from(4000), decode_claims);
    assert_eq!(relay.stats.drop_reasons.parse, 1);
    relay.receive(&udp_frame([10, 0, 0, 9], 50000), from(4000), decode_claims);
    assert_eq!(relay.stats.drop_reasons.forbidden_dst, 1);
    let mut tcp = 1u64.to_be_bytes().to_vec();
    let mut ip = vec![0u8; 40];
    ip[0] = 0x45;
    ip[3] = 40;
    ip[9] = 6;
    ip[16..20].copy_from_slice(&[198, 51, 100, 10]);
    ip[32] = 0x50;
    tcp.extend_from_slice(&ip);
    relay.receive(&tcp, from(4000), decode_claims);
    assert_eq!(relay.stats.drop_reasons.tcp_disabled, 1);
    assert_eq!(relay.stats.dropped_in, 4);
}

#[test]
fn packets_go_to_the_device_when_it_is_on() {
    let mut relay = open_relay(true, true);
    let frame = udp_frame([198, 51, 100, 10], 50000);
    match relay.receive(&frame, from(4000), decode_claims) {
        Action::Tun { protocol, packet } => {
            assert_eq!(protocol, 17);
            assert_eq!(packet, frame[8..].to_vec());
        }
        _ => panic!("not sent to the device"),
    }
    relay.tun_handed(17, true);
    assert_eq!(relay.stats.tun_udp_forwarded, 1);
    relay.tun_handed(6, true);
    assert_eq!(relay.stats.tcp_forwarded, 1);
    relay.tun_handed(6, false);
    assert_eq!(relay.stats.drop_reasons.tun_queue, 1);
}

#[test]
fn idle_sessions_are_forgotten() {
    let mut relay = open_relay(false, false);
    relay.receive(&udp_frame([198, 51, 100, 10], 50000), from(4000), decode_claims);
    assert!(relay.expire_sessions(START + 210 * SECOND - 1).is_empty());
    assert_eq!(relay.expire_sessions(START + 210 * SECOND), vec![1]);
    assert_eq!(relay.stats.active_sessions, 0);
    assert!(relay.traffic.get(1).is_none());
    assert_eq!(source_session_count(&relay.source_counts, endpoint(4000).ip), 0);
}

/// Opens sessions from one source, as many as its rate allows in each second.
fn open_sessions(relay: &mut Relay, count: u64) {
    for sid in 0..count {
        let mut a = from(4000);
        a.now = START + sid / 200 * SECOND;
        relay.receive(&sid.to_be_bytes(), a, decode_claims);
    }
}

#[test]
fn only_the_first_datapath_limits_the_sessions_of_a_source() {
    let limit = MAX_SESSIONS_PER_SRC_IP as u64;
    let mut first = open_relay(false, false);
    open_sessions(&mut first, limit + 3);
    assert_eq!(first.stats.active_sessions, limit);
    assert_eq!(first.stats.drop_reasons.capacity, 3);

    let mut second = open_relay(false, false);
    second.datapath = RelayDatapath::V2;
    open_sessions(&mut second, limit + 3);
    assert_eq!(second.stats.active_sessions, limit + 3);
    assert_eq!(second.stats.drop_reasons.capacity, 0);
    assert_eq!(second.sessions.len() as u64, limit + 3);
}

#[test]
fn leases_end_service() {
    let mut relay = relay();
    assert_eq!(reply(&mut relay, &hello(&signing_key(), "owner", "first"), 4000)[9], 0);
    let mut late = from(4000);
    late.now_unix = NOW_UNIX + 299;
    let frame = udp_frame([198, 51, 100, 10], 50000);
    assert!(forwarded(&relay.receive(&frame, late, decode_claims)));
    assert_eq!(
        forwarding_addr(&relay.sessions, 1, true, NOW_UNIX + 299),
        Some(endpoint(4000))
    );
    late.now_unix = NOW_UNIX + 300;
    assert!(!forwarded(&relay.receive(&frame, late, decode_claims)));
    assert_eq!(relay.stats.drop_reasons.auth, 1);
    assert_eq!(forwarding_addr(&relay.sessions, 1, true, NOW_UNIX + 300), None);
    assert_eq!(forwarding_addr(&relay.sessions, 2, false, NOW_UNIX), None);
}

#[test]
fn what_is_sent_is_counted() {
    let mut relay = open_relay(false, false);
    relay.receive(&udp_frame([198, 51, 100, 10], 50000), from(4000), decode_claims);
    relay.frame_sent(1, 100, NOW_UNIX + 5);
    assert_eq!(relay.stats.packets_out, 1);
    assert_eq!(relay.stats.bytes_out, 100);
    let traffic = relay.traffic.get(1).unwrap();
    assert_eq!(traffic.bytes_out, 100);
    assert_eq!(traffic.last_activity_unix, NOW_UNIX + 5);
    // A pong is no activity.
    relay.reply_sent(1, 29);
    let traffic = relay.traffic.get(1).unwrap();
    assert_eq!(relay.stats.bytes_out, 129);
    assert_eq!((traffic.bytes_out, traffic.packets_out), (129, 2));
    assert_eq!(traffic.last_activity_unix, NOW_UNIX + 5);
}

#[test]
fn only_roblox_is_looked_up() {
    let mut relay = open_relay(false, false);
    let mut frame = 1u64.to_be_bytes().to_vec();
    frame.push(0xa6);
    frame.extend_from_slice(&[0x12, 0x34, 2]);
    for host in ["www.roblox.com", "evil.com"] {
        frame.push(host.len() as u8);
        frame.extend_from_slice(host.as_bytes());
    }
    match relay.receive(&frame, from(4000), decode_claims) {
        Action::Resolve { request_id, hosts } => {
            assert_eq!(request_id, 0x1234);
            assert_eq!(hosts, vec!["www.roblox.com".to_string()]);
        }
        _ => panic!("not looked up"),
    }
}

#[test]
fn the_second_datapath_takes_lookups_for_packets() {
    let mut relay = open_relay(false, false);
    relay.datapath = RelayDatapath::V2;
    let mut frame = 1u64.to_be_bytes().to_vec();
    frame.push(0xa6);
    frame.extend_from_slice(&[0x12, 0x34, 0]);
    assert!(matches!(relay.receive(&frame, from(4000), decode_claims), Action::Nothing));
    assert_eq!(relay.stats.drop_reasons.too_small, 1);
    frame.resize(8 + 20, 0);
    assert!(matches!(relay.receive(&frame, from(4000), decode_claims), Action::Nothing));
    assert_eq!(relay.stats.drop_reasons.parse, 1);
}

#[test]
fn flow_handlers_answer_the_flows_client() {
    let mut relay = open_relay(false, false);
    let mut flows = V1Flows::new();
    let frame = udp_frame([198, 51, 100, 10], 50000);
    let (game_addr, info) = match relay.receive(&frame, from(4000), decode_claims) {
        Action::Forward { game_addr, original_info, .. } => (game_addr, original_info),
        _ => panic!("not forwarded"),
    };
    flows.use_flow(&mut relay.limiter, &mut relay.stats, 1, endpoint(4000), info, START);
    let name = flow_key(1, info);
    assert_eq!(name, "0000000000000001:198.51.100.10:50000");
    let mut handler =
        FlowHandler::start(&mut relay, &mut flows, 1u64.to_be_bytes(), name, game_addr)
            .expect("a public address");
    assert_eq!(handler.idle(&flows), HandlerStep::Continue);
    match handler.responded(&mut relay, &mut flows, b"pong", START + SECOND, NOW_UNIX + 1) {
        ResponseStep::Send { client_addr, frame } => {
            assert_eq!(client_addr, endpoint(4000));
            let mut expected = 1u64.to_be_bytes().to_vec();
            expected.extend_from_slice(&build_response_ip_packet(b"pong", info));
            assert_eq!(frame, expected);
        }
        _ => panic!("no response"),
    }
    assert_eq!(relay.sessions.get(1).unwrap().last_activity, START + SECOND);
    // The flow is closed: the session is still there, then it is gone too.
    flows.close(1, &flow_key(1, info));
    assert_eq!(handler.idle(&flows), HandlerStep::Stop);
    assert!(matches!(
        handler.responded(&mut relay, &mut flows, b"pong", START, NOW_UNIX),
        ResponseStep::Skip
    ));
    relay.expire_sessions(START + 300 * SECOND);
    assert!(matches!(
        handler.responded(&mut relay, &mut flows, b"pong", START, NOW_UNIX),
        ResponseStep::Stop
    ));
}

#[test]
fn flow_handlers_give_up_after_repeated_errors() {
    let mut relay = open_relay(false, false);
    let mut flows = V1Flows::new();
    let game = SocketAddr { ip: IpAddr::V4(Ipv4Addr::new(198, 51, 100, 10)), port: 50000 };
    let mut handler =
        FlowHandler::start(&mut relay, &mut flows, [0; 8], "flow".to_string(), game).unwrap();
    for _ in 0..100 {
        assert_eq!(handler.receive_failed(IoErrorKind::WouldBlock), HandlerStep::Continue);
    }
    for _ in 1..MAX_CONSECUTIVE_ERRORS {
        assert_ne!(handler.receive_failed(IoErrorKind::Other), HandlerStep::Stop);
    }
    assert_eq!(handler.receive_failed(IoErrorKind::Other), HandlerStep::Stop);
    for _ in 1..MAX_CONSECUTIVE_ERRORS {
        assert_ne!(handler.sent(Some(IoErrorKind::Other)), HandlerStep::Stop);
    }
    assert_eq!(handler.sent(None), HandlerStep::Continue);
    assert_eq!(handler.consecutive_send_errors, 0);
    // Nothing is ever sent to a private address.
    let inside = SocketAddr { ip: IpAddr::V4(Ipv4Addr::new(10, 0, 0, 1)), port: 50000 };
    assert!(
        FlowHandler::start(&mut relay, &mut flows, [0; 8], "flow".to_string(), inside).is_none()
    );
    assert_eq!(relay.stats.drop_reasons.forbidden_dst, 1);
}
