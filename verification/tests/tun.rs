use dashmap::DashMap;
use swifttunnel_relay::addr::{IpAddr, Ipv4Addr, SocketAddr};
use swifttunnel_relay::checksum::calculate_ip_checksum;
use swifttunnel_relay::rewrite::{
    ipv4_is_fragment, recalculate_ip_checksum, recalculate_tcp_checksum, recalculate_udp_checksum,
    rewrite_dst_ip, rewrite_src_ip, IPPROTO_TCP, IPPROTO_UDP,
};
use swifttunnel_relay::tun::{assign_session_ip, InboundTunPacket, SessionMapping, TunHandler};

fn endpoint(a: u8, b: u8, c: u8, d: u8, port: u16) -> SocketAddr {
    SocketAddr { ip: IpAddr::V4(Ipv4Addr::new(a, b, c, d)), port }
}

fn make_tcp_packet(src: Ipv4Addr, dst: Ipv4Addr) -> Vec<u8> {
    // IPv4 header (20 bytes) + TCP header (20 bytes) + 4 bytes payload = 44 bytes.
    let total_len: u16 = 44;
    let mut pkt = vec![0u8; total_len as usize];

    // Version (4) + IHL (5 = 20 bytes).
    pkt[0] = 0x45;
    // Total length.
    pkt[2] = (total_len >> 8) as u8;
    pkt[3] = (total_len & 0xFF) as u8;
    // TTL.
    pkt[8] = 64;
    // Protocol = TCP.
    pkt[9] = IPPROTO_TCP;
    // Source IP.
    let s = src.octets();
    pkt[12..16].copy_from_slice(&s);
    // Destination IP.
    let d = dst.octets();
    pkt[16..20].copy_from_slice(&d);

    // TCP header starts at offset 20.
    // Source port = 12345 (0x3039).
    pkt[20] = 0x30;
    pkt[21] = 0x39;
    // Dest port = 80 (0x0050).
    pkt[22] = 0x00;
    pkt[23] = 0x50;
    // Data offset: 5 (20 bytes) in upper nibble of byte 32.
    pkt[32] = 0x50;
    // Payload bytes (arbitrary).
    pkt[40] = 0xDE;
    pkt[41] = 0xAD;
    pkt[42] = 0xBE;
    pkt[43] = 0xEF;

    // Compute checksums.
    recalculate_ip_checksum(&mut pkt);
    recalculate_tcp_checksum(&mut pkt);

    pkt
}

fn make_udp_packet(src: Ipv4Addr, dst: Ipv4Addr, checksum: u16) -> Vec<u8> {
    let payload = [0xAA, 0xBB, 0xCC, 0xDD];
    let total_len: u16 = 20 + 8 + payload.len() as u16;
    let mut pkt = vec![0u8; total_len as usize];

    pkt[0] = 0x45;
    pkt[2] = (total_len >> 8) as u8;
    pkt[3] = (total_len & 0xFF) as u8;
    pkt[8] = 64;
    pkt[9] = IPPROTO_UDP;
    pkt[12..16].copy_from_slice(&src.octets());
    pkt[16..20].copy_from_slice(&dst.octets());

    let udp_len = 8 + payload.len() as u16;
    pkt[20] = 0x30;
    pkt[21] = 0x39;
    pkt[22] = 0x00;
    pkt[23] = 0x35;
    pkt[24] = (udp_len >> 8) as u8;
    pkt[25] = (udp_len & 0xFF) as u8;
    pkt[26] = (checksum >> 8) as u8;
    pkt[27] = (checksum & 0xFF) as u8;
    pkt[28..32].copy_from_slice(&payload);

    recalculate_ip_checksum(&mut pkt);
    if checksum != 0 {
        recalculate_udp_checksum(&mut pkt);
    }

    pkt
}

fn make_udp_fragment_pair(src: Ipv4Addr, dst: Ipv4Addr) -> (Vec<u8>, Vec<u8>) {
    let payload = b"fragmented-udp-checksum-path".to_vec();
    let udp_len = 8 + payload.len();

    let mut udp_datagram = Vec::with_capacity(udp_len);
    udp_datagram.extend_from_slice(&0x3039u16.to_be_bytes());
    udp_datagram.extend_from_slice(&0x0035u16.to_be_bytes());
    udp_datagram.extend_from_slice(&(udp_len as u16).to_be_bytes());
    udp_datagram.extend_from_slice(&0u16.to_be_bytes());
    udp_datagram.extend_from_slice(&payload);

    let mut pseudo = [0u8; 12];
    pseudo[0..4].copy_from_slice(&src.octets());
    pseudo[4..8].copy_from_slice(&dst.octets());
    pseudo[8] = 0;
    pseudo[9] = IPPROTO_UDP;
    pseudo[10..12].copy_from_slice(&(udp_len as u16).to_be_bytes());

    let mut checksum_input = pseudo.to_vec();
    checksum_input.extend_from_slice(&udp_datagram);
    let checksum = calculate_ip_checksum(&checksum_input);
    let checksum = if checksum == 0 { 0xFFFF } else { checksum };
    udp_datagram[6..8].copy_from_slice(&checksum.to_be_bytes());

    let first_payload = udp_datagram[..24].to_vec();
    let second_payload = udp_datagram[24..].to_vec();

    let build_fragment = |payload: &[u8], fragment_offset_blocks: u16, more_fragments: bool| {
        let total_len: u16 = (20 + payload.len()) as u16;
        let mut pkt = vec![0u8; total_len as usize];
        pkt[0] = 0x45;
        pkt[2] = (total_len >> 8) as u8;
        pkt[3] = (total_len & 0xFF) as u8;
        pkt[4] = 0x12;
        pkt[5] = 0x34;
        let fragment_bits =
            (fragment_offset_blocks & 0x1FFF) | if more_fragments { 0x2000 } else { 0 };
        pkt[6..8].copy_from_slice(&fragment_bits.to_be_bytes());
        pkt[8] = 64;
        pkt[9] = IPPROTO_UDP;
        pkt[12..16].copy_from_slice(&src.octets());
        pkt[16..20].copy_from_slice(&dst.octets());
        pkt[20..].copy_from_slice(payload);
        recalculate_ip_checksum(&mut pkt);
        pkt
    };

    (
        build_fragment(&first_payload, 0, true),
        build_fragment(&second_payload, 3, false),
    )
}

/// Verify that the IP checksum validates to zero when checked.
fn verify_ip_checksum(packet: &[u8]) -> bool {
    let ihl = ((packet[0] & 0x0F) as usize) * 4;
    calculate_ip_checksum(&packet[..ihl]) == 0
}

/// Verify that the TCP checksum validates by recomputing and comparing.
fn verify_tcp_checksum(packet: &[u8]) -> bool {
    let mut clone = packet.to_vec();
    recalculate_tcp_checksum(&mut clone);
    // If the original checksum was correct, recomputing should produce the same bytes.
    let ihl = ((packet[0] & 0x0F) as usize) * 4;
    clone[ihl + 16] == packet[ihl + 16] && clone[ihl + 17] == packet[ihl + 17]
}

fn verify_udp_checksum(packet: &[u8]) -> bool {
    let ihl = ((packet[0] & 0x0F) as usize) * 4;
    let checksum = u16::from_be_bytes([packet[ihl + 6], packet[ihl + 7]]);
    if checksum == 0 {
        return true;
    }
    let mut clone = packet.to_vec();
    recalculate_udp_checksum(&mut clone);
    clone[ihl + 6] == packet[ihl + 6] && clone[ihl + 7] == packet[ihl + 7]
}

fn reassemble_udp_fragments(first: &[u8], second: &[u8]) -> Vec<u8> {
    let mut packet = first.to_vec();
    packet[2..4]
        .copy_from_slice(&((20 + first.len() + second.len() - 40) as u16).to_be_bytes());
    packet[6..8].copy_from_slice(&0u16.to_be_bytes());
    packet.extend_from_slice(&second[20..]);
    recalculate_ip_checksum(&mut packet);
    packet
}

#[test]
fn test_ip_checksum_round_trip() {
    let pkt = make_tcp_packet(
        Ipv4Addr::new(192, 168, 1, 100),
        Ipv4Addr::new(93, 184, 216, 34),
    );
    assert!(verify_ip_checksum(&pkt));
}

#[test]
fn test_tcp_checksum_round_trip() {
    let pkt = make_tcp_packet(
        Ipv4Addr::new(192, 168, 1, 100),
        Ipv4Addr::new(93, 184, 216, 34),
    );
    assert!(verify_tcp_checksum(&pkt));
}

#[test]
fn test_rewrite_src_preserves_checksums() {
    let mut pkt = make_tcp_packet(
        Ipv4Addr::new(192, 168, 1, 100),
        Ipv4Addr::new(93, 184, 216, 34),
    );
    let new_src = Ipv4Addr::new(10, 200, 42, 7);
    rewrite_src_ip(&mut pkt, new_src);

    // Verify new source IP is in place.
    assert_eq!(&pkt[12..16], &new_src.octets());
    // Verify checksums are valid.
    assert!(verify_ip_checksum(&pkt));
    assert!(verify_tcp_checksum(&pkt));
}

#[test]
fn test_rewrite_dst_preserves_checksums() {
    let mut pkt = make_tcp_packet(
        Ipv4Addr::new(192, 168, 1, 100),
        Ipv4Addr::new(93, 184, 216, 34),
    );
    let new_dst = Ipv4Addr::new(10, 0, 0, 1);
    rewrite_dst_ip(&mut pkt, new_dst);

    assert_eq!(&pkt[16..20], &new_dst.octets());
    assert!(verify_ip_checksum(&pkt));
    assert!(verify_tcp_checksum(&pkt));
}

#[test]
fn test_rewrite_both_directions() {
    let original_src = Ipv4Addr::new(172, 16, 0, 50);
    let original_dst = Ipv4Addr::new(1, 2, 3, 4);
    let mut pkt = make_tcp_packet(original_src, original_dst);

    // Simulate client -> TUN: rewrite src.
    let tun_ip = Ipv4Addr::new(10, 200, 0xAA, 0xBB);
    rewrite_src_ip(&mut pkt, tun_ip);
    assert_eq!(&pkt[12..16], &tun_ip.octets());
    assert_eq!(&pkt[16..20], &original_dst.octets());
    assert!(verify_ip_checksum(&pkt));
    assert!(verify_tcp_checksum(&pkt));

    // Simulate TUN -> client: rewrite dst back.
    rewrite_dst_ip(&mut pkt, original_src);
    assert_eq!(&pkt[12..16], &tun_ip.octets());
    assert_eq!(&pkt[16..20], &original_src.octets());
    assert!(verify_ip_checksum(&pkt));
    assert!(verify_tcp_checksum(&pkt));
}

#[test]
fn test_rewrite_udp_preserves_nonzero_checksum() {
    let mut pkt = make_udp_packet(
        Ipv4Addr::new(192, 168, 1, 100),
        Ipv4Addr::new(1, 1, 1, 1),
        0x1234,
    );
    rewrite_src_ip(&mut pkt, Ipv4Addr::new(10, 200, 42, 7));
    rewrite_dst_ip(&mut pkt, Ipv4Addr::new(10, 0, 0, 1));
    assert!(verify_ip_checksum(&pkt));
    assert!(verify_udp_checksum(&pkt));
}

#[test]
fn test_rewrite_udp_preserves_zero_checksum_mode() {
    let mut pkt = make_udp_packet(
        Ipv4Addr::new(192, 168, 1, 100),
        Ipv4Addr::new(1, 1, 1, 1),
        0,
    );
    rewrite_src_ip(&mut pkt, Ipv4Addr::new(10, 200, 42, 7));
    let ihl = ((pkt[0] & 0x0F) as usize) * 4;
    assert_eq!(u16::from_be_bytes([pkt[ihl + 6], pkt[ihl + 7]]), 0);
    assert!(verify_ip_checksum(&pkt));
}

#[test]
fn test_ipv4_fragment_detection() {
    let (first, tail) =
        make_udp_fragment_pair(Ipv4Addr::new(192, 168, 1, 10), Ipv4Addr::new(8, 8, 8, 8));

    assert!(ipv4_is_fragment(&first));
    assert!(ipv4_is_fragment(&tail));
    assert!(!ipv4_is_fragment(&make_udp_packet(
        Ipv4Addr::new(192, 168, 1, 10),
        Ipv4Addr::new(8, 8, 8, 8),
        0x1234,
    )));
}

#[test]
fn test_rewrite_src_preserves_udp_fragment_payload_bytes() {
    let (mut pkt, _) =
        make_udp_fragment_pair(Ipv4Addr::new(192, 168, 1, 100), Ipv4Addr::new(1, 1, 1, 1));
    let before_transport = pkt[20..].to_vec();

    rewrite_src_ip(&mut pkt, Ipv4Addr::new(10, 200, 42, 7));

    assert_eq!(&pkt[20..26], &before_transport[20 - 20..26 - 20]);
    assert_eq!(&pkt[28..], &before_transport[8..]);
    assert!(verify_ip_checksum(&pkt));
}

#[test]
fn test_rewrite_dst_preserves_non_initial_udp_fragment_payload_bytes() {
    let (_, mut pkt) =
        make_udp_fragment_pair(Ipv4Addr::new(192, 168, 1, 100), Ipv4Addr::new(1, 1, 1, 1));
    let before_transport = pkt[20..].to_vec();

    rewrite_dst_ip(&mut pkt, Ipv4Addr::new(10, 200, 42, 7));

    assert_eq!(pkt[20..], before_transport);
    assert!(verify_ip_checksum(&pkt));
}

#[test]
fn test_rewrite_src_keeps_fragmented_udp_checksum_valid_after_reassembly() {
    let new_src = Ipv4Addr::new(10, 200, 42, 7);
    let (mut first, mut second) =
        make_udp_fragment_pair(Ipv4Addr::new(192, 168, 1, 100), Ipv4Addr::new(1, 1, 1, 1));

    rewrite_src_ip(&mut first, new_src);
    rewrite_src_ip(&mut second, new_src);

    let reassembled = reassemble_udp_fragments(&first, &second);
    assert_eq!(&reassembled[12..16], &new_src.octets());
    assert!(verify_ip_checksum(&reassembled));
    assert!(verify_udp_checksum(&reassembled));
}

#[test]
fn test_rewrite_dst_keeps_fragmented_udp_checksum_valid_after_reassembly() {
    let new_dst = Ipv4Addr::new(10, 0, 0, 1);
    let (mut first, mut second) =
        make_udp_fragment_pair(Ipv4Addr::new(192, 168, 1, 100), Ipv4Addr::new(1, 1, 1, 1));

    rewrite_dst_ip(&mut first, new_dst);
    rewrite_dst_ip(&mut second, new_dst);

    let reassembled = reassemble_udp_fragments(&first, &second);
    assert_eq!(&reassembled[16..20], &new_dst.octets());
    assert!(verify_ip_checksum(&reassembled));
    assert!(verify_udp_checksum(&reassembled));
}

/// Helper to create a SessionMapping for tests.
fn test_mapping(session_id: [u8; 8]) -> SessionMapping {
    SessionMapping {
        session_id,
        client_addr: endpoint(127, 0, 0, 1, 1234),
        original_src_ip: Ipv4Addr::new(192, 168, 1, 1),
    }
}

#[test]
fn test_assign_session_ip_basic() {
    let map: DashMap<u32, SessionMapping> = DashMap::new();
    let sid = [0x42, 0x07, 0xAA, 0xBB, 0xCC, 0xDD, 0xEE, 0xFF];
    let ip = assign_session_ip(&sid, &map);
    assert_eq!(ip, Ipv4Addr::new(10, 200, 0x42, 0x07));
}

#[test]
fn test_assign_session_ip_collision() {
    let map: DashMap<u32, SessionMapping> = DashMap::new();

    // First session claims 10.200.42.7.
    let sid1 = [0x2A, 0x07, 0x11, 0x22, 0x33, 0x44, 0x55, 0x66];
    let ip1 = assign_session_ip(&sid1, &map);
    map.insert(ip1.to_bits(), test_mapping(sid1));
    assert_eq!(ip1, Ipv4Addr::new(10, 200, 0x2A, 0x07));

    // Second session has same first two bytes but different remaining.
    let sid2 = [0x2A, 0x07, 0x77, 0x88, 0x99, 0xAA, 0xBB, 0xCC];
    let ip2 = assign_session_ip(&sid2, &map);
    // Should fall back to bytes 2,3 since 0,1 collide.
    assert_eq!(ip2, Ipv4Addr::new(10, 200, 0x77, 0x88));
}

#[test]
fn test_assign_session_ip_skips_zero() {
    let map: DashMap<u32, SessionMapping> = DashMap::new();
    let sid = [0x00, 0x00, 0xAA, 0xBB, 0xCC, 0xDD, 0xEE, 0xFF];
    let ip = assign_session_ip(&sid, &map);
    // First pair (0,0) is skipped, should use (0xAA, 0xBB).
    assert_eq!(ip, Ipv4Addr::new(10, 200, 0xAA, 0xBB));
}

#[test]
fn test_assign_session_ip_reserved_pairs_fallback() {
    let map: DashMap<u32, SessionMapping> = DashMap::new();
    let sid = [0x00, 0x00, 0xFF, 0xFF, 0x00, 0x00, 0xFF, 0xFF];
    let ip = assign_session_ip(&sid, &map);
    assert_eq!(ip, Ipv4Addr::new(10, 200, 0, 1));
}

#[test]
fn rewriting_touches_only_the_address_and_the_checksums() {
    let before = make_tcp_packet(
        Ipv4Addr::new(192, 168, 1, 100),
        Ipv4Addr::new(93, 184, 216, 34),
    );
    let mut after = before.clone();
    rewrite_src_ip(&mut after, Ipv4Addr::new(10, 200, 42, 7));
    for i in 0..before.len() {
        let may_change = (10..16).contains(&i) || i == 36 || i == 37;
        assert!(may_change || before[i] == after[i], "byte {i}");
    }
    rewrite_src_ip(&mut after, Ipv4Addr::new(192, 168, 1, 100));
    assert_eq!(after, before);
}

#[test]
fn headers_with_options_are_rewritten_too() {
    let plain = make_udp_packet(
        Ipv4Addr::new(192, 168, 1, 100),
        Ipv4Addr::new(1, 1, 1, 1),
        0x1234,
    );
    let mut pkt = plain[..20].to_vec();
    pkt.extend_from_slice(&[1, 1, 1, 0]);
    pkt.extend_from_slice(&plain[20..]);
    pkt[0] = 0x46;
    pkt[3] += 4;
    recalculate_ip_checksum(&mut pkt);
    recalculate_udp_checksum(&mut pkt);
    assert!(verify_ip_checksum(&pkt) && verify_udp_checksum(&pkt));
    rewrite_dst_ip(&mut pkt, Ipv4Addr::new(9, 9, 9, 9));
    assert_eq!(&pkt[16..20], &[9, 9, 9, 9]);
    assert!(verify_ip_checksum(&pkt) && verify_udp_checksum(&pkt));
}

fn from_client(session: u64, port: u16, src: Ipv4Addr) -> InboundTunPacket {
    InboundTunPacket {
        session_id: session.to_be_bytes(),
        client_addr: endpoint(203, 0, 113, 9, port),
        raw_ip_packet: make_tcp_packet(src, Ipv4Addr::new(93, 184, 216, 34)),
    }
}

#[test]
fn replies_reach_the_sender() {
    let mut handler = TunHandler::new();
    let src = Ipv4Addr::new(10, 0, 0, 5);
    let out = handler.outbound(from_client(0x2A07_0102_0304_0506, 4000, src)).unwrap();
    assert_eq!(&out[12..16], &[10, 200, 0x2A, 0x07]);
    assert!(verify_ip_checksum(&out) && verify_tcp_checksum(&out));

    let reply = make_tcp_packet(
        Ipv4Addr::new(93, 184, 216, 34),
        Ipv4Addr::new(10, 200, 0x2A, 0x07),
    );
    let back = handler.inbound(&reply).unwrap();
    assert_eq!(back.session_id, 0x2A07_0102_0304_0506u64.to_be_bytes());
    assert_eq!(back.client_addr, endpoint(203, 0, 113, 9, 4000));
    assert_eq!(&back.ip_packet[16..20], &src.octets());
    assert!(verify_ip_checksum(&back.ip_packet) && verify_tcp_checksum(&back.ip_packet));
}

#[test]
fn sessions_keep_their_addresses_and_follow_their_clients() {
    let mut handler = TunHandler::new();
    let src = Ipv4Addr::new(10, 0, 0, 5);
    let first = handler.outbound(from_client(0x2A07_0102_0304_0506, 4000, src)).unwrap();
    let second = handler.outbound(from_client(0x2A07_1111_2222_3333, 4001, src)).unwrap();
    assert_eq!(&second[12..16], &[10, 200, 0x11, 0x11]);
    let again = handler.outbound(from_client(0x2A07_0102_0304_0506, 4002, src)).unwrap();
    assert_eq!(again[12..16], first[12..16]);
    let reply = make_tcp_packet(
        Ipv4Addr::new(93, 184, 216, 34),
        Ipv4Addr::new(10, 200, 0x2A, 0x07),
    );
    assert_eq!(handler.inbound(&reply).unwrap().client_addr.port, 4002);
}

#[test]
fn packets_for_nobody_are_dropped() {
    let mut handler = TunHandler::new();
    let reply = make_tcp_packet(Ipv4Addr::new(1, 2, 3, 4), Ipv4Addr::new(10, 200, 1, 1));
    assert!(handler.inbound(&reply).is_none());
    assert!(handler.inbound(&reply[..19]).is_none());
    let mut short = from_client(1, 4000, Ipv4Addr::new(10, 0, 0, 5));
    short.raw_ip_packet.truncate(19);
    assert!(handler.outbound(short).is_none());
    assert!(handler.sessions.ip_to_session.is_empty());
}

#[test]
fn expired_sessions_give_their_addresses_back() {
    let mut handler = TunHandler::new();
    let src = Ipv4Addr::new(10, 0, 0, 5);
    handler.outbound(from_client(0x2A07_0102_0304_0506, 4000, src));
    handler.outbound(from_client(0x1111_0102_0304_0506, 4001, src));
    handler.sessions.remove_expired(|id: &[u8; 8]| id[0] == 0x2A);
    assert_eq!(handler.sessions.ip_to_session.len(), 1);
    assert_eq!(handler.sessions.session_to_ip.len(), 1);
    let gone = make_tcp_packet(
        Ipv4Addr::new(93, 184, 216, 34),
        Ipv4Addr::new(10, 200, 0x11, 0x11),
    );
    assert!(handler.inbound(&gone).is_none());
    let kept = make_tcp_packet(
        Ipv4Addr::new(93, 184, 216, 34),
        Ipv4Addr::new(10, 200, 0x2A, 0x07),
    );
    assert!(handler.inbound(&kept).is_some());
}

#[test]
fn the_last_pair_is_shared_when_all_collide() {
    let mut handler = TunHandler::new();
    let src = Ipv4Addr::new(10, 0, 0, 5);
    let owner = 0x0101_0101_0101_0101u64;
    handler.outbound(from_client(owner, 4000, src));
    let second = 0x0101_0000_FFFF_0101u64;
    let out = handler.outbound(from_client(second, 4001, src)).unwrap();
    assert_eq!(&out[12..16], &[10, 200, 1, 1]);
    let reply = make_tcp_packet(
        Ipv4Addr::new(93, 184, 216, 34),
        Ipv4Addr::new(10, 200, 1, 1),
    );
    let back = handler.inbound(&reply).unwrap();
    assert_eq!(back.session_id, owner.to_be_bytes());
    assert_eq!(back.client_addr.port, 4001);
}

#[test]
fn test_runt_packet_ignored() {
    // Packet too short for IPv4 header.
    let mut pkt = vec![0x45, 0x00, 0x00, 0x14];
    rewrite_src_ip(&mut pkt, Ipv4Addr::new(10, 0, 0, 1));
    // Should be a no-op (no panic).
    assert_eq!(pkt.len(), 4);
}
