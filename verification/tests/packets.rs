use swifttunnel_relay::addr::{IpAddr, Ipv4Addr};
use swifttunnel_relay::checksum::calculate_ip_checksum;
use swifttunnel_relay::packet::{
    build_response_ip_packet, build_response_ip_packet_with_tos, is_forbidden_dst,
    is_forbidden_dst_port, parse_ip_packet_full, OriginalPacketInfo, ParsedPacket,
    UDP_HEADER_SIZE,
};
use swifttunnel_relay::rewrite::IP_HEADER_MIN;

fn stamp_ipv4_lengths(packet: &mut [u8]) {
    let total_len = packet.len() as u16;
    packet[2..4].copy_from_slice(&total_len.to_be_bytes());
    let ihl = ((packet[0] & 0x0f) as usize) * 4;
    match packet[9] {
        17 if packet.len() >= ihl + UDP_HEADER_SIZE => {
            let udp_len = (packet.len() - ihl) as u16;
            packet[ihl + 4..ihl + 6].copy_from_slice(&udp_len.to_be_bytes());
        }
        6 if packet.len() >= ihl + 20 => {
            let data_offset = ihl + 12;
            if packet[data_offset] == 0 {
                packet[data_offset] = 0x50;
            }
        }
        _ => {}
    }
}

#[test]
fn test_parse_ip_packet_full() {
    // Build a test IPv4 UDP packet
    let mut packet = vec![0u8; 32];

    // IP version 4, IHL 5 (20 bytes)
    packet[0] = 0x45;
    // Protocol = UDP (17)
    packet[9] = 17;
    // Source IP = 10.0.0.5
    packet[12] = 10;
    packet[13] = 0;
    packet[14] = 0;
    packet[15] = 5;
    // Destination IP = 1.2.3.4
    packet[16] = 1;
    packet[17] = 2;
    packet[18] = 3;
    packet[19] = 4;
    // UDP source port = 54321 (0xD431)
    packet[20] = 0xD4;
    packet[21] = 0x31;
    // UDP dest port = 12345 (0x3039)
    packet[22] = 0x30;
    packet[23] = 0x39;
    // Payload
    packet[28..32].copy_from_slice(&[0xDE, 0xAD, 0xBE, 0xEF]);
    stamp_ipv4_lengths(&mut packet);

    let result = parse_ip_packet_full(&packet);
    assert!(result.is_some());

    let result = result.unwrap();
    match result {
        ParsedPacket::Udp {
            game_addr: addr,
            payload,
            original_info: info,
            ..
        } => {
            assert_eq!(addr.ip, IpAddr::V4(Ipv4Addr::new(1, 2, 3, 4)));
            assert_eq!(addr.port, 12345);
            assert_eq!(payload, &[0xDE, 0xAD, 0xBE, 0xEF]);
            assert_eq!(info.src_ip, Ipv4Addr::new(10, 0, 0, 5));
            assert_eq!(info.src_port, 54321);
            assert_eq!(info.dst_ip, Ipv4Addr::new(1, 2, 3, 4));
            assert_eq!(info.dst_port, 12345);
        }
        _ => panic!("Expected ParsedPacket::Udp"),
    }
}

#[test]
fn test_build_response_ip_packet() {
    let payload = &[0x01, 0x02, 0x03, 0x04];
    let original = OriginalPacketInfo {
        tos: 0x2e,
        src_ip: Ipv4Addr::new(10, 0, 0, 5),
        src_port: 54321,
        dst_ip: Ipv4Addr::new(1, 2, 3, 4),
        dst_port: 12345,
    };

    let packet = build_response_ip_packet(payload, original);

    // Check total length
    assert_eq!(packet.len(), 20 + 8 + 4); // IP + UDP + payload

    // Check IP version
    assert_eq!((packet[0] >> 4) & 0x0F, 4);
    assert_eq!(packet[1], 0x2e);

    // Check protocol is UDP
    assert_eq!(packet[9], 17);

    // Check source IP is now game server (was destination)
    assert_eq!(&packet[12..16], &[1, 2, 3, 4]);

    // Check destination IP is now client (was source)
    assert_eq!(&packet[16..20], &[10, 0, 0, 5]);

    // Check source port is now game server port
    let src_port = u16::from_be_bytes([packet[20], packet[21]]);
    assert_eq!(src_port, 12345);

    // Check destination port is now client port
    let dst_port = u16::from_be_bytes([packet[22], packet[23]]);
    assert_eq!(dst_port, 54321);

    // Check payload
    assert_eq!(&packet[28..32], payload);
}

#[test]
fn test_build_response_can_use_received_tos_override() {
    let original = OriginalPacketInfo {
        tos: 0x00,
        src_ip: Ipv4Addr::new(10, 0, 0, 5),
        src_port: 54321,
        dst_ip: Ipv4Addr::new(1, 2, 3, 4),
        dst_port: 12345,
    };

    let packet = build_response_ip_packet_with_tos(&[0x01], original, 0x03);

    assert_eq!(packet[1], 0x03);
    let verify = calculate_ip_checksum(&packet[..IP_HEADER_MIN]);
    assert!(verify == 0 || verify == 0xFFFF);
}

#[test]
fn test_ip_checksum() {
    // Test vector from RFC 1071
    let header = [
        0x45, 0x00, 0x00, 0x73, 0x00, 0x00, 0x40, 0x00, 0x40, 0x11, 0x00, 0x00, 0xc0, 0xa8,
        0x00, 0x01, 0xc0, 0xa8, 0x00, 0xc7,
    ];
    let checksum = calculate_ip_checksum(&header);
    // The checksum should make the header sum to 0xFFFF
    assert_ne!(checksum, 0);
}

#[test]
fn test_non_udp_rejected() {
    let mut packet = vec![0u8; 28];
    packet[0] = 0x45;
    packet[9] = 6; // TCP, not UDP

    assert!(parse_ip_packet_full(&packet).is_none());
}

#[test]
fn test_parse_ip_too_short() {
    let packet = vec![0u8; 19]; // < 20 bytes
    assert!(parse_ip_packet_full(&packet).is_none());
}

#[test]
fn test_parse_ip_wrong_version_v6() {
    let mut packet = vec![0u8; 32];
    // Version 6, IHL 5
    packet[0] = 0x65;
    packet[9] = 17;
    assert!(parse_ip_packet_full(&packet).is_none());
}

#[test]
fn test_parse_ip_ihl_less_than_5() {
    let mut packet = vec![0u8; 32];
    // Version 4, IHL 4 (malformed: < minimum 5)
    packet[0] = 0x44;
    packet[9] = 17;
    assert!(parse_ip_packet_full(&packet).is_none());
}

#[test]
fn test_parse_ip_ihl_with_options() {
    // IHL=6 means 24-byte IP header (with 4 bytes of IP options)
    // Need at least 24 (IP) + 8 (UDP) = 32 bytes
    let mut packet = vec![0u8; 40];
    // Version 4, IHL 6
    packet[0] = 0x46;
    packet[9] = 17; // UDP
                    // Source IP
    packet[12] = 192;
    packet[13] = 168;
    packet[14] = 1;
    packet[15] = 1;
    // Dest IP
    packet[16] = 8;
    packet[17] = 8;
    packet[18] = 8;
    packet[19] = 1;
    // UDP header starts at byte 24 (IHL=6, 6*4=24)
    // Source port = 5000
    packet[24] = 0x13;
    packet[25] = 0x88;
    // Dest port = 6000
    packet[26] = 0x17;
    packet[27] = 0x70;
    // Payload at byte 32
    packet[32..40].copy_from_slice(&[1, 2, 3, 4, 5, 6, 7, 8]);
    stamp_ipv4_lengths(&mut packet);

    let result = parse_ip_packet_full(&packet);
    assert!(result.is_some());
    match result.unwrap() {
        ParsedPacket::Udp {
            game_addr: addr,
            payload,
            original_info: info,
            ..
        } => {
            assert_eq!(addr.ip, IpAddr::V4(Ipv4Addr::new(8, 8, 8, 1)));
            assert_eq!(addr.port, 6000);
            assert_eq!(info.src_ip, Ipv4Addr::new(192, 168, 1, 1));
            assert_eq!(info.src_port, 5000);
            assert_eq!(payload, &[1, 2, 3, 4, 5, 6, 7, 8]);
        }
        _ => panic!("Expected ParsedPacket::Udp"),
    }
}

#[test]
fn test_parse_ip_tcp_too_short_rejected() {
    // 28 bytes total: 20 IP + 8 remaining, not enough for TCP min header (20)
    let mut packet = vec![0u8; 28];
    packet[0] = 0x45;
    packet[9] = 6; // TCP
    assert!(parse_ip_packet_full(&packet).is_none());
}

#[test]
fn test_parse_ip_tcp_valid() {
    // 44 bytes = 20 IP + 20 TCP header + 4 payload
    let mut packet = vec![0u8; 44];
    packet[0] = 0x45;
    packet[9] = 6; // TCP
    packet[12] = 10;
    packet[13] = 0;
    packet[14] = 0;
    packet[15] = 5;
    packet[16] = 1;
    packet[17] = 2;
    packet[18] = 3;
    packet[19] = 4;
    // TCP src port = 54321 (0xD431)
    packet[20] = 0xD4;
    packet[21] = 0x31;
    // TCP dst port = 80 (0x0050)
    packet[22] = 0x00;
    packet[23] = 0x50;
    // Data offset = 5 (20 bytes) in upper nibble of byte 32
    packet[32] = 0x50;
    stamp_ipv4_lengths(&mut packet);

    let result = parse_ip_packet_full(&packet);
    assert!(result.is_some());
    match result.unwrap() {
        ParsedPacket::Tcp {
            original_info: info,
            raw_ip_packet,
        } => {
            assert_eq!(info.src_ip, Ipv4Addr::new(10, 0, 0, 5));
            assert_eq!(info.src_port, 54321);
            assert_eq!(info.dst_ip, Ipv4Addr::new(1, 2, 3, 4));
            assert_eq!(info.dst_port, 80);
            assert_eq!(raw_ip_packet.len(), 44);
        }
        _ => panic!("Expected ParsedPacket::Tcp"),
    }
}

#[test]
fn test_forbidden_destinations_are_blocked() {
    for ip in [
        Ipv4Addr::new(169, 254, 169, 254),
        Ipv4Addr::new(10, 0, 0, 1),
        Ipv4Addr::new(172, 16, 0, 1),
        Ipv4Addr::new(192, 168, 1, 1),
        Ipv4Addr::new(127, 0, 0, 1),
        Ipv4Addr::new(224, 0, 0, 251),
        Ipv4Addr::new(255, 255, 255, 255),
        Ipv4Addr::new(100, 64, 0, 1),
        Ipv4Addr::new(0, 1, 2, 3),
        Ipv4Addr::new(240, 0, 0, 1),
    ] {
        assert!(is_forbidden_dst(ip), "{ip:?} should be forbidden");
    }
    assert!(!is_forbidden_dst(Ipv4Addr::new(128, 116, 50, 10)));
}

#[test]
fn amplification_ports_are_refused() {
    for port in [
        19,    // chargen
        53,    // DNS
        123,   // NTP
        161,   // SNMP
        389,   // CLDAP
        1900,  // SSDP
        11211, // memcached
    ] {
        assert!(
            is_forbidden_dst_port(port),
            "udp/{port} is a known amplifier and must not be forwarded"
        );
    }

    // Port 0 is never a real destination.
    assert!(is_forbidden_dst_port(0));

    // Roblox lives in the high ephemeral range, and normal game traffic
    // must be untouched by this. A blocklist that catches gameplay is worse
    // than no blocklist, because the failure is invisible and blamed on us.
    for port in [443, 49152, 53640, 61337, 65535] {
        assert!(
            !is_forbidden_dst_port(port),
            "udp/{port} carries real traffic and must still be forwarded"
        );
    }
}

#[test]
fn test_parse_ip_packet_drops_imds_destination() {
    let mut packet = vec![0u8; 32];
    packet[0] = 0x45;
    packet[9] = 17;
    packet[12] = 10;
    packet[13] = 0;
    packet[14] = 0;
    packet[15] = 5;
    packet[16] = 169;
    packet[17] = 254;
    packet[18] = 169;
    packet[19] = 254;
    packet[20] = 0x13;
    packet[21] = 0x88;
    packet[22] = 0x00;
    packet[23] = 0x50;
    stamp_ipv4_lengths(&mut packet);

    assert!(matches!(
        parse_ip_packet_full(&packet),
        Some(ParsedPacket::ForbiddenDst)
    ));
}

#[test]
fn test_parse_ip_icmp_rejected() {
    let mut packet = vec![0u8; 28];
    packet[0] = 0x45;
    packet[9] = 1; // ICMP
    assert!(parse_ip_packet_full(&packet).is_none());
}

#[test]
fn test_parse_ip_too_short_for_udp_header() {
    // Exactly 20 bytes = IP header only, no room for UDP header
    let mut packet = vec![0u8; 20];
    packet[0] = 0x45;
    packet[9] = 17;
    assert!(parse_ip_packet_full(&packet).is_none());
}

#[test]
fn test_parse_ip_zero_length_udp_payload() {
    // Exactly 28 bytes = 20 (IP) + 8 (UDP header), no payload
    let mut packet = vec![0u8; 28];
    packet[0] = 0x45;
    packet[9] = 17;
    packet[12] = 10;
    packet[13] = 0;
    packet[14] = 0;
    packet[15] = 5;
    packet[16] = 1;
    packet[17] = 2;
    packet[18] = 3;
    packet[19] = 4;
    packet[20] = 0x13;
    packet[21] = 0x88; // src port 5000
    packet[22] = 0x17;
    packet[23] = 0x70; // dst port 6000
    stamp_ipv4_lengths(&mut packet);

    let result = parse_ip_packet_full(&packet);
    assert!(result.is_some());
    match result.unwrap() {
        ParsedPacket::Udp {
            game_addr: addr,
            payload,
            original_info: info,
            ..
        } => {
            assert_eq!(addr.port, 6000);
            assert!(payload.is_empty());
            assert_eq!(info.src_port, 5000);
            assert_eq!(info.dst_port, 6000);
        }
        _ => panic!("Expected ParsedPacket::Udp"),
    }
}

#[test]
fn test_parse_ip_trims_trailing_padding() {
    let mut packet = vec![0u8; 40];
    packet[0] = 0x45;
    packet[9] = 17;
    packet[12] = 10;
    packet[15] = 5;
    packet[16] = 1;
    packet[17] = 2;
    packet[18] = 3;
    packet[19] = 4;
    packet[20] = 0x13;
    packet[21] = 0x88;
    packet[22] = 0x17;
    packet[23] = 0x70;
    packet[28..36].copy_from_slice(&[1, 2, 3, 4, 5, 6, 7, 8]);
    packet[36..40].copy_from_slice(&[0xAA, 0xBB, 0xCC, 0xDD]);
    packet[2..4].copy_from_slice(&(36u16).to_be_bytes());
    packet[24..26].copy_from_slice(&(16u16).to_be_bytes());

    let result = parse_ip_packet_full(&packet);
    assert!(result.is_some());
    match result.unwrap() {
        ParsedPacket::Udp {
            payload,
            raw_ip_packet,
            ..
        } => {
            assert_eq!(payload, &[1, 2, 3, 4, 5, 6, 7, 8]);
            assert_eq!(raw_ip_packet.len(), 36);
        }
        _ => panic!("Expected ParsedPacket::Udp"),
    }
}

#[test]
fn test_parse_ip_rejects_udp_length_past_total_len() {
    let mut packet = vec![0u8; 36];
    packet[0] = 0x45;
    packet[9] = 17;
    stamp_ipv4_lengths(&mut packet);
    packet[24..26].copy_from_slice(&(24u16).to_be_bytes());
    assert!(parse_ip_packet_full(&packet).is_none());
}

#[test]
fn test_parse_ip_rejects_tcp_bad_data_offset() {
    let mut packet = vec![0u8; 40];
    packet[0] = 0x45;
    packet[9] = 6;
    packet[20] = 0x13;
    packet[21] = 0x88;
    packet[22] = 0x00;
    packet[23] = 0x50;
    stamp_ipv4_lengths(&mut packet);
    packet[32] = 0x40;
    assert!(parse_ip_packet_full(&packet).is_none());
}

#[test]
fn test_parse_ip_returns_udp_fragment() {
    let mut packet = vec![0u8; 36];
    packet[0] = 0x45;
    packet[9] = 17;
    packet[12] = 172;
    packet[13] = 16;
    packet[14] = 0;
    packet[15] = 1;
    packet[16] = 8;
    packet[17] = 8;
    packet[18] = 8;
    packet[19] = 8;
    stamp_ipv4_lengths(&mut packet);
    packet[6] = 0x20; // more-fragments flag

    let result = parse_ip_packet_full(&packet);
    assert!(result.is_some());
    match result.unwrap() {
        ParsedPacket::Fragment {
            protocol,
            src_ip,
            raw_ip_packet,
            ..
        } => {
            assert_eq!(protocol, 17);
            assert_eq!(src_ip, Ipv4Addr::new(172, 16, 0, 1));
            assert_eq!(raw_ip_packet.len(), 36);
        }
        _ => panic!("Expected ParsedPacket::Fragment"),
    }
}

#[test]
fn test_parse_ip_full_payload_verification() {
    let mut packet = vec![0u8; 36];
    packet[0] = 0x45;
    packet[9] = 17;
    packet[12] = 172;
    packet[13] = 16;
    packet[14] = 0;
    packet[15] = 1; // src 172.16.0.1
    packet[16] = 8;
    packet[17] = 8;
    packet[18] = 8;
    packet[19] = 8; // dst 8.8.8.8
    packet[20] = 0x00;
    packet[21] = 0x35; // src port 53
    packet[22] = 0x1F;
    packet[23] = 0x90; // dst port 8080
                       // Payload bytes at 28..36
    packet[28..36].copy_from_slice(&[0xCA, 0xFE, 0xBA, 0xBE, 0xDE, 0xAD, 0x00, 0x42]);
    stamp_ipv4_lengths(&mut packet);

    let result = parse_ip_packet_full(&packet);
    assert!(result.is_some());
    match result.unwrap() {
        ParsedPacket::Udp {
            game_addr: addr,
            payload,
            original_info: info,
            ..
        } => {
            assert_eq!(addr.ip, IpAddr::V4(Ipv4Addr::new(8, 8, 8, 8)));
            assert_eq!(addr.port, 8080);
            assert_eq!(info.src_ip, Ipv4Addr::new(172, 16, 0, 1));
            assert_eq!(info.src_port, 53);
            assert_eq!(info.dst_ip, Ipv4Addr::new(8, 8, 8, 8));
            assert_eq!(info.dst_port, 8080);
            assert_eq!(payload, &[0xCA, 0xFE, 0xBA, 0xBE, 0xDE, 0xAD, 0x00, 0x42]);
        }
        _ => panic!("Expected ParsedPacket::Udp"),
    }
}

#[test]
fn test_build_response_zero_length_payload() {
    let original = OriginalPacketInfo {
        tos: 0,
        src_ip: Ipv4Addr::new(10, 0, 0, 1),
        src_port: 1234,
        dst_ip: Ipv4Addr::new(1, 2, 3, 4),
        dst_port: 5678,
    };
    let packet = build_response_ip_packet(&[], original);
    // IP (20) + UDP (8) + payload (0) = 28
    assert_eq!(packet.len(), 28);
    // Verify IP version
    assert_eq!((packet[0] >> 4) & 0x0F, 4);
    // Verify protocol UDP
    assert_eq!(packet[9], 17);
}

#[test]
fn test_build_response_normal_payload_field_check() {
    let payload = &[0xAA, 0xBB, 0xCC];
    let original = OriginalPacketInfo {
        tos: 0,
        src_ip: Ipv4Addr::new(192, 168, 1, 100),
        src_port: 40000,
        dst_ip: Ipv4Addr::new(93, 184, 216, 34),
        dst_port: 443,
    };
    let packet = build_response_ip_packet(payload, original);

    // Total length = 20 + 8 + 3 = 31
    assert_eq!(packet.len(), 31);
    let total_len_field = u16::from_be_bytes([packet[2], packet[3]]);
    assert_eq!(total_len_field, 31);

    // Source IP = original dst (game server)
    assert_eq!(&packet[12..16], &[93, 184, 216, 34]);
    // Dest IP = original src (client)
    assert_eq!(&packet[16..20], &[192, 168, 1, 100]);

    // Source port = original dst_port (443)
    let src_port = u16::from_be_bytes([packet[20], packet[21]]);
    assert_eq!(src_port, 443);
    // Dest port = original src_port (40000)
    let dst_port = u16::from_be_bytes([packet[22], packet[23]]);
    assert_eq!(dst_port, 40000);

    // UDP length field
    let udp_len_field = u16::from_be_bytes([packet[24], packet[25]]);
    assert_eq!(udp_len_field, 11); // 8 + 3

    // Payload
    assert_eq!(&packet[28..31], payload);
}

#[test]
fn test_build_response_ip_checksum_validity() {
    let original = OriginalPacketInfo {
        tos: 0,
        src_ip: Ipv4Addr::new(8, 8, 8, 8),
        src_port: 54321,
        dst_ip: Ipv4Addr::new(1, 2, 3, 4),
        dst_port: 12345,
    };
    let packet = build_response_ip_packet(&[0x01, 0x02], original);

    // Compute checksum over the IP header (which already includes the checksum).
    // If the checksum was computed correctly, summing the full header should yield 0xFFFF
    // (or equivalently the ones-complement sum is 0).
    let mut sum: u32 = 0;
    for i in (0..20).step_by(2) {
        let word = ((packet[i] as u32) << 8) | (packet[i + 1] as u32);
        sum = sum.wrapping_add(word);
    }
    while sum >> 16 != 0 {
        sum = (sum & 0xFFFF) + (sum >> 16);
    }
    // After folding, ones-complement sum should be 0xFFFF
    assert_eq!(sum as u16, 0xFFFF);
}

#[test]
fn test_build_response_address_port_swapping() {
    let original = OriginalPacketInfo {
        tos: 0,
        src_ip: Ipv4Addr::new(10, 0, 0, 5),
        src_port: 11111,
        dst_ip: Ipv4Addr::new(20, 30, 40, 50),
        dst_port: 22222,
    };
    let packet = build_response_ip_packet(&[0xFF], original);

    // In response, source = original dst, dest = original src
    assert_eq!(
        Ipv4Addr::new(packet[12], packet[13], packet[14], packet[15]),
        Ipv4Addr::new(20, 30, 40, 50)
    );
    assert_eq!(
        Ipv4Addr::new(packet[16], packet[17], packet[18], packet[19]),
        Ipv4Addr::new(10, 0, 0, 5)
    );
    assert_eq!(u16::from_be_bytes([packet[20], packet[21]]), 22222); // game port becomes src
    assert_eq!(u16::from_be_bytes([packet[22], packet[23]]), 11111); // client port becomes dst
}

#[test]
fn test_ip_checksum_all_zeros() {
    let header = [0u8; 20];
    let checksum = calculate_ip_checksum(&header);
    // Ones complement of 0 is 0xFFFF
    assert_eq!(checksum, 0xFFFF);
}

#[test]
fn test_ip_checksum_odd_length_header() {
    // Odd-length slice (unusual but the function should handle it)
    let header = [0x45, 0x00, 0x00, 0x1C, 0x00]; // 5 bytes
    let checksum = calculate_ip_checksum(&header);
    // Just verify it doesn't panic and produces a value
    assert_ne!(checksum, 0); // non-trivial input should produce non-zero complement
}

#[test]
fn test_ip_checksum_self_check() {
    // Build a valid IP header, compute checksum, insert it, then verify
    let mut header = [
        0x45, 0x00, 0x00, 0x1C, // version/IHL, DSCP/ECN, total length
        0x00, 0x00, 0x40, 0x00, // ID, flags+fragment
        0x40, 0x11, 0x00, 0x00, // TTL, protocol(UDP), checksum(placeholder)
        0xC0, 0xA8, 0x01, 0x01, // src IP 192.168.1.1
        0x0A, 0x00, 0x00, 0x01, // dst IP 10.0.0.1
    ];
    let checksum = calculate_ip_checksum(&header);
    header[10] = (checksum >> 8) as u8;
    header[11] = (checksum & 0xFF) as u8;

    // Recompute over the full header including checksum
    let verify = calculate_ip_checksum(&header);
    // Should be 0 (or 0xFFFF depending on convention; RFC 1071 says
    // the ones-complement sum of the header including checksum = 0)
    // In our implementation !sum means the result is 0x0000 when header is valid
    assert!(
        verify == 0x0000 || verify == 0xFFFF,
        "Self-check should yield 0x0000 or 0xFFFF, got {:#06x}",
        verify
    );
}

#[test]
fn test_ip_checksum_known_vector() {
    // Use the same test vector from the existing tests
    let header = [
        0x45, 0x00, 0x00, 0x73, 0x00, 0x00, 0x40, 0x00, 0x40, 0x11, 0x00, 0x00, 0xc0, 0xa8,
        0x00, 0x01, 0xc0, 0xa8, 0x00, 0xc7,
    ];
    let checksum = calculate_ip_checksum(&header);
    assert_ne!(checksum, 0);
    // Verify the self-check: insert checksum and recompute
    let mut full_header = header;
    full_header[10] = (checksum >> 8) as u8;
    full_header[11] = (checksum & 0xFF) as u8;
    let verify = calculate_ip_checksum(&full_header);
    assert!(
        verify == 0x0000 || verify == 0xFFFF,
        "Self-check should yield 0x0000 or 0xFFFF, got {:#06x}",
        verify
    );
}

#[test]
fn test_roundtrip_build_then_parse() {
    let original = OriginalPacketInfo {
        tos: 0,
        src_ip: Ipv4Addr::new(8, 8, 8, 8),
        src_port: 54321,
        dst_ip: Ipv4Addr::new(1, 2, 3, 4),
        dst_port: 12345,
    };
    let payload = &[0xDE, 0xAD, 0xBE, 0xEF];
    let response_packet = build_response_ip_packet(payload, original);

    // Parse the built packet
    let parsed = parse_ip_packet_full(&response_packet);
    assert!(parsed.is_some());
    match parsed.unwrap() {
        ParsedPacket::Udp {
            game_addr: addr,
            payload: parsed_payload,
            original_info: info,
            ..
        } => {
            // In the response, src/dst are swapped from original
            // Source IP = original.dst_ip (game server)
            assert_eq!(info.src_ip, Ipv4Addr::new(1, 2, 3, 4));
            assert_eq!(info.src_port, 12345);
            // Dest IP = original.src_ip (client)
            assert_eq!(info.dst_ip, Ipv4Addr::new(8, 8, 8, 8));
            assert_eq!(info.dst_port, 54321);
            // SocketAddr should point to the packet's dest (the client)
            assert_eq!(addr.ip, IpAddr::V4(Ipv4Addr::new(8, 8, 8, 8)));
            assert_eq!(addr.port, 54321);
            // Payload should survive roundtrip
            assert_eq!(parsed_payload, payload);
        }
        _ => panic!("Expected ParsedPacket::Udp"),
    }
}

fn fragment(protocol: u8, flags: [u8; 2], len: usize) -> Vec<u8> {
    let mut packet = vec![0u8; len];
    packet[0] = 0x45;
    packet[2..4].copy_from_slice(&(len as u16).to_be_bytes());
    packet[6..8].copy_from_slice(&flags);
    packet[9] = protocol;
    packet[12..16].copy_from_slice(&[10, 0, 0, 5]);
    packet[16..20].copy_from_slice(&[8, 8, 8, 8]);
    if len >= 24 {
        packet[22..24].copy_from_slice(&[0x1F, 0x90]);
    }
    packet
}

fn fragment_port(packet: &[u8]) -> Option<u16> {
    match parse_ip_packet_full(packet) {
        Some(ParsedPacket::Fragment { dst_port, dst_ip, .. }) => {
            assert_eq!(dst_ip, Ipv4Addr::new(8, 8, 8, 8));
            dst_port
        }
        _ => panic!("Expected ParsedPacket::Fragment"),
    }
}

#[test]
fn only_first_fragments_show_a_port() {
    assert_eq!(fragment_port(&fragment(17, [0x20, 0], 28)), Some(8080));
    assert_eq!(fragment_port(&fragment(6, [0x20, 0], 28)), Some(8080));
    assert_eq!(fragment_port(&fragment(17, [0x20, 3], 28)), None);
    assert_eq!(fragment_port(&fragment(17, [0, 3], 28)), None);
    assert_eq!(fragment_port(&fragment(6, [0, 3], 21)), None);
    let mut private = fragment(17, [0, 3], 28);
    private[16..20].copy_from_slice(&[10, 1, 1, 1]);
    assert!(matches!(
        parse_ip_packet_full(&private),
        Some(ParsedPacket::ForbiddenDst)
    ));
}

#[test]
fn forbidden_ranges_end_exactly() {
    for (a, b, c, d, forbidden) in [
        (9, 255, 255, 255, false),
        (10, 255, 255, 255, true),
        (11, 0, 0, 0, false),
        (100, 63, 255, 255, false),
        (100, 127, 255, 255, true),
        (100, 128, 0, 0, false),
        (172, 15, 255, 255, false),
        (172, 31, 255, 255, true),
        (172, 32, 0, 0, false),
        (192, 167, 255, 255, false),
        (192, 169, 0, 0, false),
        (169, 253, 255, 255, false),
        (169, 255, 0, 0, false),
        (126, 255, 255, 255, false),
        (128, 0, 0, 0, false),
        (223, 255, 255, 255, false),
        (239, 255, 255, 255, true),
        (254, 1, 1, 1, true),
        (1, 0, 0, 0, false),
    ] {
        assert_eq!(is_forbidden_dst(Ipv4Addr::new(a, b, c, d)), forbidden, "{a}.{b}.{c}.{d}");
    }
}

#[test]
fn udp_to_an_amplifier_is_forbidden_and_tcp_is_not() {
    let mut packet = vec![0u8; 40];
    packet[0] = 0x45;
    packet[9] = 17;
    packet[16..20].copy_from_slice(&[8, 8, 8, 8]);
    packet[23] = 53;
    stamp_ipv4_lengths(&mut packet);
    assert!(matches!(
        parse_ip_packet_full(&packet),
        Some(ParsedPacket::ForbiddenDst)
    ));
    packet[9] = 6;
    packet[32] = 0x50;
    assert!(matches!(
        parse_ip_packet_full(&packet),
        Some(ParsedPacket::Tcp { .. })
    ));
}

#[test]
fn checksums_are_exact() {
    let header = [
        0x45, 0x00, 0x00, 0x73, 0x00, 0x00, 0x40, 0x00, 0x40, 0x11, 0x00, 0x00, 0xc0, 0xa8, 0x00,
        0x01, 0xc0, 0xa8, 0x00, 0xc7,
    ];
    assert_eq!(calculate_ip_checksum(&header), 0xb861);
    assert_eq!(calculate_ip_checksum(&[]), 0xffff);
    assert_eq!(calculate_ip_checksum(&[0x12]), !0x1200);
    assert_eq!(calculate_ip_checksum(&[0xff; 64]), 0);
}
