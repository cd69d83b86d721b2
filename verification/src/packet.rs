//! Client packets and the responses that are built for them.

use crate::addr::{ipv4_at, read_ipv4, IpAddr, Ipv4Addr, SocketAddr};
use crate::bytes::{be16, copy_into, lemma_put16_be16, put16, read_be16};
use crate::checksum::{
    a_checksum_makes_the_sum_vanish, calculate_ip_checksum, checksum_of, lemma_checksum_self_check,
    lemma_fold_bounds, octet_sum, word_sum,
};
use crate::rewrite::{
    fragment_offset, has_header, header_len, is_fragment, total_len, IPPROTO_TCP,
    IPPROTO_UDP, IP_HEADER_MIN,
};
use vstd::prelude::*;

verus! {

/// The length of a UDP header.
pub const UDP_HEADER_SIZE: usize = 8;

/// The shortest TCP header.
pub const TCP_HEADER_MIN: usize = 20;

/// The ports of services that answer a small UDP request with a large reply.
pub open spec fn amplifier_port(port: u16) -> bool {
    ||| port == 7
    ||| port == 17
    ||| port == 19
    ||| port == 53
    ||| port == 69
    ||| port == 111
    ||| port == 123
    ||| port == 137
    ||| port == 161
    ||| port == 162
    ||| port == 389
    ||| port == 520
    ||| port == 623
    ||| port == 1434
    ||| port == 1900
    ||| port == 3702
    ||| port == 5093
    ||| port == 5351
    ||| port == 5353
    ||| port == 10001
    ||| port == 11211
    ||| port == 32414
}

/// The destination ports that UDP is not forwarded to: zero, and the amplifiers.
pub open spec fn forbidden_port(port: u16) -> bool {
    port == 0 || amplifier_port(port)
}

/// Whether UDP to `port` is refused.
pub fn is_forbidden_dst_port(port: u16) -> (r: bool)
    ensures
        r == forbidden_port(port),
{
    matches!(
        port,
        0 | 7 | 17 | 19 | 53 | 69 | 111 | 123 | 137 | 161 | 162 | 389 | 520 | 623 | 1434 | 1900 | 3702
        | 5093 | 5351 | 5353 | 10001 | 11211 | 32414
    )
}

/// `10.0.0.0/8`, `172.16.0.0/12` and `192.168.0.0/16`.
pub open spec fn private_ipv4(ip: Ipv4Addr) -> bool {
    ip.a == 10 || ip.a == 172 && 16 <= ip.b < 32 || ip.a == 192 && ip.b == 168
}

/// The addresses that nothing is forwarded to: private networks, loopback,
/// link-local, multicast, the reserved top of the space with the broadcast address,
/// `0.0.0.0/8`, and the shared space of carrier-grade NAT, `100.64.0.0/10`.
pub open spec fn forbidden_ip(ip: Ipv4Addr) -> bool {
    ||| private_ipv4(ip)
    ||| ip.a == 127
    ||| ip.a == 169 && ip.b == 254
    ||| ip.a >= 224
    ||| ip.a == 0
    ||| ip.a == 100 && 64 <= ip.b < 128
}

/// `100.64.0.0/10`.
pub fn is_cgnat_ipv4(ip: Ipv4Addr) -> (r: bool)
    ensures
        r == (ip.a == 100 && 64 <= ip.b < 128),
{
    ip.a == 100 && ip.b / 64 == 1
}

/// `240.0.0.0/4`.
pub fn is_reserved_ipv4(ip: Ipv4Addr) -> (r: bool)
    ensures
        r == (ip.a >= 240),
{
    ip.a >= 240
}

/// `0.0.0.0/8`.
pub fn is_this_network_ipv4(ip: Ipv4Addr) -> (r: bool)
    ensures
        r == (ip.a == 0),
{
    ip.a == 0
}

/// Whether everything to `ip` is refused.
pub fn is_forbidden_dst(ip: Ipv4Addr) -> (r: bool)
    ensures
        r == forbidden_ip(ip),
{
    let private: bool = ip.a == 10 || (ip.a == 172 && ip.b / 16 == 1) || (ip.a == 192 && ip.b == 168);
    let loopback: bool = ip.a == 127;
    let link_local: bool = ip.a == 169 && ip.b == 254;
    let multicast: bool = ip.a / 16 == 14;
    private || loopback || link_local || multicast || is_this_network_ipv4(ip) || is_reserved_ipv4(ip)
        || is_cgnat_ipv4(ip)
}

/// What a response needs to know of the client's packet.
#[derive(Clone, Copy, PartialEq, Eq, Structural, Debug)]
pub struct OriginalPacketInfo {
    /// The client's DSCP/ECN byte: the response's own, unless the server's packet
    /// came with another.
    pub tos: u8,
    /// The client's source address inside the tunnel.
    pub src_ip: Ipv4Addr,
    pub src_port: u16,
    /// The game server's address.
    pub dst_ip: Ipv4Addr,
    pub dst_port: u16,
}

/// A client's packet, taken apart.
pub enum ParsedPacket<'a> {
    Udp {
        game_addr: SocketAddr,
        payload: &'a [u8],
        original_info: OriginalPacketInfo,
        raw_ip_packet: &'a [u8],
    },
    Tcp { original_info: OriginalPacketInfo, raw_ip_packet: &'a [u8] },
    Fragment {
        protocol: u8,
        src_ip: Ipv4Addr,
        dst_ip: Ipv4Addr,
        /// Known where the fragment holds the start of a TCP or UDP header.
        dst_port: Option<u16>,
        raw_ip_packet: &'a [u8],
    },
    ForbiddenDst,
}

/// The content of a [`ParsedPacket`].
pub ghost enum PacketView {
    Udp { info: OriginalPacketInfo, payload: Seq<u8>, raw: Seq<u8> },
    Tcp { info: OriginalPacketInfo, raw: Seq<u8> },
    Fragment { protocol: u8, src_ip: Ipv4Addr, dst_ip: Ipv4Addr, dst_port: Option<u16>, raw: Seq<u8> },
    ForbiddenDst,
}

impl<'a> ParsedPacket<'a> {
    pub open spec fn view(self) -> PacketView {
        match self {
            ParsedPacket::Udp { game_addr, payload, original_info, raw_ip_packet } => PacketView::Udp {
                info: original_info,
                payload: payload@,
                raw: raw_ip_packet@,
            },
            ParsedPacket::Tcp { original_info, raw_ip_packet } => PacketView::Tcp {
                info: original_info,
                raw: raw_ip_packet@,
            },
            ParsedPacket::Fragment { protocol, src_ip, dst_ip, dst_port, raw_ip_packet } =>
                PacketView::Fragment { protocol, src_ip, dst_ip, dst_port, raw: raw_ip_packet@ },
            ParsedPacket::ForbiddenDst => PacketView::ForbiddenDst,
        }
    }
}

/// Whether `p` starts with a whole IPv4 packet: version 4, a whole header, and as
/// many bytes as the header states.
pub open spec fn holds_ipv4(p: Seq<u8>) -> bool {
    has_header(p) && p[0] / 16 == 4 && header_len(p) <= total_len(p) <= p.len()
}

/// The game server that a packet is for.
pub open spec fn game_addr_of(info: OriginalPacketInfo) -> SocketAddr {
    SocketAddr { ip: IpAddr::V4(info.dst_ip), port: info.dst_port }
}

/// The addresses, ports and service byte of a packet whose transport header is at
/// `at`.
pub open spec fn info_of(p: Seq<u8>, at: int) -> OriginalPacketInfo {
    OriginalPacketInfo {
        tos: p[1],
        src_ip: ipv4_at(p, 12),
        src_port: be16(p, at) as u16,
        dst_ip: ipv4_at(p, 16),
        dst_port: be16(p, at + 2) as u16,
    }
}

/// The destination port that a fragment shows: the first one shows it, if it reaches
/// that far and carries TCP or UDP.
pub open spec fn fragment_port(p: Seq<u8>) -> Option<u16> {
    if fragment_offset(p) == 0 && (p[9] == IPPROTO_TCP || p[9] == IPPROTO_UDP) && p.len()
        >= header_len(p) + 4 {
        Some(be16(p, header_len(p) + 2) as u16)
    } else {
        None
    }
}

/// What a client's packet is. Bytes behind the stated total length do not count. A
/// fragment is taken as it is. UDP needs a whole header with a length that fits, TCP
/// a whole header of the length that it states; nothing else is known.
pub open spec fn packet_view(bytes: Seq<u8>) -> Option<PacketView> {
    if !holds_ipv4(bytes) {
        None
    } else {
        let p = bytes.subrange(0, total_len(bytes));
        let at = header_len(p);
        let dst_ip = ipv4_at(p, 16);
        if is_fragment(p) {
            if forbidden_ip(dst_ip) {
                Some(PacketView::ForbiddenDst)
            } else {
                Some(
                    PacketView::Fragment {
                        protocol: p[9],
                        src_ip: ipv4_at(p, 12),
                        dst_ip,
                        dst_port: fragment_port(p),
                        raw: p,
                    },
                )
            }
        } else if p[9] == IPPROTO_UDP {
            if p.len() < at + 8 || be16(p, at + 4) < 8 || at + be16(p, at + 4) > p.len() {
                None
            } else if forbidden_ip(dst_ip) || forbidden_port(be16(p, at + 2) as u16) {
                Some(PacketView::ForbiddenDst)
            } else {
                Some(
                    PacketView::Udp {
                        info: info_of(p, at),
                        payload: p.subrange(at + 8, at + be16(p, at + 4)),
                        raw: p,
                    },
                )
            }
        } else if p[9] == IPPROTO_TCP {
            if p.len() < at + 20 || p[at + 12] / 16 * 4 < 20 || p.len() < at + p[at + 12] / 16 * 4 {
                None
            } else if forbidden_ip(dst_ip) {
                Some(PacketView::ForbiddenDst)
            } else {
                Some(PacketView::Tcp { info: info_of(p, at), raw: p })
            }
        } else {
            None
        }
    }
}

/// Takes a client's packet apart.
pub fn parse_ip_packet_full<'a>(packet: &'a [u8]) -> (r: Option<ParsedPacket<'a>>)
    ensures
        match r {
            None => packet_view(packet@) is None,
            Some(v) => packet_view(packet@) == Some(v.view()),
        },
        r matches Some(ParsedPacket::Udp { game_addr, payload, original_info, raw_ip_packet })
            ==> game_addr == game_addr_of(original_info),
{
    if packet.len() < IP_HEADER_MIN {
        return None;
    }
    if packet[0] / 16 != 4 {
        return None;
    }
    let ihl: usize = (packet[0] % 16) as usize * 4;
    if ihl < IP_HEADER_MIN || packet.len() < ihl {
        return None;
    }
    let total: usize = read_be16(packet, 2) as usize;
    if total < ihl || total > packet.len() {
        return None;
    }
    let packet: &'a [u8] = &packet[0..total];
    let protocol: u8 = packet[9];
    let src_ip: Ipv4Addr = read_ipv4(packet, 12);
    let dst_ip: Ipv4Addr = read_ipv4(packet, 16);
    let bits: u16 = read_be16(packet, 6);
    let more: bool = bits / 0x2000 % 2 == 1;
    let offset: u16 = bits % 0x2000;
    if more || offset != 0 {
        if is_forbidden_dst(dst_ip) {
            return Some(ParsedPacket::ForbiddenDst);
        }
        let dst_port: Option<u16> = if offset == 0 && (protocol == IPPROTO_TCP || protocol
            == IPPROTO_UDP) && packet.len() >= ihl + 4 {
            Some(read_be16(packet, ihl + 2))
        } else {
            None
        };
        return Some(
            ParsedPacket::Fragment { protocol, src_ip, dst_ip, dst_port, raw_ip_packet: packet },
        );
    }
    if protocol == IPPROTO_UDP {
        if packet.len() < ihl + UDP_HEADER_SIZE {
            return None;
        }
        let src_port: u16 = read_be16(packet, ihl);
        let dst_port: u16 = read_be16(packet, ihl + 2);
        let udp_len: usize = read_be16(packet, ihl + 4) as usize;
        if udp_len < UDP_HEADER_SIZE || ihl + udp_len > packet.len() {
            return None;
        }
        let payload: &'a [u8] = &packet[ihl + UDP_HEADER_SIZE..ihl + udp_len];
        let original_info = OriginalPacketInfo { tos: packet[1], src_ip, src_port, dst_ip, dst_port };
        if is_forbidden_dst(dst_ip) || is_forbidden_dst_port(dst_port) {
            return Some(ParsedPacket::ForbiddenDst);
        }
        Some(
            ParsedPacket::Udp {
                game_addr: SocketAddr { ip: IpAddr::V4(dst_ip), port: dst_port },
                payload,
                original_info,
                raw_ip_packet: packet,
            },
        )
    } else if protocol == IPPROTO_TCP {
        if packet.len() < ihl + TCP_HEADER_MIN {
            return None;
        }
        let src_port: u16 = read_be16(packet, ihl);
        let dst_port: u16 = read_be16(packet, ihl + 2);
        let tcp_header_len: usize = (packet[ihl + 12] / 16) as usize * 4;
        if tcp_header_len < TCP_HEADER_MIN || packet.len() < ihl + tcp_header_len {
            return None;
        }
        let original_info = OriginalPacketInfo { tos: packet[1], src_ip, src_port, dst_ip, dst_port };
        if is_forbidden_dst(dst_ip) {
            return Some(ParsedPacket::ForbiddenDst);
        }
        Some(ParsedPacket::Tcp { original_info, raw_ip_packet: packet })
    } else {
        None
    }
}

/// The high byte of the low sixteen bits of `n`.
pub open spec fn hi(n: int) -> u8 {
    (n / 256 % 256) as u8
}

/// The low byte of `n`.
pub open spec fn lo(n: int) -> u8 {
    (n % 256) as u8
}

/// A response's IPv4 header before its checksum is put in: DF set, a TTL of 64, UDP,
/// and the client's addresses the other way round.
pub open spec fn response_header(total: int, info: OriginalPacketInfo, tos: u8) -> Seq<u8> {
    seq![
        0x45u8, tos, hi(total), lo(total), 0u8, 0u8, 0x40u8, 0u8, 64u8, 17u8, 0u8, 0u8,
        info.dst_ip.a, info.dst_ip.b, info.dst_ip.c, info.dst_ip.d,
        info.src_ip.a, info.src_ip.b, info.src_ip.c, info.src_ip.d,
    ]
}

/// A response's UDP header: the client's ports the other way round, the length, and
/// no checksum.
pub open spec fn response_udp_header(len: int, info: OriginalPacketInfo) -> Seq<u8> {
    seq![
        hi(info.dst_port as int), lo(info.dst_port as int),
        hi(info.src_port as int), lo(info.src_port as int),
        hi(len), lo(len), 0u8, 0u8,
    ]
}

/// The response packet for `payload`. The length fields hold the lengths modulo 2^16.
pub open spec fn response(payload: Seq<u8>, info: OriginalPacketInfo, tos: u8) -> Seq<u8> {
    let header = response_header((payload.len() + 28) as int, info, tos);
    put16(header, 10, checksum_of(header)) + response_udp_header((payload.len() + 8) as int, info)
        + payload
}

/// Writes the response for `payload` over the first bytes of `dst`.
fn fill_response(dst: &mut [u8], payload: &[u8], info: OriginalPacketInfo, tos: u8)
    requires
        payload@.len() + 28 <= old(dst)@.len(),
    ensures
        final(dst)@ == response(payload@, info, tos) + old(dst)@.subrange(
            (payload@.len() + 28) as int,
            old(dst)@.len() as int,
        ),
{
    let ghost before = dst@;
    let room: usize = dst.len();
    assert(payload@.len() + 28 <= room);
    let total: usize = payload.len() + 28;
    let udp_len: usize = payload.len() + 8;
    let mut header: [u8; 20] = [
        0x45,
        tos,
        (total / 256 % 256) as u8,
        (total % 256) as u8,
        0,
        0,
        0x40,
        0,
        64,
        17,
        0,
        0,
        info.dst_ip.a,
        info.dst_ip.b,
        info.dst_ip.c,
        info.dst_ip.d,
        info.src_ip.a,
        info.src_ip.b,
        info.src_ip.c,
        info.src_ip.d,
    ];
    let ghost blank = response_header(total as int, info, tos);
    assert(header@ =~= blank);
    let checksum: u16 = calculate_ip_checksum(&header);
    header[10] = (checksum / 256) as u8;
    header[11] = (checksum % 256) as u8;
    assert(header@ =~= put16(blank, 10, checksum as int));
    let udp: [u8; 8] = [
        (info.dst_port / 256) as u8,
        (info.dst_port % 256) as u8,
        (info.src_port / 256) as u8,
        (info.src_port % 256) as u8,
        (udp_len / 256 % 256) as u8,
        (udp_len % 256) as u8,
        0,
        0,
    ];
    assert(udp@ =~= response_udp_header(udp_len as int, info));
    copy_into(dst, 0, &header);
    copy_into(dst, 20, &udp);
    copy_into(dst, 28, payload);
    assert(dst@ =~= header@ + udp@ + payload@ + before.subrange(
        (payload@.len() + 28) as int,
        before.len() as int,
    ));
}

/// The response that carries `udp_payload` back to the client.
pub fn build_response_ip_packet(udp_payload: &[u8], original: OriginalPacketInfo) -> (r: Vec<u8>)
    requires
        udp_payload@.len() + 28 <= usize::MAX,
    ensures
        r@ == response(udp_payload@, original, original.tos),
{
    build_response_ip_packet_with_tos(udp_payload, original, original.tos)
}

/// The response that carries `udp_payload` back to the client with the service byte
/// that the server's packet came with.
pub fn build_response_ip_packet_with_tos(
    udp_payload: &[u8],
    original: OriginalPacketInfo,
    tos: u8,
) -> (r: Vec<u8>)
    requires
        udp_payload@.len() + 28 <= usize::MAX,
    ensures
        r@ == response(udp_payload@, original, tos),
{
    let total: usize = udp_payload.len() + 28;
    let mut packet: Vec<u8> = vec![0u8; total];
    fill_response(&mut packet, udp_payload, original, tos);
    assert(packet@ =~= response(udp_payload@, original, tos));
    packet
}

/// Writes the response over the first bytes of `dst` and returns its length, if it
/// fits.
pub fn write_response_ip_packet_into(
    dst: &mut [u8],
    udp_payload: &[u8],
    original: OriginalPacketInfo,
) -> (r: Option<usize>)
    ensures
        udp_payload@.len() + 28 > old(dst)@.len() ==> r is None && final(dst)@ == old(dst)@,
        udp_payload@.len() + 28 <= old(dst)@.len() ==> r == Some((udp_payload@.len() + 28) as usize)
            && final(dst)@ == response(udp_payload@, original, original.tos) + old(dst)@.subrange(
            (udp_payload@.len() + 28) as int,
            old(dst)@.len() as int,
        ),
{
    if dst.len() < 28 || udp_payload.len() > dst.len() - 28 {
        return None;
    }
    fill_response(dst, udp_payload, original, original.tos);
    Some(udp_payload.len() + 28)
}

/// A response has a valid header checksum.
pub proof fn responses_have_a_valid_header(payload: Seq<u8>, info: OriginalPacketInfo, tos: u8)
    ensures
        checksum_of(response(payload, info, tos).subrange(0, 20)) == 0,
{
    let header = response_header((payload.len() + 28) as int, info, tos);
    lemma_checksum_self_check(header, 10);
    assert(response(payload, info, tos).subrange(0, 20) =~= put16(header, 10, checksum_of(header)));
}

/// A response that fits into an IPv4 packet parses back to its payload, with the
/// client's addresses and ports the other way round, unless that address or port is
/// one that nothing is forwarded to.
pub proof fn responses_parse_back(payload: Seq<u8>, info: OriginalPacketInfo, tos: u8)
    requires
        payload.len() + 28 < 0x1_0000,
    ensures
        packet_view(response(payload, info, tos)) == Some(
            if forbidden_ip(info.src_ip) || forbidden_port(info.src_port) {
                PacketView::ForbiddenDst
            } else {
                PacketView::Udp {
                    info: OriginalPacketInfo {
                        tos,
                        src_ip: info.dst_ip,
                        src_port: info.dst_port,
                        dst_ip: info.src_ip,
                        dst_port: info.src_port,
                    },
                    payload,
                    raw: response(payload, info, tos),
                }
            },
        ),
{
    let p = response(payload, info, tos);
    let header = response_header((payload.len() + 28) as int, info, tos);
    lemma_fold_bounds(word_sum(header) as int % 0x1_0000_0000);
    lemma_put16_be16(header, 10, checksum_of(header));
    assert(p.len() == payload.len() + 28);
    assert(total_len(p) == p.len());
    assert(p.subrange(0, total_len(p)) =~= p);
    assert(header_len(p) == 20);
    assert(!is_fragment(p));
    assert(be16(p, 24) == payload.len() + 8);
    assert(be16(p, 22) == info.src_port);
    assert(be16(p, 20) == info.dst_port);
    assert(p.subrange(28, 20 + be16(p, 24)) =~= payload);
}

/// The addresses that nothing is forwarded to, as ranges of numbers: the networks
/// `0.0.0.0/8`, `10.0.0.0/8`, `100.64.0.0/10`, `127.0.0.0/8`, `169.254.0.0/16`,
/// `172.16.0.0/12` and `192.168.0.0/16`, and everything from `224.0.0.0` on.
pub proof fn forbidden_networks(ip: Ipv4Addr)
    ensures
        ({
            let n = ip.a as int * 0x100_0000 + ip.b as int * 0x1_0000 + ip.c as int * 0x100 + ip.d as int;
            forbidden_ip(ip) <==> {
                ||| n < 0x0100_0000
                ||| 0x0A00_0000 <= n < 0x0B00_0000
                ||| 0x6440_0000 <= n < 0x6480_0000
                ||| 0x7F00_0000 <= n < 0x8000_0000
                ||| 0xA9FE_0000 <= n < 0xA9FF_0000
                ||| 0xAC10_0000 <= n < 0xAC20_0000
                ||| 0xC0A8_0000 <= n < 0xC0A9_0000
                ||| 0xE000_0000 <= n
            }
        }),
{
}

/// The UDP ports that nothing is forwarded to, in one list.
pub proof fn forbidden_ports(port: u16)
    ensures
        forbidden_port(port) <==> seq![
            0u16, 7u16, 17u16, 19u16, 53u16, 69u16, 111u16, 123u16, 137u16, 161u16, 162u16, 389u16,
            520u16, 623u16, 1434u16, 1900u16, 3702u16, 5093u16, 5351u16, 5353u16, 10001u16, 11211u16,
            32414u16,
        ].contains(port),
{
    let list = seq![
        0u16, 7u16, 17u16, 19u16, 53u16, 69u16, 111u16, 123u16, 137u16, 161u16, 162u16, 389u16, 520u16,
        623u16, 1434u16, 1900u16, 3702u16, 5093u16, 5351u16, 5353u16, 10001u16, 11211u16, 32414u16,
    ];
    assert(list[0] == 0 && list[1] == 7 && list[2] == 17 && list[3] == 19 && list[4] == 53 && list[5]
        == 69 && list[6] == 111 && list[7] == 123 && list[8] == 137 && list[9] == 161 && list[10] == 162
        && list[11] == 389 && list[12] == 520 && list[13] == 623 && list[14] == 1434 && list[15] == 1900
        && list[16] == 3702 && list[17] == 5093 && list[18] == 5351 && list[19] == 5353 && list[20]
        == 10001 && list[21] == 11211 && list[22] == 32414);
    if list.contains(port) {
        let i = choose|i: int| 0 <= i < list.len() && list[i] == port;
        assert(list[i] == port);
    }
}

/// What is no IPv4 packet is refused: fewer than twenty bytes, another version, a header
/// length below twenty bytes, or a total length that is shorter than the header or longer
/// than what there is.
pub proof fn malformed_packets_are_refused(p: Seq<u8>)
    requires
        p.len() < 20 || p[0] / 16 != 4 || p[0] % 16 < 5 || p[2] as int * 256 + p[3] as int > p.len()
            || (p[2] as int * 256 + p[3] as int) < (p[0] % 16) as int * 4,
    ensures
        packet_view(p) is None,
{
}

/// Bytes behind a packet's total length change nothing.
pub proof fn trailing_bytes_do_not_count(p: Seq<u8>, extra: Seq<u8>)
    requires
        p.len() >= 20,
        p.len() == p[2] as int * 256 + p[3] as int,
    ensures
        packet_view(p + extra) == packet_view(p),
{
    let q = p + extra;
    assert(q.subrange(0, p.len() as int) =~= p);
    assert(p.subrange(0, p.len() as int) =~= p);
}

/// A whole TCP segment is one if its header has twenty bytes at least and fits: options
/// or none, payload or none. Unless its address is forbidden it is taken apart into the
/// addresses, ports and service byte of its headers, and all of its bytes.
pub proof fn tcp_segments_are_recognised(p: Seq<u8>)
    requires
        p.len() >= 20,
        p.len() == p[2] as int * 256 + p[3] as int,
        p[0] / 16 == 4,
        20 <= (p[0] % 16) as int * 4 <= p.len(),
        p[6] % 64 == 0 && p[7] == 0,
        p[9] == 6,
    ensures
        ({
            let at = (p[0] % 16) as int * 4;
            let tcp_header = (p[at + 12] / 16) as int * 4;
            if at + 20 <= p.len() && 20 <= tcp_header && at + tcp_header <= p.len() {
                if forbidden_ip(Ipv4Addr { a: p[16], b: p[17], c: p[18], d: p[19] }) {
                    packet_view(p) == Some(PacketView::ForbiddenDst)
                } else {
                    &&& packet_view(p) matches Some(PacketView::Tcp { info, raw })
                    &&& raw == p
                    &&& info.tos == p[1]
                    &&& info.src_ip == (Ipv4Addr { a: p[12], b: p[13], c: p[14], d: p[15] })
                    &&& info.dst_ip == (Ipv4Addr { a: p[16], b: p[17], c: p[18], d: p[19] })
                    &&& info.src_port == p[at] as int * 256 + p[at + 1] as int
                    &&& info.dst_port == p[at + 2] as int * 256 + p[at + 3] as int
                }
            } else {
                packet_view(p) is None
            }
        }),
{
    assert(p.subrange(0, p.len() as int) =~= p);
}

/// A whole UDP datagram is one if its length field has eight at least and fits. Unless
/// its address or port is forbidden it is taken apart into the addresses, ports and
/// service byte of its headers, as many bytes of payload as its length field states
/// besides the header, and all of its bytes.
pub proof fn udp_datagrams_are_recognised(p: Seq<u8>)
    requires
        p.len() >= 20,
        p.len() == p[2] as int * 256 + p[3] as int,
        p[0] / 16 == 4,
        20 <= (p[0] % 16) as int * 4 <= p.len(),
        p[6] % 64 == 0 && p[7] == 0,
        p[9] == 17,
    ensures
        ({
            let at = (p[0] % 16) as int * 4;
            let udp_len = p[at + 4] as int * 256 + p[at + 5] as int;
            let dst_port = p[at + 2] as int * 256 + p[at + 3] as int;
            if at + 8 <= p.len() && 8 <= udp_len && at + udp_len <= p.len() {
                if forbidden_ip(Ipv4Addr { a: p[16], b: p[17], c: p[18], d: p[19] })
                    || forbidden_port(dst_port as u16) {
                    packet_view(p) == Some(PacketView::ForbiddenDst)
                } else {
                    &&& packet_view(p) matches Some(PacketView::Udp { info, payload, raw })
                    &&& raw == p
                    &&& payload.len() == udp_len - 8
                    &&& forall|i: int| 0 <= i < payload.len() ==> #[trigger] payload[i] == p[at + 8 + i]
                    &&& info.tos == p[1]
                    &&& info.src_ip == (Ipv4Addr { a: p[12], b: p[13], c: p[14], d: p[15] })
                    &&& info.dst_ip == (Ipv4Addr { a: p[16], b: p[17], c: p[18], d: p[19] })
                    &&& info.src_port == p[at] as int * 256 + p[at + 1] as int
                    &&& info.dst_port == dst_port
                }
            } else {
                packet_view(p) is None
            }
        }),
{
    assert(p.subrange(0, p.len() as int) =~= p);
}

/// A fragment, one with more to come or with an offset, is taken as it is, unless its
/// address is forbidden. Its port is known where it has the first four bytes of a TCP or
/// UDP header.
pub proof fn fragments_are_recognised(p: Seq<u8>)
    requires
        p.len() >= 20,
        p.len() == p[2] as int * 256 + p[3] as int,
        p[0] / 16 == 4,
        20 <= (p[0] % 16) as int * 4 <= p.len(),
        p[6] % 64 != 0 || p[7] != 0,
    ensures
        ({
            let at = (p[0] % 16) as int * 4;
            let first = p[6] % 32 == 0 && p[7] == 0;
            let shown = first && (p[9] == 6 || p[9] == 17) && at + 4 <= p.len();
            if forbidden_ip(Ipv4Addr { a: p[16], b: p[17], c: p[18], d: p[19] }) {
                packet_view(p) == Some(PacketView::ForbiddenDst)
            } else {
                &&& packet_view(p) matches Some(
                    PacketView::Fragment { protocol, src_ip, dst_ip, dst_port, raw },
                )
                &&& raw == p
                &&& protocol == p[9]
                &&& src_ip == (Ipv4Addr { a: p[12], b: p[13], c: p[14], d: p[15] })
                &&& dst_ip == (Ipv4Addr { a: p[16], b: p[17], c: p[18], d: p[19] })
                &&& dst_port is Some <==> shown
                &&& shown ==> dst_port->Some_0 == p[at + 2] as int * 256 + p[at + 3] as int
            }
        }),
{
    assert(p.subrange(0, p.len() as int) =~= p);
}

/// What is whole and carries neither TCP nor UDP is refused.
pub proof fn other_protocols_are_refused(p: Seq<u8>)
    requires
        p.len() >= 20,
        p.len() == p[2] as int * 256 + p[3] as int,
        p[6] % 64 == 0 && p[7] == 0,
        p[9] != 6 && p[9] != 17,
    ensures
        packet_view(p) is None,
{
    assert(p.subrange(0, p.len() as int) =~= p);
}

/// A response is a UDP datagram from the client's destination to the client's source, in
/// an IPv4 packet of its own: twenty bytes of header, with the service byte, the length,
/// no fragmentation, a TTL of 64 and a checksum that makes the header sum to nothing
/// modulo all ones; eight bytes of UDP header, with the ports, the length and no
/// checksum; and the payload.
pub proof fn responses_go_the_other_way(payload: Seq<u8>, info: OriginalPacketInfo, tos: u8)
    requires
        payload.len() + 28 < 0x1_0000,
    ensures
        ({
            let p = response(payload, info, tos);
            let n = payload.len() as int;
            &&& p.len() == n + 28
            &&& p[0] == 0x45 && p[1] == tos
            &&& p[2] as int * 256 + p[3] as int == n + 28
            &&& p[4] == 0 && p[5] == 0 && p[6] == 0x40 && p[7] == 0 && p[8] == 64 && p[9] == 17
            &&& octet_sum(p.subrange(0, 20)) % 0xFFFF == 0
            &&& p[12] == info.dst_ip.a && p[13] == info.dst_ip.b && p[14] == info.dst_ip.c && p[15]
                == info.dst_ip.d
            &&& p[16] == info.src_ip.a && p[17] == info.src_ip.b && p[18] == info.src_ip.c && p[19]
                == info.src_ip.d
            &&& p[20] as int * 256 + p[21] as int == info.dst_port
            &&& p[22] as int * 256 + p[23] as int == info.src_port
            &&& p[24] as int * 256 + p[25] as int == n + 8
            &&& p[26] == 0 && p[27] == 0
            &&& forall|i: int| 0 <= i < n ==> #[trigger] payload[i] == p[28 + i]
        }),
{
    let p = response(payload, info, tos);
    let header = response_header((payload.len() + 28) as int, info, tos);
    lemma_fold_bounds(word_sum(header) as int % 0x1_0000_0000);
    lemma_put16_be16(header, 10, checksum_of(header));
    responses_have_a_valid_header(payload, info, tos);
    a_checksum_makes_the_sum_vanish(p.subrange(0, 20));
}

/// What is shown of a parsed packet is what it holds.
pub proof fn parsed_packets_show_their_fields(p: ParsedPacket)
    ensures
        match p {
            ParsedPacket::Udp { payload, original_info, raw_ip_packet, .. } => p@ is Udp && p@->Udp_info
                == original_info && p@->payload == payload@ && p@->Udp_raw == raw_ip_packet@,
            ParsedPacket::Tcp { original_info, raw_ip_packet } => p@ is Tcp && p@->Tcp_info
                == original_info && p@->Tcp_raw == raw_ip_packet@,
            ParsedPacket::Fragment { protocol, src_ip, dst_ip, dst_port, raw_ip_packet } => p@ is Fragment
                && p@->protocol == protocol && p@->src_ip == src_ip && p@->dst_ip == dst_ip && p@->dst_port
                == dst_port && p@->Fragment_raw == raw_ip_packet@,
            ParsedPacket::ForbiddenDst => p@ is ForbiddenDst,
        },
{
}

/// A packet is for the game server at its destination.
pub proof fn packets_are_for_their_destination(info: OriginalPacketInfo)
    ensures
        game_addr_of(info).ip == IpAddr::V4(info.dst_ip),
        game_addr_of(info).port == info.dst_port,
{
}

} // verus!
