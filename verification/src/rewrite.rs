//! Rewriting the addresses of an IPv4 packet and keeping its checksums right.

use crate::addr::{ipv4_at, put_ipv4, read_ipv4, write_ipv4, Ipv4Addr};
use crate::bytes::{be16, lemma_put16_be16, put16, read_be16, write_be16};
use crate::checksum::{
    a_checksum_makes_the_sum_vanish, add_words, calculate_ip_checksum, checksum_of,
    every_octet_is_summed, fold, fold_carries, lemma_checksum_completes,
    lemma_checksum_self_check, lemma_fold_bounds, lemma_fold_congruent, lemma_word_sum_add,
    lemma_word_sum_bound, lemma_word_sum_put16, octet_sum, sum_checksum, word_sum,
};
use vstd::prelude::*;

verus! {

/// The shortest IPv4 header.
pub const IP_HEADER_MIN: usize = 20;

/// IPv4 protocol number for TCP.
pub const IPPROTO_TCP: u8 = 6;

/// IPv4 protocol number for UDP.
pub const IPPROTO_UDP: u8 = 17;

/// Byte offset of the source address in an IPv4 header.
pub const IP_SRC_OFFSET: usize = 12;

/// Byte offset of the destination address in an IPv4 header.
pub const IP_DST_OFFSET: usize = 16;

/// The header length that the first byte of an IPv4 packet states.
pub open spec fn header_len(p: Seq<u8>) -> int {
    p[0] as int % 16 * 4
}

/// Whether the packet holds the whole header that its first byte states.
pub open spec fn has_header(p: Seq<u8>) -> bool {
    p.len() >= 20 && header_len(p) >= 20 && p.len() >= header_len(p)
}

/// The total length that the header states.
pub open spec fn total_len(p: Seq<u8>) -> int {
    be16(p, 2)
}

/// The packet with its header checksum recomputed, if it holds a whole header.
pub open spec fn with_ip_checksum(p: Seq<u8>) -> Seq<u8> {
    if has_header(p) {
        let z = put16(p, 10, 0);
        put16(z, 10, checksum_of(z.subrange(0, header_len(p))))
    } else {
        p
    }
}

/// The pseudo-header that TCP and UDP checksums cover: both addresses, a zero byte,
/// the protocol and the segment length.
pub open spec fn pseudo_header(p: Seq<u8>, protocol: u8, len: int) -> Seq<u8> {
    p.subrange(12, 20) + seq![0u8, protocol, (len / 256) as u8, (len % 256) as u8]
}

/// The transport segment: the bytes from the header's end to the total length.
pub open spec fn segment(p: Seq<u8>) -> Seq<u8> {
    p.subrange(header_len(p), total_len(p))
}

/// The word sum that the transport checksum covers.
pub open spec fn transport_sum(p: Seq<u8>, protocol: u8) -> int {
    (word_sum(pseudo_header(p, protocol, total_len(p) - header_len(p))) + word_sum(segment(p))) as int
}

/// Whether the packet holds a TCP segment with a whole minimal TCP header.
pub open spec fn has_tcp(p: Seq<u8>) -> bool {
    p.len() >= 20 && total_len(p) >= header_len(p) + 20 && p.len() >= total_len(p)
}

/// Whether the packet holds a UDP datagram with a whole UDP header.
pub open spec fn has_udp(p: Seq<u8>) -> bool {
    p.len() >= 20 && total_len(p) >= header_len(p) + 8 && p.len() >= total_len(p)
}

/// The packet with its TCP checksum recomputed, if it holds a TCP segment.
pub open spec fn with_tcp_checksum(p: Seq<u8>) -> Seq<u8> {
    if has_tcp(p) {
        let at = header_len(p) + 16;
        let z = put16(p, at, 0);
        put16(z, at, sum_checksum(transport_sum(z, IPPROTO_TCP)))
    } else {
        p
    }
}

/// A UDP checksum of zero is sent as `0xFFFF`: zero means that there is none.
pub open spec fn udp_field(checksum: int) -> int {
    if checksum == 0 {
        0xFFFF
    } else {
        checksum
    }
}

/// The packet with its UDP checksum recomputed, if it holds a UDP datagram that has
/// a checksum.
pub open spec fn with_udp_checksum(p: Seq<u8>) -> Seq<u8> {
    let at = header_len(p) + 6;
    if has_udp(p) && be16(p, at) != 0 {
        let z = put16(p, at, 0);
        put16(z, at, udp_field(sum_checksum(transport_sum(z, IPPROTO_UDP))))
    } else {
        p
    }
}

/// The fragment offset field in units of eight bytes.
pub open spec fn fragment_offset(p: Seq<u8>) -> int {
    be16(p, 6) % 0x2000
}

/// The flag that says that more fragments follow.
pub open spec fn more_fragments(p: Seq<u8>) -> bool {
    be16(p, 6) / 0x2000 % 2 == 1
}

/// Whether the packet is one fragment of a larger one.
pub open spec fn is_fragment(p: Seq<u8>) -> bool {
    has_header(p) && (more_fragments(p) || fragment_offset(p) != 0)
}

/// A checksum after an address that it covers was exchanged.
pub open spec fn adjusted(checksum: int, old_ip: Ipv4Addr, new_ip: Ipv4Addr) -> int {
    sum_checksum((0xFFFF - checksum) + (2 * 0xFFFF - old_ip.words()) + new_ip.words())
}

/// The first fragment of a TCP segment after an address was exchanged.
pub open spec fn with_fragment_tcp(p: Seq<u8>, old_ip: Ipv4Addr, new_ip: Ipv4Addr) -> Seq<u8> {
    let at = header_len(p) + 16;
    if header_len(p) >= 20 && p.len() >= header_len(p) + 18 {
        put16(p, at, adjusted(be16(p, at), old_ip, new_ip))
    } else {
        p
    }
}

/// The first fragment of a UDP datagram after an address was exchanged.
pub open spec fn with_fragment_udp(p: Seq<u8>, old_ip: Ipv4Addr, new_ip: Ipv4Addr) -> Seq<u8> {
    let at = header_len(p) + 6;
    if header_len(p) >= 20 && p.len() >= header_len(p) + 8 && be16(p, at) != 0 {
        put16(p, at, udp_field(adjusted(be16(p, at), old_ip, new_ip)))
    } else {
        p
    }
}

/// The packet with `new_ip` in the address field at `offset` and with the checksums
/// that cover it brought up to date. A fragment holds no complete segment: only its
/// first one has the transport checksum, which is adjusted for the new address.
pub open spec fn rewritten(p: Seq<u8>, offset: int, new_ip: Ipv4Addr) -> Seq<u8> {
    if p.len() < 20 || p.len() < offset + 4 {
        p
    } else {
        let old_ip = ipv4_at(p, offset);
        let q = with_ip_checksum(put_ipv4(p, offset, new_ip));
        if is_fragment(q) {
            if fragment_offset(q) != 0 {
                q
            } else if q[9] == IPPROTO_TCP {
                with_fragment_tcp(q, old_ip, new_ip)
            } else if q[9] == IPPROTO_UDP {
                with_fragment_udp(q, old_ip, new_ip)
            } else {
                q
            }
        } else if q[9] == IPPROTO_TCP {
            with_tcp_checksum(q)
        } else if q[9] == IPPROTO_UDP {
            with_udp_checksum(q)
        } else {
            q
        }
    }
}

fn ihl_bytes(packet: &[u8]) -> (r: usize)
    requires
        packet@.len() >= 1,
    ensures
        r == header_len(packet@),
        r <= 60,
{
    (packet[0] % 16) as usize * 4
}

/// The fragment offset of a packet that holds a whole header.
pub fn ipv4_fragment_offset(packet: &[u8]) -> (r: Option<u16>)
    ensures
        r == if has_header(packet@) {
            Some(fragment_offset(packet@) as u16)
        } else {
            None
        },
{
    if packet.len() < IP_HEADER_MIN {
        return None;
    }
    let ihl: usize = ihl_bytes(packet);
    if ihl < IP_HEADER_MIN || packet.len() < ihl {
        return None;
    }
    let bits: u16 = read_be16(packet, 6);
    Some(bits % 0x2000)
}

/// Whether the packet is a fragment.
pub fn ipv4_is_fragment(packet: &[u8]) -> (r: bool)
    ensures
        r == is_fragment(packet@),
{
    match ipv4_fragment_offset(packet) {
        None => false,
        Some(offset) => {
            let bits: u16 = read_be16(packet, 6);
            bits / 0x2000 % 2 == 1 || offset != 0
        },
    }
}

/// Recomputes the header checksum in place.
pub fn recalculate_ip_checksum(packet: &mut [u8])
    ensures
        final(packet)@ == with_ip_checksum(old(packet)@),
{
    if packet.len() < IP_HEADER_MIN {
        return;
    }
    let ihl: usize = ihl_bytes(packet);
    if ihl < IP_HEADER_MIN || packet.len() < ihl {
        return;
    }
    write_be16(packet, 10, 0);
    let checksum: u16 = calculate_ip_checksum(&packet[0..ihl]);
    write_be16(packet, 10, checksum);
}

/// The folded complement of the pseudo-header and the segment of `packet`.
fn transport_checksum(packet: &[u8], protocol: u8, ihl: usize, total: usize) -> (r: u16)
    requires
        packet@.len() >= 20,
        ihl == header_len(packet@),
        total == total_len(packet@),
        ihl <= total <= packet@.len(),
    ensures
        r == sum_checksum(transport_sum(packet@, protocol)),
{
    let len: usize = total - ihl;
    let tail = [0u8, protocol, (len / 256) as u8, (len % 256) as u8];
    let ghost pseudo = pseudo_header(packet@, protocol, len as int);
    proof {
        lemma_word_sum_bound(packet@.subrange(12, 20));
        lemma_word_sum_bound(tail@);
        lemma_word_sum_add(packet@.subrange(12, 20), tail@);
        assert(pseudo =~= packet@.subrange(12, 20) + tail@);
    }
    let sum: u32 = add_words(0, &packet[12..20]);
    let sum: u32 = add_words(sum, &tail);
    let sum: u32 = add_words(sum, &packet[ihl..total]);
    let folded: u16 = fold_carries(sum);
    0xFFFF - folded
}

/// Recomputes the TCP checksum over the pseudo-header and the segment.
pub fn recalculate_tcp_checksum(packet: &mut [u8])
    ensures
        final(packet)@ == with_tcp_checksum(old(packet)@),
{
    if packet.len() < IP_HEADER_MIN {
        return;
    }
    let ihl: usize = ihl_bytes(packet);
    if packet.len() < ihl {
        return;
    }
    let total: usize = read_be16(packet, 2) as usize;
    if total < ihl || packet.len() < total {
        return;
    }
    if total - ihl < 20 {
        return;
    }
    write_be16(packet, ihl + 16, 0);
    let checksum: u16 = transport_checksum(packet, IPPROTO_TCP, ihl, total);
    write_be16(packet, ihl + 16, checksum);
}

/// Recomputes the UDP checksum over the pseudo-header and the datagram. A datagram
/// without a checksum keeps having none.
pub fn recalculate_udp_checksum(packet: &mut [u8])
    ensures
        final(packet)@ == with_udp_checksum(old(packet)@),
{
    if packet.len() < IP_HEADER_MIN {
        return;
    }
    let ihl: usize = ihl_bytes(packet);
    if packet.len() < ihl {
        return;
    }
    let total: usize = read_be16(packet, 2) as usize;
    if total < ihl + 8 || packet.len() < total {
        return;
    }
    let existing: u16 = read_be16(packet, ihl + 6);
    if existing == 0 {
        return;
    }
    write_be16(packet, ihl + 6, 0);
    let checksum: u16 = transport_checksum(packet, IPPROTO_UDP, ihl, total);
    write_be16(packet, ihl + 6, if checksum == 0 { 0xFFFF } else { checksum });
}

/// The checksum after one covered address was exchanged for another.
pub fn adjust_checksum_for_ipv4_addr_change(checksum: u16, old_ip: Ipv4Addr, new_ip: Ipv4Addr) -> (r:
    u16)
    ensures
        r == adjusted(checksum as int, old_ip, new_ip),
{
    let old_hi: u32 = old_ip.a as u32 * 256 + old_ip.b as u32;
    let old_lo: u32 = old_ip.c as u32 * 256 + old_ip.d as u32;
    let new_hi: u32 = new_ip.a as u32 * 256 + new_ip.b as u32;
    let new_lo: u32 = new_ip.c as u32 * 256 + new_ip.d as u32;
    let sum: u32 = (0xFFFF - checksum as u32) + (0xFFFF - old_hi) + new_hi + (0xFFFF - old_lo)
        + new_lo;
    let folded: u16 = fold_carries(sum);
    0xFFFF - folded
}

/// Adjusts the TCP checksum of a first fragment.
pub fn update_fragment_tcp_checksum(packet: &mut [u8], old_ip: Ipv4Addr, new_ip: Ipv4Addr)
    requires
        old(packet)@.len() >= 1,
    ensures
        final(packet)@ == with_fragment_tcp(old(packet)@, old_ip, new_ip),
{
    let ihl: usize = ihl_bytes(packet);
    if ihl < IP_HEADER_MIN || packet.len() < ihl + 18 {
        return;
    }
    let checksum: u16 = read_be16(packet, ihl + 16);
    let fresh: u16 = adjust_checksum_for_ipv4_addr_change(checksum, old_ip, new_ip);
    write_be16(packet, ihl + 16, fresh);
}

/// Adjusts the UDP checksum of a first fragment.
pub fn update_fragment_udp_checksum(packet: &mut [u8], old_ip: Ipv4Addr, new_ip: Ipv4Addr)
    requires
        old(packet)@.len() >= 1,
    ensures
        final(packet)@ == with_fragment_udp(old(packet)@, old_ip, new_ip),
{
    let ihl: usize = ihl_bytes(packet);
    if ihl < IP_HEADER_MIN || packet.len() < ihl + 8 {
        return;
    }
    let checksum: u16 = read_be16(packet, ihl + 6);
    if checksum == 0 {
        return;
    }
    let fresh: u16 = adjust_checksum_for_ipv4_addr_change(checksum, old_ip, new_ip);
    write_be16(packet, ihl + 6, if fresh == 0 { 0xFFFF } else { fresh });
}

/// Puts `new_ip` into the address field at `offset` and fixes the checksums.
pub fn rewrite_ip_field(packet: &mut [u8], offset: usize, new_ip: Ipv4Addr)
    requires
        offset <= usize::MAX - 4,
    ensures
        final(packet)@ == rewritten(old(packet)@, offset as int, new_ip),
{
    if packet.len() < IP_HEADER_MIN || packet.len() < offset + 4 {
        return;
    }
    let old_ip: Ipv4Addr = read_ipv4(packet, offset);
    write_ipv4(packet, offset, new_ip);
    recalculate_ip_checksum(packet);
    if ipv4_is_fragment(packet) {
        if read_be16(packet, 6) % 0x2000 == 0 {
            if packet[9] == IPPROTO_TCP {
                update_fragment_tcp_checksum(packet, old_ip, new_ip);
            } else if packet[9] == IPPROTO_UDP {
                update_fragment_udp_checksum(packet, old_ip, new_ip);
            }
        }
        return;
    }
    if packet[9] == IPPROTO_TCP {
        recalculate_tcp_checksum(packet);
    } else if packet[9] == IPPROTO_UDP {
        recalculate_udp_checksum(packet);
    }
}

/// Rewrites the source address and fixes the checksums.
pub fn rewrite_src_ip(packet: &mut [u8], new_src: Ipv4Addr)
    ensures
        final(packet)@ == rewritten(old(packet)@, IP_SRC_OFFSET as int, new_src),
{
    rewrite_ip_field(packet, IP_SRC_OFFSET, new_src);
}

/// Rewrites the destination address and fixes the checksums.
pub fn rewrite_dst_ip(packet: &mut [u8], new_dst: Ipv4Addr)
    ensures
        final(packet)@ == rewritten(old(packet)@, IP_DST_OFFSET as int, new_dst),
{
    rewrite_ip_field(packet, IP_DST_OFFSET, new_dst);
}

/// The word sum of a short sequence, spelt out.
proof fn lemma_word_sum_four(s: Seq<u8>)
    requires
        s.len() == 4,
    ensures
        word_sum(s) == be16(s, 0) + be16(s, 2),
{
    let t = s.subrange(2, 4);
    let u = t.subrange(2, 2);
    assert(word_sum(u) == 0);
    assert(word_sum(t) == be16(t, 0) + word_sum(u));
    assert(word_sum(s) == be16(s, 0) + word_sum(t));
}

/// The pseudo-header sums both addresses, the protocol and the length.
proof fn lemma_pseudo_sum(p: Seq<u8>, protocol: u8, len: int)
    requires
        p.len() >= 20,
        0 <= len < 0x1_0000,
    ensures
        word_sum(pseudo_header(p, protocol, len)) == ipv4_at(p, 12).words() + ipv4_at(p, 16).words()
            + protocol + len,
{
    let src = p.subrange(12, 16);
    let dst = p.subrange(16, 20);
    let tail = seq![0u8, protocol, (len / 256) as u8, (len % 256) as u8];
    lemma_word_sum_four(src);
    lemma_word_sum_four(dst);
    lemma_word_sum_four(tail);
    assert(pseudo_header(p, protocol, len) =~= src + (dst + tail));
    lemma_word_sum_add(src, dst + tail);
    lemma_word_sum_add(dst, tail);
}

/// The address step alone: the header is valid afterwards, and apart from the address
/// and the header checksum nothing moves.
proof fn lemma_address_step(p: Seq<u8>, offset: int, new_ip: Ipv4Addr)
    requires
        has_header(p),
        offset == 12 || offset == 16,
    ensures
        ({
            let q = with_ip_checksum(put_ipv4(p, offset, new_ip));
            &&& q.len() == p.len()
            &&& has_header(q)
            &&& header_len(q) == header_len(p)
            &&& total_len(q) == total_len(p)
            &&& is_fragment(q) == is_fragment(p)
            &&& fragment_offset(q) == fragment_offset(p)
            &&& ipv4_at(q, offset) == new_ip
            &&& ipv4_at(q, 28 - offset) == ipv4_at(p, 28 - offset)
            &&& checksum_of(q.subrange(0, header_len(q))) == 0
            &&& forall|i: int|
                0 <= i < p.len() && !(offset <= i < offset + 4) && i != 10 && i != 11 ==> q[i] == p[i]
        }),
{
    let a = put_ipv4(p, offset, new_ip);
    let hl = header_len(p);
    let z = put16(a, 10, 0);
    let zh = z.subrange(0, hl);
    lemma_put16_be16(a, 10, 0);
    lemma_fold_bounds(word_sum(zh) as int % 0x1_0000_0000);
    let c = checksum_of(zh);
    let q = put16(z, 10, c);
    lemma_put16_be16(z, 10, c);
    assert(q == with_ip_checksum(a));
    lemma_checksum_self_check(zh, 10);
    assert(q.subrange(0, hl) =~= put16(zh, 10, c));
}

/// Replacing the checksum field of the transport segment by what completes the sum.
proof fn lemma_transport_completes(q: Seq<u8>, protocol: u8, at: int)
    requires
        has_header(q),
        header_len(q) <= at,
        at % 2 == 0,
        at + 2 <= total_len(q) <= q.len(),
    ensures
        ({
            let z = put16(q, at, 0);
            let c = sum_checksum(transport_sum(z, protocol));
            &&& 0 <= c <= 0xFFFF
            &&& fold(transport_sum(put16(z, at, c), protocol)) == 0xFFFF
            &&& transport_sum(z, protocol) > 0 && c == 0 ==> fold(
                transport_sum(put16(z, at, 0xFFFF), protocol),
            ) == 0xFFFF
        }),
{
    let z = put16(q, at, 0);
    lemma_put16_be16(q, at, 0);
    let hl = header_len(q);
    let len = total_len(q) - hl;
    let n = transport_sum(z, protocol);
    lemma_fold_bounds(n);
    let c = sum_checksum(n);
    lemma_completes_at(z, protocol, at, c);
    lemma_checksum_completes(n);
    lemma_completes_at(z, protocol, at, 0xFFFF);
    if n > 0 && c == 0 {
        assert(fold(n) == 0xFFFF);
        assert((n + 0xFFFF) % 0xFFFF == n % 0xFFFF);
        lemma_fold_congruent(n + 0xFFFF, n);
    }
}

/// A value written into a zero checksum field adds itself to the sum.
proof fn lemma_completes_at(z: Seq<u8>, protocol: u8, at: int, c: int)
    requires
        has_header(z),
        header_len(z) <= at,
        at % 2 == 0,
        at + 2 <= total_len(z) <= z.len(),
        be16(z, at) == 0,
        0 <= c < 0x1_0000,
    ensures
        transport_sum(put16(z, at, c), protocol) == transport_sum(z, protocol) + c,
{
    let r = put16(z, at, c);
    lemma_put16_be16(z, at, c);
    let hl = header_len(z);
    let len = total_len(z) - hl;
    assert(pseudo_header(r, protocol, len) =~= pseudo_header(z, protocol, len));
    assert(segment(r) =~= put16(segment(z), at - hl, c));
    lemma_word_sum_put16(segment(z), at - hl, c);
}

/// Rewriting an address leaves a valid header checksum.
pub proof fn rewriting_leaves_a_valid_header(p: Seq<u8>, offset: int, new_ip: Ipv4Addr)
    requires
        has_header(p),
        offset == IP_SRC_OFFSET || offset == IP_DST_OFFSET,
    ensures
        ({
            let q = rewritten(p, offset, new_ip);
            &&& ipv4_at(q, offset) == new_ip
            &&& header_len(q) == header_len(p)
            &&& checksum_of(q.subrange(0, header_len(q))) == 0
        }),
{
    rewriting_touches_only_address_and_checksums(p, offset, new_ip);
    lemma_address_step(p, offset, new_ip);
    let a = with_ip_checksum(put_ipv4(p, offset, new_ip));
    let q = rewritten(p, offset, new_ip);
    assert(q.subrange(0, header_len(q)) =~= a.subrange(0, header_len(a)));
}

/// Rewriting an address changes that address, the header checksum, and the checksum
/// field of a transport header that starts in this packet, and not one other byte.
pub proof fn rewriting_touches_only_address_and_checksums(p: Seq<u8>, offset: int, new_ip: Ipv4Addr)
    requires
        has_header(p),
        offset == IP_SRC_OFFSET || offset == IP_DST_OFFSET,
    ensures
        ({
            let q = rewritten(p, offset, new_ip);
            let hl = header_len(p);
            let first = !is_fragment(p) || fragment_offset(p) == 0;
            let at = if p[9] == IPPROTO_TCP {
                hl + 16
            } else {
                hl + 6
            };
            &&& q.len() == p.len()
            &&& forall|i: int|
                0 <= i < p.len() && !(offset <= i < offset + 4) && i != 10 && i != 11 && !(first && (
                p[9] == IPPROTO_TCP || p[9] == IPPROTO_UDP) && (i == at || i == at + 1)) ==> q[i]
                    == p[i]
            &&& forall|i: int| hl <= i < p.len() && !first ==> q[i] == p[i]
            &&& forall|i: int|
                0 <= i < hl ==> #[trigger] q[i] == with_ip_checksum(put_ipv4(p, offset, new_ip))[i]
        }),
{
    lemma_address_step(p, offset, new_ip);
}

/// A whole TCP segment has a valid checksum after its packet was rewritten.
pub proof fn rewriting_leaves_a_valid_tcp_checksum(p: Seq<u8>, offset: int, new_ip: Ipv4Addr)
    requires
        has_header(p),
        !is_fragment(p),
        p[9] == IPPROTO_TCP,
        has_tcp(p),
        offset == IP_SRC_OFFSET || offset == IP_DST_OFFSET,
    ensures
        fold(transport_sum(rewritten(p, offset, new_ip), IPPROTO_TCP)) == 0xFFFF,
{
    lemma_address_step(p, offset, new_ip);
    let q = with_ip_checksum(put_ipv4(p, offset, new_ip));
    lemma_transport_completes(q, IPPROTO_TCP, header_len(q) + 16);
}

/// A whole UDP datagram that has a checksum has a valid one after its packet was
/// rewritten, and one that has none still has none.
pub proof fn rewriting_leaves_a_valid_udp_checksum(p: Seq<u8>, offset: int, new_ip: Ipv4Addr)
    requires
        has_header(p),
        !is_fragment(p),
        p[9] == IPPROTO_UDP,
        has_udp(p),
        offset == IP_SRC_OFFSET || offset == IP_DST_OFFSET,
    ensures
        ({
            let q = rewritten(p, offset, new_ip);
            let at = header_len(p) + 6;
            &&& be16(p, at) != 0 ==> be16(q, at) != 0 && fold(transport_sum(q, IPPROTO_UDP)) == 0xFFFF
            &&& be16(p, at) == 0 ==> be16(q, at) == 0
        }),
{
    lemma_address_step(p, offset, new_ip);
    let q = with_ip_checksum(put_ipv4(p, offset, new_ip));
    let at = header_len(q) + 6;
    lemma_transport_completes(q, IPPROTO_UDP, at);
    let z = put16(q, at, 0);
    lemma_put16_be16(q, at, 0);
    lemma_pseudo_sum(z, IPPROTO_UDP, total_len(z) - header_len(z));
    let c = sum_checksum(transport_sum(z, IPPROTO_UDP));
    lemma_put16_be16(z, at, udp_field(c));
}

/// Exchanging an address and adjusting the checksum keeps the covered sum, modulo
/// `0xFFFF`.
proof fn lemma_adjusted_keeps_sum(c: int, old_ip: Ipv4Addr, new_ip: Ipv4Addr)
    requires
        0 <= c <= 0xFFFF,
    ensures
        0 <= adjusted(c, old_ip, new_ip) <= 0xFFFF,
        (adjusted(c, old_ip, new_ip) + new_ip.words()) % 0xFFFF == (c + old_ip.words()) % 0xFFFF,
        (udp_field(adjusted(c, old_ip, new_ip)) + new_ip.words()) % 0xFFFF == (c + old_ip.words())
            % 0xFFFF,
{
    let x = (0xFFFF - c) + (2 * 0xFFFF - old_ip.words()) + new_ip.words();
    lemma_fold_bounds(x);
    let f = fold(x);
    let lhs = 0xFFFF - f + new_ip.words();
    let k = x - f;
    assert(k % 0xFFFF == 0) by {
        vstd::arithmetic::div_mod::lemma_sub_mod_noop(x, f, 0xFFFF);
    }
    assert(c + old_ip.words() == lhs + 2 * 0xFFFF - k);
    let m = k / 0xFFFF;
    assert(k == m * 0xFFFF);
    vstd::arithmetic::div_mod::lemma_mod_multiples_vanish(2 - m, lhs, 0xFFFF);
    assert(0xFFFF * (2 - m) + lhs == c + old_ip.words()) by (nonlinear_arith)
        requires
            k == m * 0xFFFF,
            c + old_ip.words() == lhs + 2 * 0xFFFF - k,
    ;
}

/// A datagram that was sent in fragments and had a valid checksum has one when it is
/// put together again after every fragment was rewritten: `tail` is what the later
/// fragments carry, which rewriting leaves alone, and `len` the length of the whole.
pub proof fn rewriting_fragments_keeps_the_checksum(
    p: Seq<u8>,
    offset: int,
    new_ip: Ipv4Addr,
    tail: Seq<u8>,
    len: int,
)
    requires
        has_header(p),
        is_fragment(p),
        fragment_offset(p) == 0,
        p[9] == IPPROTO_TCP && p.len() >= header_len(p) + 18 || p[9] == IPPROTO_UDP && p.len()
            >= header_len(p) + 8 && be16(p, header_len(p) + 6) != 0,
        offset == IP_SRC_OFFSET || offset == IP_DST_OFFSET,
        0 <= len < 0x1_0000,
        fold(
            (word_sum(pseudo_header(p, p[9], len)) + word_sum(
                p.subrange(header_len(p), p.len() as int) + tail,
            )) as int,
        ) == 0xFFFF,
    ensures
        ({
            let q = rewritten(p, offset, new_ip);
            fold(
                (word_sum(pseudo_header(q, q[9], len)) + word_sum(
                    q.subrange(header_len(q), q.len() as int) + tail,
                )) as int,
            ) == 0xFFFF
        }),
{
    let at = if p[9] == IPPROTO_TCP {
        header_len(p) + 16
    } else {
        header_len(p) + 6
    };
    let a = with_ip_checksum(put_ipv4(p, offset, new_ip));
    let c2 = lemma_first_fragment(p, offset, new_ip, at);
    lemma_address_step(p, offset, new_ip);
    lemma_fragment_exchange(p, a, put16(a, at, c2), offset, at, c2, new_ip, tail, len);
}

/// What rewriting does to a first fragment after the address step: one word changes.
proof fn lemma_first_fragment(p: Seq<u8>, offset: int, new_ip: Ipv4Addr, at: int) -> (c2: int)
    requires
        has_header(p),
        is_fragment(p),
        fragment_offset(p) == 0,
        p[9] == IPPROTO_TCP && p.len() >= header_len(p) + 18 && at == header_len(p) + 16 || p[9]
            == IPPROTO_UDP && p.len() >= header_len(p) + 8 && be16(p, header_len(p) + 6) != 0 && at
            == header_len(p) + 6,
        offset == 12 || offset == 16,
    ensures
        0 <= c2 < 0x1_0000,
        rewritten(p, offset, new_ip) == put16(with_ip_checksum(put_ipv4(p, offset, new_ip)), at, c2),
        (c2 + new_ip.words()) % 0xFFFF == (be16(p, at) + ipv4_at(p, offset).words()) % 0xFFFF,
{
    lemma_address_step(p, offset, new_ip);
    let old_ip = ipv4_at(p, offset);
    let a = with_ip_checksum(put_ipv4(p, offset, new_ip));
    let c = be16(p, at);
    assert(c == be16(a, at));
    lemma_adjusted_keeps_sum(c, old_ip, new_ip);
    if p[9] == IPPROTO_TCP {
        adjusted(c, old_ip, new_ip)
    } else {
        udp_field(adjusted(c, old_ip, new_ip))
    }
}

/// The sums before and after the exchange of an address and of the checksum at `at`.
proof fn lemma_fragment_exchange(
    p: Seq<u8>,
    a: Seq<u8>,
    q: Seq<u8>,
    offset: int,
    at: int,
    c2: int,
    new_ip: Ipv4Addr,
    tail: Seq<u8>,
    len: int,
)
    requires
        has_header(p),
        p[9] > 0,
        offset == 12 || offset == 16,
        0 <= len < 0x1_0000,
        header_len(p) <= at,
        at % 2 == 0,
        at + 1 < p.len(),
        a.len() == p.len(),
        header_len(a) == header_len(p),
        0 <= c2 < 0x1_0000,
        q == put16(a, at, c2),
        ipv4_at(a, offset) == new_ip,
        ipv4_at(a, 28 - offset) == ipv4_at(p, 28 - offset),
        a[9] == p[9],
        a[0] == p[0],
        forall|i: int| header_len(p) <= i < p.len() ==> a[i] == p[i],
        (c2 + new_ip.words()) % 0xFFFF == (be16(p, at) + ipv4_at(p, offset).words()) % 0xFFFF,
    ensures
        fold(
            (word_sum(pseudo_header(p, p[9], len)) + word_sum(
                p.subrange(header_len(p), p.len() as int) + tail,
            )) as int,
        ) == fold(
            (word_sum(pseudo_header(q, q[9], len)) + word_sum(
                q.subrange(header_len(q), q.len() as int) + tail,
            )) as int,
        ),
{
    let hl = header_len(p);
    let old_ip = ipv4_at(p, offset);
    let c = be16(p, at);
    let dp = p.subrange(hl, p.len() as int) + tail;
    let dq = q.subrange(hl, q.len() as int) + tail;
    lemma_datagram_exchange(p, a, at, c2, tail);
    lemma_put16_be16(a, at, c2);
    lemma_pseudo_exchange(p, q, offset, new_ip, len);
    let np = (word_sum(pseudo_header(p, p[9], len)) + word_sum(dp)) as int;
    let nq = (word_sum(pseudo_header(q, q[9], len)) + word_sum(dq)) as int;
    lemma_exchanged_term(np, nq, c + old_ip.words(), c2 + new_ip.words());
}

/// The sum over a datagram, of which `p` carries the start, moves by the exchange of
/// the word at `at`.
proof fn lemma_datagram_exchange(p: Seq<u8>, a: Seq<u8>, at: int, c2: int, tail: Seq<u8>)
    requires
        0 <= header_len(p) <= at,
        header_len(p) % 2 == 0,
        at % 2 == 0,
        at + 1 < p.len(),
        a.len() == p.len(),
        0 <= c2 < 0x1_0000,
        forall|i: int| header_len(p) <= i < p.len() ==> a[i] == p[i],
    ensures
        ({
            let hl = header_len(p);
            word_sum(put16(a, at, c2).subrange(hl, p.len() as int) + tail) == word_sum(
                p.subrange(hl, p.len() as int) + tail,
            ) - be16(p, at) + c2
        }),
{
    let hl = header_len(p);
    let d = p.subrange(hl, p.len() as int) + tail;
    assert(put16(a, at, c2).subrange(hl, p.len() as int) + tail =~= put16(d, at - hl, c2));
    lemma_word_sum_put16(d, at - hl, c2);
    assert(be16(d, at - hl) == be16(p, at));
}

/// The sum over a pseudo header moves by the exchange of the address at `offset`.
proof fn lemma_pseudo_exchange(p: Seq<u8>, q: Seq<u8>, offset: int, new_ip: Ipv4Addr, len: int)
    requires
        offset == 12 || offset == 16,
        p[9] > 0,
        p.len() >= 20,
        q.len() >= 20,
        q[9] == p[9],
        0 <= len < 0x1_0000,
        ipv4_at(q, offset) == new_ip,
        ipv4_at(q, 28 - offset) == ipv4_at(p, 28 - offset),
    ensures
        word_sum(pseudo_header(p, p[9], len)) > 0,
        word_sum(pseudo_header(q, q[9], len)) > 0,
        word_sum(pseudo_header(q, q[9], len)) - new_ip.words() == word_sum(
            pseudo_header(p, p[9], len),
        ) - ipv4_at(p, offset).words(),
{
    lemma_pseudo_sum(p, p[9], len);
    lemma_pseudo_sum(q, q[9], len);
}

/// Exchanging one term of a sum for another that agrees modulo `0xFFFF`.
proof fn lemma_exchanged_term(np: int, nq: int, x: int, y: int)
    requires
        np > 0,
        nq > 0,
        nq - y == np - x,
        x % 0xFFFF == y % 0xFFFF,
    ensures
        fold(np) == fold(nq),
{
    let rest = np - x;
    vstd::arithmetic::div_mod::lemma_add_mod_noop(rest, y, 0xFFFF);
    vstd::arithmetic::div_mod::lemma_add_mod_noop(rest, x, 0xFFFF);
    lemma_fold_congruent(np, nq);
}

/// The sum that a transport checksum covers, in octets: both addresses, the protocol,
/// the length of the segment, and every octet of the segment.
proof fn lemma_transport_octets(p: Seq<u8>, protocol: u8)
    requires
        p.len() >= 20,
        header_len(p) <= total_len(p) <= p.len(),
    ensures
        transport_sum(p, protocol) == octet_sum(p.subrange(12, 20)) + protocol + (total_len(p)
            - header_len(p)) + octet_sum(p.subrange(header_len(p), total_len(p))),
{
    let len = total_len(p) - header_len(p);
    lemma_pseudo_sum(p, protocol, len);
    every_octet_is_summed(segment(p));
    let a = p.subrange(12, 20);
    every_octet_is_summed(a);
    lemma_word_sum_add(a.subrange(0, 4), a.subrange(4, 8));
    assert(a =~= a.subrange(0, 4) + a.subrange(4, 8));
    lemma_word_sum_four(a.subrange(0, 4));
    lemma_word_sum_four(a.subrange(4, 8));
}

/// A packet whose address was rewritten is as it was but for three fields: the address,
/// which is the new one, the header checksum, and the checksum of a TCP or UDP header
/// at the start of what the packet carries. A packet too short for a header is left alone.
#[verifier::rlimit(40)]
pub proof fn rewriting_keeps_everything_else(p: Seq<u8>, offset: int, new_ip: Ipv4Addr, i: int)
    requires
        offset == 12 || offset == 16,
        0 <= i < p.len(),
    ensures
        ({
            let q = rewritten(p, offset, new_ip);
            let hl = p[0] as int % 16 * 4;
            let later_fragment = p[6] % 32 != 0 || p[7] != 0;
            let at = if p[9] == 6 {
                hl + 16
            } else {
                hl + 6
            };
            &&& q.len() == p.len()
            &&& p.len() < 20 ==> q == p
            &&& p.len() >= 20 && 20 <= hl <= p.len() ==> {
                &&& q[offset] == new_ip.a && q[offset + 1] == new_ip.b && q[offset + 2] == new_ip.c
                    && q[offset + 3] == new_ip.d
                &&& q[i] != p[i] ==> offset <= i < offset + 4 || i == 10 || i == 11 || {
                    &&& i == at || i == at + 1
                    &&& p[9] == 6 || p[9] == 17
                    &&& !later_fragment
                }
                &&& p[9] == 17 && p.len() >= hl + 8 && p[hl + 6] == 0 && p[hl + 7] == 0 && i >= hl
                    ==> q[i] == p[i]
            }
        }),
{
    if p.len() >= 20 && 20 <= header_len(p) <= p.len() {
        rewriting_touches_only_address_and_checksums(p, offset, new_ip);
        lemma_address_step(p, offset, new_ip);
        rewriting_leaves_a_valid_header(p, offset, new_ip);
        let later_fragment = p[6] % 32 != 0 || p[7] != 0;
        assert(later_fragment <==> fragment_offset(p) != 0);
    }
}

/// The octets of a header sum to nothing modulo all ones after an address in it was
/// rewritten.
pub proof fn a_rewritten_header_sums_to_nothing(p: Seq<u8>, offset: int, new_ip: Ipv4Addr)
    requires
        p.len() >= 20,
        20 <= p[0] as int % 16 * 4 <= p.len(),
        offset == 12 || offset == 16,
    ensures
        octet_sum(rewritten(p, offset, new_ip).subrange(0, p[0] as int % 16 * 4)) % 0xFFFF == 0,
{
    rewriting_leaves_a_valid_header(p, offset, new_ip);
    let q = rewritten(p, offset, new_ip);
    a_checksum_makes_the_sum_vanish(q.subrange(0, header_len(p)));
}

/// A whole TCP segment, or a whole UDP datagram with a checksum, is one that its
/// receiver accepts after an address was rewritten: the addresses, the protocol, the
/// length and every octet from the end of the header to the total length sum to nothing
/// modulo all ones. A UDP datagram without a checksum gets none, and one with a checksum
/// does not lose it.
#[verifier::rlimit(60)]
pub proof fn a_rewritten_segment_sums_to_nothing(p: Seq<u8>, offset: int, new_ip: Ipv4Addr)
    requires
        p.len() >= 20,
        20 <= p[0] as int % 16 * 4,
        offset == 12 || offset == 16,
        p[6] % 64 == 0 && p[7] == 0,
        p[9] == 6 || p[9] == 17,
        ({
            let hl = p[0] as int % 16 * 4;
            let total = p[2] as int * 256 + p[3] as int;
            &&& total <= p.len()
            &&& p[9] == 6 ==> hl + 20 <= total
            &&& p[9] == 17 ==> hl + 8 <= total
        }),
    ensures
        ({
            let q = rewritten(p, offset, new_ip);
            let hl = p[0] as int % 16 * 4;
            let total = p[2] as int * 256 + p[3] as int;
            let sum = octet_sum(q.subrange(12, 20)) + p[9] + (total - hl) + octet_sum(
                q.subrange(hl, total),
            );
            let without = p[9] == 17 && p[hl + 6] == 0 && p[hl + 7] == 0;
            &&& !without ==> sum % 0xFFFF == 0
            &&& p[9] == 17 ==> (without <==> q[hl + 6] == 0 && q[hl + 7] == 0)
        }),
{
    let q = rewritten(p, offset, new_ip);
    let hl = header_len(p);
    assert(!is_fragment(p));
    lemma_address_step(p, offset, new_ip);
    rewriting_keeps_everything_else(p, offset, new_ip, 0);
    rewriting_keeps_everything_else(p, offset, new_ip, 2);
    rewriting_keeps_everything_else(p, offset, new_ip, 3);
    lemma_transport_octets(q, p[9]);
    if p[9] == IPPROTO_TCP {
        rewriting_leaves_a_valid_tcp_checksum(p, offset, new_ip);
    } else {
        rewriting_leaves_a_valid_udp_checksum(p, offset, new_ip);
    }
    lemma_fold_bounds(transport_sum(q, p[9]));
}

/// The first fragment of a datagram keeps the checksum of the whole right: with the
/// octets `tail` of the later fragments behind its own, and `len` octets in all, what
/// summed to nothing modulo all ones still does after the address was rewritten.
#[verifier::rlimit(60)]
pub proof fn a_rewritten_first_fragment_sums_as_before(
    p: Seq<u8>,
    offset: int,
    new_ip: Ipv4Addr,
    tail: Seq<u8>,
    len: int,
)
    requires
        p.len() >= 20,
        20 <= p[0] as int % 16 * 4 <= p.len(),
        offset == 12 || offset == 16,
        p[6] % 64 == 32 && p[7] == 0,
        0 <= len < 0x1_0000,
        ({
            let hl = p[0] as int % 16 * 4;
            &&& p[9] == 6 && p.len() >= hl + 18 || p[9] == 17 && p.len() >= hl + 8 && !(p[hl + 6] == 0
                && p[hl + 7] == 0)
            &&& (octet_sum(p.subrange(12, 20)) + p[9] + len + octet_sum(
                p.subrange(hl, p.len() as int) + tail,
            )) % 0xFFFF == 0
        }),
    ensures
        ({
            let q = rewritten(p, offset, new_ip);
            let hl = p[0] as int % 16 * 4;
            (octet_sum(q.subrange(12, 20)) + p[9] + len + octet_sum(
                q.subrange(hl, p.len() as int) + tail,
            )) % 0xFFFF == 0
        }),
{
    let q = rewritten(p, offset, new_ip);
    let hl = header_len(p);
    assert(is_fragment(p) && fragment_offset(p) == 0);
    lemma_address_step(p, offset, new_ip);
    rewriting_keeps_everything_else(p, offset, new_ip, 0);
    rewriting_keeps_everything_else(p, offset, new_ip, 9);
    lemma_datagram_octets(p, len, p.subrange(hl, p.len() as int) + tail);
    lemma_datagram_octets(q, len, q.subrange(hl, p.len() as int) + tail);
    let n = (word_sum(pseudo_header(p, p[9], len)) + word_sum(p.subrange(hl, p.len() as int) + tail)) as int;
    lemma_fold_bounds(n);
    lemma_pseudo_sum(p, p[9], len);
    rewriting_fragments_keeps_the_checksum(p, offset, new_ip, tail, len);
    let m = (word_sum(pseudo_header(q, q[9], len)) + word_sum(q.subrange(hl, p.len() as int) + tail)) as int;
    lemma_fold_bounds(m);
}

/// The sum over a datagram of which a packet has the header, in octets.
proof fn lemma_datagram_octets(p: Seq<u8>, len: int, d: Seq<u8>)
    requires
        p.len() >= 20,
        0 <= len < 0x1_0000,
    ensures
        word_sum(pseudo_header(p, p[9], len)) + word_sum(d) == octet_sum(p.subrange(12, 20)) + p[9]
            + len + octet_sum(d),
{
    lemma_pseudo_sum(p, p[9], len);
    every_octet_is_summed(d);
    let a = p.subrange(12, 20);
    every_octet_is_summed(a);
    lemma_word_sum_add(a.subrange(0, 4), a.subrange(4, 8));
    assert(a =~= a.subrange(0, 4) + a.subrange(4, 8));
    lemma_word_sum_four(a.subrange(0, 4));
    lemma_word_sum_four(a.subrange(4, 8));
}

/// A packet with a whole header is a fragment if it says that more follow, or that others
/// come before it; how far it is behind the first one is in the low thirteen bits, and the
/// header is as long as the first byte says, in words of four bytes.
pub proof fn fragments_are_told_by_their_flags(p: Seq<u8>)
    requires
        p.len() >= 20,
    ensures
        header_len(p) == p[0] as int % 16 * 4,
        has_header(p) <==> p[0] as int % 16 >= 5 && p.len() >= p[0] as int % 16 * 4,
        fragment_offset(p) == p[6] as int % 32 * 256 + p[7] as int,
        is_fragment(p) <==> has_header(p) && (p[6] as int / 32 % 2 == 1 || p[6] as int % 32 != 0 || p[7]
            != 0),
        total_len(p) == p[2] as int * 256 + p[3] as int,
{
}

} // verus!
