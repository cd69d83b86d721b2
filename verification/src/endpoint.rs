//! Endpoints as text.

use crate::addr::{ipv4_of, lemma_ipv4_of_bits, IpAddr, Ipv4Addr, SocketAddr};
use crate::auth::{hex, hex_digit, hex_range, hex_reads_back, hex_value, push_hex};
use crate::dest_policy::{dotted_text, dotted_texts_have_four_pieces, push_dotted};
use crate::text::{
    decimal, decimals_read_back, find, is_digit, push_decimal, split, splitting_goes_from_piece_to_piece,
    the_first_occurrence_is_found,
};
use vstd::prelude::*;
use vstd::string::*;

verus! {

/// The eight 16-bit groups of an IPv6 address.
pub open spec fn groups_of(bits: u128) -> Seq<u16> {
    seq![
        (bits / 0x1_0000_0000_0000_0000_0000_0000_0000) as u16,
        (bits / 0x1_0000_0000_0000_0000_0000_0000 % 0x1_0000) as u16,
        (bits / 0x1_0000_0000_0000_0000_0000 % 0x1_0000) as u16,
        (bits / 0x1_0000_0000_0000_0000 % 0x1_0000) as u16,
        (bits / 0x1_0000_0000_0000 % 0x1_0000) as u16,
        (bits / 0x1_0000_0000 % 0x1_0000) as u16,
        (bits / 0x1_0000 % 0x1_0000) as u16,
        (bits % 0x1_0000) as u16,
    ]
}

fn groups(bits: u128) -> (r: [u16; 8])
    ensures
        r@ == groups_of(bits),
{
    let r = [
        (bits / 0x1_0000_0000_0000_0000_0000_0000_0000) as u16,
        (bits / 0x1_0000_0000_0000_0000_0000_0000 % 0x1_0000) as u16,
        (bits / 0x1_0000_0000_0000_0000_0000 % 0x1_0000) as u16,
        (bits / 0x1_0000_0000_0000_0000 % 0x1_0000) as u16,
        (bits / 0x1_0000_0000_0000 % 0x1_0000) as u16,
        (bits / 0x1_0000_0000 % 0x1_0000) as u16,
        (bits / 0x1_0000 % 0x1_0000) as u16,
        (bits % 0x1_0000) as u16,
    ];
    assert(r@ =~= groups_of(bits));
    r
}

/// How many zero groups there are in a row from `i` on.
pub open spec fn zeros_at(g: Seq<u16>, i: int) -> int
    decreases g.len() - i,
{
    if 0 <= i < g.len() && g[i] == 0 {
        1 + zeros_at(g, i + 1)
    } else {
        0
    }
}

/// Where the longest row of zero groups starts, among those that start before `i`; the
/// first of several.
pub open spec fn longest_zeros(g: Seq<u16>, i: int) -> int
    decreases i,
{
    if i <= 0 {
        0
    } else {
        let before = longest_zeros(g, i - 1);
        if zeros_at(g, i - 1) > zeros_at(g, before) {
            i - 1
        } else {
            before
        }
    }
}

/// How many hexadecimal digits a group needs.
pub open spec fn hex_width(n: u16) -> nat {
    if n < 0x10 {
        1
    } else if n < 0x100 {
        2
    } else if n < 0x1000 {
        3
    } else {
        4
    }
}

/// Groups in hexadecimal, with colons between them.
pub open spec fn joined(g: Seq<u16>) -> Seq<char>
    decreases g.len(),
{
    if g.len() == 0 {
        Seq::empty()
    } else if g.len() == 1 {
        hex(g[0] as nat, hex_width(g[0]))
    } else {
        joined(g.drop_last()) + ":"@ + hex(g.last() as nat, hex_width(g.last()))
    }
}

/// An IPv6 address as text: an IPv4 address that is mapped into it in dotted decimal
/// notation; otherwise the groups in hexadecimal, with two colons in place of the
/// longest row of at least two zero groups.
pub open spec fn ipv6_text(bits: u128) -> Seq<char> {
    let g = groups_of(bits);
    let start = longest_zeros(g, 8);
    let len = zeros_at(g, start);
    if bits / 0x1_0000_0000 == 0xFFFF {
        "::ffff:"@ + dotted_text(ipv4_of((bits % 0x1_0000_0000) as int))
    } else if len > 1 {
        joined(g.subrange(0, start)) + "::"@ + joined(g.subrange(start + len, 8))
    } else {
        joined(g)
    }
}

/// An endpoint as text: the address, an IPv6 one in square brackets, a colon, the port.
pub open spec fn endpoint_text(addr: SocketAddr) -> Seq<char> {
    match addr.ip {
        IpAddr::V4(ip) => dotted_text(ip) + ":"@ + decimal(addr.port as nat),
        IpAddr::V6(bits) => "["@ + ipv6_text(bits) + "]:"@ + decimal(addr.port as nat),
    }
}

fn count_zeros(g: &[u16; 8], from: usize) -> (r: usize)
    requires
        from <= 8,
    ensures
        r == zeros_at(g@, from as int),
        from + r <= 8,
    decreases 8 - from,
{
    if from < 8 && g[from] == 0 {
        let rest: usize = count_zeros(g, from + 1);
        1 + rest
    } else {
        0
    }
}

fn push_joined(s: &mut String, g: &[u16; 8], from: usize, to: usize)
    requires
        from <= to <= 8,
    ensures
        final(s)@ == old(s)@ + joined(g@.subrange(from as int, to as int)),
{
    let ghost before = s@;
    let ghost all = g@.subrange(from as int, to as int);
    let mut i: usize = from;
    assert(s@ =~= before + joined(all.take(0)));
    while i < to
        invariant
            from <= i <= to <= 8,
            all == g@.subrange(from as int, to as int),
            s@ == before + joined(all.take(i - from)),
        decreases to - i,
    {
        let n: u16 = g[i];
        assert(all.take(i - from + 1).drop_last() =~= all.take(i - from));
        assert(all[i - from] == n);
        if i > from {
            s.append(":");
        }
        let width: usize = if n < 0x10 {
            1
        } else if n < 0x100 {
            2
        } else if n < 0x1000 {
            3
        } else {
            4
        };
        push_hex(s, n as u64, width);
        assert(s@ =~= before + joined(all.take(i - from + 1)));
        i = i + 1;
    }
    assert(all.take(to - from) =~= all);
}

fn push_ipv6(s: &mut String, bits: u128)
    ensures
        final(s)@ == old(s)@ + ipv6_text(bits),
{
    let ghost before = s@;
    if bits / 0x1_0000_0000 == 0xFFFF {
        s.append("::ffff:");
        push_dotted(s, Ipv4Addr::from_bits((bits % 0x1_0000_0000) as u32));
        assert(s@ =~= before + ipv6_text(bits));
        return;
    }
    let g = groups(bits);
    let mut start: usize = 0;
    let mut len: usize = count_zeros(&g, 0);
    let mut i: usize = 0;
    while i < 8
        invariant
            g@ == groups_of(bits),
            i <= 8,
            start <= 8,
            start == longest_zeros(g@, i as int),
            len == zeros_at(g@, start as int),
            start + len <= 8,
        decreases 8 - i,
    {
        let here: usize = count_zeros(&g, i);
        if here > len {
            start = i;
            len = here;
        }
        i = i + 1;
    }
    if len > 1 {
        push_joined(s, &g, 0, start);
        s.append("::");
        push_joined(s, &g, start + len, 8);
        assert(s@ =~= before + ipv6_text(bits));
    } else {
        push_joined(s, &g, 0, 8);
        assert(g@.subrange(0, 8) =~= g@);
        assert(s@ =~= before + ipv6_text(bits));
    }
}

/// Appends an endpoint.
pub fn push_endpoint(s: &mut String, addr: SocketAddr)
    ensures
        final(s)@ == old(s)@ + endpoint_text(addr),
{
    let ghost before = s@;
    match addr.ip {
        IpAddr::V4(ip) => {
            push_dotted(s, ip);
            s.append(":");
        },
        IpAddr::V6(bits) => {
            s.append("[");
            push_ipv6(s, bits);
            s.append("]:");
        },
    }
    push_decimal(s, addr.port as u64);
    assert(s@ =~= before + endpoint_text(addr));
}

/// The groups of an address are its bits, sixteen by sixteen, the highest first.
pub proof fn groups_read_back(bits: u128)
    ensures
        ({
            let g = groups_of(bits);
            &&& g.len() == 8
            &&& bits == ((((((g[0] as int * 0x1_0000 + g[1] as int) * 0x1_0000 + g[2] as int) * 0x1_0000
                + g[3] as int) * 0x1_0000 + g[4] as int) * 0x1_0000 + g[5] as int) * 0x1_0000
                + g[6] as int) * 0x1_0000 + g[7] as int
        }),
{
    let b = bits as int;
    let b1 = b / 0x1_0000;
    let b2 = b / 0x1_0000_0000;
    let b3 = b / 0x1_0000_0000_0000;
    let b4 = b / 0x1_0000_0000_0000_0000;
    let b5 = b / 0x1_0000_0000_0000_0000_0000;
    let b6 = b / 0x1_0000_0000_0000_0000_0000_0000;
    let b7 = b / 0x1_0000_0000_0000_0000_0000_0000_0000;
    assert(b2 == b1 / 0x1_0000 && b3 == b2 / 0x1_0000 && b4 == b3 / 0x1_0000 && b5 == b4 / 0x1_0000 && b6
        == b5 / 0x1_0000 && b7 == b6 / 0x1_0000);
    assert(0 <= b7 < 0x1_0000);
}

/// A row of zero groups goes as far as there are zeros.
pub proof fn rows_of_zeros_are_whole(g: Seq<u16>, i: int, j: int)
    requires
        0 <= i <= g.len(),
    ensures
        0 <= zeros_at(g, i) <= g.len() - i,
        i <= j < i + zeros_at(g, i) ==> g[j] == 0,
        i + zeros_at(g, i) < g.len() ==> g[i + zeros_at(g, i)] != 0,
    decreases g.len() - i,
{
    if i < g.len() && g[i] == 0 {
        rows_of_zeros_are_whole(g, i + 1, j);
    }
}

/// No row of zero groups is longer than the one that is left out, and none before it is
/// as long.
pub proof fn the_longest_row_is_found(g: Seq<u16>, i: int, j: int)
    requires
        0 <= i <= g.len(),
    ensures
        0 <= longest_zeros(g, i),
        i > 0 ==> longest_zeros(g, i) < i,
        0 <= j < i ==> zeros_at(g, j) <= zeros_at(g, longest_zeros(g, i)),
        0 <= j < longest_zeros(g, i) ==> zeros_at(g, j) < zeros_at(g, longest_zeros(g, i)),
    decreases i,
{
    if i > 0 {
        the_longest_row_is_found(g, i - 1, j);
        the_longest_row_is_found(g, i - 1, longest_zeros(g, i));
        if longest_zeros(g, i) == i - 1 && j < i - 1 {
            the_longest_row_is_found(g, i - 1, j);
        }
    }
}

/// Groups in text stand between colons: each in its hexadecimal digits, without a zero in
/// front.
pub proof fn groups_stand_between_colons(g: Seq<u16>, i: int)
    requires
        g.len() > 0,
        0 <= i < g.len(),
    ensures
        ({
            let p = split(joined(g), ':');
            &&& p.len() == g.len()
            &&& hex_value(p[i]) == g[i]
            &&& 1 <= p[i].len() <= 4
            &&& p[i].len() > 1 ==> p[i][0] != '0'
        }),
{
    lemma_joined_pieces(g);
    let n = g[i];
    let w = hex_width(n);
    lemma_group_text(n);
    assert(split(joined(g), ':')[i] == hex(n as nat, w));
}

proof fn lemma_group_text(n: u16)
    ensures
        ({
            let h = hex(n as nat, hex_width(n));
            &&& hex_value(h) == n
            &&& h.len() == hex_width(n)
            &&& h.len() > 1 ==> h[0] != '0'
            &&& !h.contains(':')
        }),
{
    let w = hex_width(n);
    let h = hex(n as nat, w);
    reveal_with_fuel(hex_range, 5);
    assert(hex_range(1) == 0x10 && hex_range(2) == 0x100 && hex_range(3) == 0x1000 && hex_range(4)
        == 0x1_0000);
    hex_reads_back(n as nat, w);
    if h.contains(':') {
        let i = choose|i: int| 0 <= i < h.len() && h[i] == ':';
        assert(48 <= hex(n as nat, w)[i] as int <= 57 || 97 <= h[i] as int <= 102);
    }
    if w > 1 && h[0] == '0' {
        let first = h.subrange(0, 1);
        reveal_with_fuel(hex, 5);
        assert(w == 2 ==> h[0] == hex_digit(n as nat / 16 % 16));
        assert(w == 3 ==> h[0] == hex_digit(n as nat / 16 / 16 % 16));
        assert(w == 4 ==> h[0] == hex_digit(n as nat / 16 / 16 / 16 % 16));
        assert(false);
    }
}

/// The groups in hexadecimal.
spec fn group_texts(g: Seq<u16>) -> Seq<Seq<char>> {
    Seq::new(g.len(), |i: int| hex(g[i] as nat, hex_width(g[i])))
}

proof fn lemma_joined_pieces(g: Seq<u16>)
    requires
        g.len() > 0,
    ensures
        split(joined(g), ':') == group_texts(g),
    decreases g.len(),
{
    let last = hex(g.last() as nat, hex_width(g.last()));
    lemma_group_text(g.last());
    if g.len() == 1 {
        splitting_goes_from_piece_to_piece(last, ':', Seq::empty());
        assert(group_texts(g) =~= seq![last]);
    } else {
        let d = g.drop_last();
        lemma_joined_pieces(d);
        reveal_strlit(":");
        assert(":"@ =~= seq![':']);
        lemma_split_end(joined(d), last);
        assert(group_texts(d).push(last) =~= group_texts(g));
    }
}

proof fn lemma_split_end(s: Seq<char>, last: Seq<char>)
    requires
        !last.contains(':'),
    ensures
        split(s + seq![':'] + last, ':') == split(s, ':').push(last),
    decreases s.len(),
{
    let t = s + seq![':'] + last;
    if s.contains(':') {
        let n = find(s, ':');
        lemma_found(s);
        let head = s.subrange(0, n);
        let tail = s.subrange(n + 1, s.len() as int);
        assert(s =~= head + seq![':'] + tail);
        assert(t =~= head + seq![':'] + (tail + seq![':'] + last));
        splitting_goes_from_piece_to_piece(head, ':', tail);
        splitting_goes_from_piece_to_piece(head, ':', tail + seq![':'] + last);
        lemma_split_end(tail, last);
        assert(split(t, ':') =~= split(s, ':').push(last));
    } else {
        splitting_goes_from_piece_to_piece(s, ':', last);
        splitting_goes_from_piece_to_piece(last, ':', Seq::empty());
        assert(split(t, ':') =~= split(s, ':').push(last));
    }
}

proof fn lemma_found(s: Seq<char>)
    requires
        s.contains(':'),
    ensures
        0 <= find(s, ':') < s.len(),
        s[find(s, ':')] == ':',
        !s.subrange(0, find(s, ':')).contains(':'),
    decreases s.len(),
{
    let i = choose|i: int|
        0 <= i < s.len() && s[i] == ':' && forall|j: int| 0 <= j < i ==> #[trigger] s[j] != ':';
    lemma_first(s);
    let head = s.subrange(0, i);
    let tail = s.subrange(i + 1, s.len() as int);
    assert(!head.contains(':')) by {
        if head.contains(':') {
            let j = choose|j: int| 0 <= j < head.len() && head[j] == ':';
            assert(s[j] == ':');
        }
    }
    the_first_occurrence_is_found(head, ':', tail);
    assert(s =~= head + seq![':'] + tail);
}

proof fn lemma_first(s: Seq<char>)
    requires
        s.contains(':'),
    ensures
        exists|i: int|
            0 <= i < s.len() && s[i] == ':' && forall|j: int| 0 <= j < i ==> #[trigger] s[j] != ':',
    decreases s.len(),
{
    let k = choose|k: int| 0 <= k < s.len() && s[k] == ':';
    let head = s.subrange(0, k);
    if head.contains(':') {
        lemma_first(head);
        let i = choose|i: int|
            0 <= i < head.len() && head[i] == ':' && forall|j: int| 0 <= j < i ==> #[trigger] head[j] != ':';
        assert forall|j: int| 0 <= j < i implies #[trigger] s[j] != ':' by {
            assert(head[j] != ':');
        }
        assert(s[i] == ':');
    } else {
        assert forall|j: int| 0 <= j < k implies #[trigger] s[j] != ':' by {
            assert(head[j] == s[j]);
            assert(head.contains(head[j]));
        }
    }
}

/// An endpoint of IPv4 is its address in dotted decimals and its port, with a colon
/// between them.
pub proof fn ipv4_endpoints_end_with_their_port(ip: Ipv4Addr, port: u16)
    ensures
        split(endpoint_text(SocketAddr { ip: IpAddr::V4(ip), port }), ':') == seq![
            dotted_text(ip),
            decimal(port as nat),
        ],
{
    let d = decimal(port as nat);
    let a = dotted_text(ip);
    reveal_strlit(":");
    assert(":"@ =~= seq![':']);
    dotted_texts_have_four_pieces(ip, ':');
    lemma_no_colon(port as nat);
    splitting_goes_from_piece_to_piece(a, ':', d);
    splitting_goes_from_piece_to_piece(d, ':', Seq::empty());
    assert(seq![a] + seq![d] =~= seq![a, d]);
}

proof fn lemma_no_colon(n: nat)
    ensures
        !decimal(n).contains(':'),
{
    let d = decimal(n);
    decimals_read_back(n, 0);
    if d.contains(':') {
        let i = choose|i: int| 0 <= i < d.len() && d[i] == ':';
        assert(is_digit(d[i]));
    }
}

/// An endpoint of IPv6 is its address in square brackets, a colon and its port.
pub proof fn ipv6_endpoints_end_with_their_port(bits: u128, port: u16)
    ensures
        ({
            let t = endpoint_text(SocketAddr { ip: IpAddr::V6(bits), port });
            let n = ipv6_text(bits).len() as int;
            &&& t[0] == '['
            &&& t.subrange(1, n + 1) == ipv6_text(bits)
            &&& t[n + 1] == ']' && t[n + 2] == ':'
            &&& t.subrange(n + 3, t.len() as int) == decimal(port as nat)
        }),
{
    lemma_bracketed(ipv6_text(bits), decimal(port as nat));
}

proof fn lemma_bracketed(s: Seq<char>, d: Seq<char>)
    ensures
        ({
            let t = "["@ + s + "]:"@ + d;
            let n = s.len() as int;
            &&& t[0] == '['
            &&& t.subrange(1, n + 1) == s
            &&& t[n + 1] == ']' && t[n + 2] == ':'
            &&& t.subrange(n + 3, t.len() as int) == d
        }),
{
    reveal_strlit("[");
    reveal_strlit("]:");
    let t = "["@ + s + "]:"@ + d;
    let n = s.len() as int;
    assert(t.subrange(1, n + 1) =~= s);
    assert(t.subrange(n + 3, t.len() as int) =~= d);
}

/// An IPv6 address that stands for an IPv4 address is written with that one's decimals;
/// any other one that has two zero groups in a row has two colons for the longest row,
/// between the groups before and behind it.
pub proof fn the_longest_row_is_left_out(bits: u128, ip: Ipv4Addr)
    ensures
        ({
            let g = groups_of(bits);
            let s = longest_zeros(g, 8);
            let e = s + zeros_at(g, s);
            let mapped = g[0] == 0 && g[1] == 0 && g[2] == 0 && g[3] == 0 && g[4] == 0 && g[5] == 0xFFFF;
            &&& !mapped && e - s >= 2 ==> ipv6_text(bits) == joined(g.subrange(0, s)) + seq![':', ':']
                + joined(g.subrange(e, 8))
            &&& !mapped && e - s < 2 ==> ipv6_text(bits) == joined(g)
        }),
        ipv6_text((0xFFFF_0000_0000 + ip.bits()) as u128) == "::ffff:"@ + dotted_text(ip),
{
    reveal_strlit("::");
    assert("::"@ =~= seq![':', ':']);
    let g = groups_of(bits);
    groups_read_back(bits);
    let b = bits as int;
    assert(b / 0x1_0000_0000 == ((((g[0] as int * 0x1_0000 + g[1] as int) * 0x1_0000 + g[2] as int)
        * 0x1_0000 + g[3] as int) * 0x1_0000 + g[4] as int) * 0x1_0000 + g[5] as int) by {
        assert(0 <= (g[6] as int) * 0x1_0000 + (g[7] as int) && (g[6] as int) * 0x1_0000 + (g[7] as int) < 0x1_0000_0000);
    }
    let m = (0xFFFF_0000_0000 + ip.bits()) as u128;
    assert(0 <= ip.bits() < 0x1_0000_0000);
    assert(m / 0x1_0000_0000 == 0xFFFF && m % 0x1_0000_0000 == ip.bits());
    lemma_ipv4_of_bits(ip);
}

} // verus!
