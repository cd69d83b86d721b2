//! Which networks client traffic is forwarded to.
//!
//! The relay carries Roblox and nothing else: forwarding is narrowed to Roblox's own
//! networks and, for TCP, to those that an allowlist adds. Observing is the default:
//! nothing is dropped, and traffic outside the list is counted.

use crate::addr::{ipv4_of, lemma_ipv4_bits_injective, lemma_ipv4_of_bits, Ipv4Addr};
use crate::num::next;
use crate::text::{
    all_digits, chars_of, decimal, decimal_value, decimals_read_back, digit_value, find, is_digit,
    is_text, lower, lowered, opt_text, opt_view, parse_decimal, position, push_decimal, read_decimal,
    split, split_on, split_words, splitting_goes_from_piece_to_piece, string_of, texts,
    the_first_occurrence_is_found, trim, trimmed, trimming_takes_off_both_ends, views, white,
    white_space_in_ascii, words, words_stand_between_white_space,
};
use std::collections::HashMap;
use vstd::prelude::*;
use vstd::string::*;

verus! {

/// The shortest prefix that is taken: a broader one is almost certainly a typo.
pub const MIN_PREFIX_LEN: u64 = 8;

/// One unlisted packet in this many goes into the tally.
pub const SAMPLE_EVERY: u64 = 16;

/// How many networks, and how many ports, the tally holds.
pub const SAMPLE_CAP: usize = 256;

/// How many of each a snapshot reports.
pub const SNAPSHOT_TOP: usize = 32;

/// What the policy does about unlisted traffic.
#[derive(Clone, Copy, PartialEq, Eq, Structural, Debug)]
pub enum Mode {
    Off,
    Observe,
    Enforce,
}

/// The mode that a setting asks for; anything that is not known asks to observe.
pub open spec fn mode_of(raw: Option<Seq<char>>) -> Mode {
    match raw {
        Some(s) => if lowered(trimmed(s)) == "off"@ {
            Mode::Off
        } else if lowered(trimmed(s)) == "enforce"@ {
            Mode::Enforce
        } else {
            Mode::Observe
        },
        None => Mode::Observe,
    }
}

impl Mode {
    pub fn parse(raw: Option<&str>) -> (r: Mode)
        ensures
            r == mode_of(opt_view(raw)),
    {
        match raw {
            Some(value) => {
                let chars = chars_of(value);
                let name = lower(trim(&chars));
                if is_text(&name, "off") {
                    Mode::Off
                } else if is_text(&name, "enforce") {
                    Mode::Enforce
                } else {
                    Mode::Observe
                }
            },
            None => Mode::Observe,
        }
    }

    /// The mode's name.
    pub open spec fn name(self) -> Seq<char> {
        match self {
            Mode::Off => "off"@,
            Mode::Observe => "observe"@,
            Mode::Enforce => "enforce"@,
        }
    }

    pub fn as_str(self) -> (r: &'static str)
        ensures
            r@ == self.name(),
    {
        match self {
            Mode::Off => "off",
            Mode::Observe => "observe",
            Mode::Enforce => "enforce",
        }
    }
}

/// An IPv4 prefix, as its first address and mask.
#[derive(Clone, Copy, PartialEq, Eq, Structural, Debug)]
pub struct Net {
    pub base: u32,
    pub mask: u32,
}

/// The mask of a prefix of `len` bits.
pub open spec fn prefix_mask(len: u32) -> u32 {
    0xFFFF_FFFFu32 << ((32 - len) as u32)
}

impl Net {
    /// Whether this is a prefix: a mask of 8 to 32 bits, and no bits of the first
    /// address outside it.
    pub open spec fn valid(self) -> bool {
        &&& exists|len: u32| 8 <= len <= 32 && self.mask == #[trigger] prefix_mask(len)
        &&& self.base & self.mask == self.base
    }

    /// Whether the address with the number `ip` lies in the prefix.
    pub open spec fn has(self, ip: u32) -> bool {
        ip & self.mask == self.base
    }

    /// Whether every address of `other` lies in this prefix.
    pub open spec fn includes(self, other: Net) -> bool {
        other.mask >= self.mask && self.has(other.base)
    }

    /// Reads a prefix; bits of the address outside the mask are cleared.
    pub fn parse(cidr: &str) -> (r: Option<Net>)
        ensures
            r == net_of(cidr@),
            r matches Some(net) ==> net.valid(),
    {
        let chars = chars_of(cidr);
        parse_net(&chars)
    }

    pub fn contains(self, ip: u32) -> (r: bool)
        ensures
            r == self.has(ip),
    {
        (ip & self.mask) == self.base
    }

    pub fn covers(self, other: Net) -> (r: bool)
        ensures
            r == self.includes(other),
    {
        other.mask >= self.mask && self.contains(other.base)
    }
}

/// A decimal octet: one to three digits, no needless zero in front, at most 255.
pub open spec fn octet_of(s: Seq<char>) -> Option<u8> {
    if 1 <= s.len() <= 3 && all_digits(s) && (s.len() == 1 || s[0] != '0') && decimal_value(s) <= 255 {
        Some(decimal_value(s) as u8)
    } else {
        None
    }
}

/// An address in dotted decimal notation.
pub open spec fn dotted(s: Seq<char>) -> Option<Ipv4Addr> {
    let p = split(s, '.');
    if p.len() == 4 && octet_of(p[0]) is Some && octet_of(p[1]) is Some && octet_of(p[2]) is Some
        && octet_of(p[3]) is Some {
        Some(
            Ipv4Addr {
                a: octet_of(p[0])->Some_0,
                b: octet_of(p[1])->Some_0,
                c: octet_of(p[2])->Some_0,
                d: octet_of(p[3])->Some_0,
            },
        )
    } else {
        None
    }
}

/// A prefix in the notation of an address, a slash and a length.
pub open spec fn net_of(s: Seq<char>) -> Option<Net> {
    let t = trimmed(s);
    let at = find(t, '/');
    let addr = dotted(t.subrange(0, at));
    let len = parse_decimal(t.subrange(at + 1, t.len() as int), u32::MAX as nat);
    if at < t.len() && addr is Some && len is Some && 8 <= len->Some_0 <= 32 {
        let mask = prefix_mask(len->Some_0 as u32);
        Some(Net { base: (addr->Some_0.bits() as u32) & mask, mask })
    } else {
        None
    }
}

fn parse_octet(s: &[char]) -> (r: Option<u8>)
    ensures
        r == octet_of(s@),
{
    if s.len() == 0 || s.len() > 3 {
        return None;
    }
    if s.len() > 1 && s[0] == '0' {
        return None;
    }
    if s[0] == '+' {
        assert(!is_digit(s@[0]));
        return None;
    }
    match read_decimal(s, 255) {
        Some(n) => Some(n as u8),
        None => None,
    }
}

/// Reads an address in dotted decimal notation.
pub fn parse_dotted(s: &[char]) -> (r: Option<Ipv4Addr>)
    ensures
        r == dotted(s@),
{
    let parts = split_on(s, '.');
    assert(parts@.len() == split(s@, '.').len());
    if parts.len() != 4 {
        return None;
    }
    assert(views(parts@)[0] == parts@[0]@ && views(parts@)[1] == parts@[1]@ && views(parts@)[2]
        == parts@[2]@ && views(parts@)[3] == parts@[3]@);
    match (parse_octet(parts[0]), parse_octet(parts[1]), parse_octet(parts[2]), parse_octet(parts[3])) {
        (Some(a), Some(b), Some(c), Some(d)) => Some(Ipv4Addr::new(a, b, c, d)),
        _ => None,
    }
}

fn parse_net(s: &[char]) -> (r: Option<Net>)
    ensures
        r == net_of(s@),
        r matches Some(net) ==> net.valid(),
{
    let t: &[char] = trim(s);
    let n: usize = t.len();
    let at: usize = match position(t, '/') {
        Some(i) => i,
        None => {
            return None;
        },
    };
    let addr = match parse_dotted(&t[0..at]) {
        Some(addr) => addr,
        None => {
            return None;
        },
    };
    let len: u64 = match read_decimal(&t[at + 1..n], 0xFFFF_FFFF) {
        Some(len) => len,
        None => {
            return None;
        },
    };
    if len < MIN_PREFIX_LEN || len > 32 {
        return None;
    }
    let len: u32 = len as u32;
    let shift: u32 = 32 - len;
    let mask: u32 = 0xFFFF_FFFFu32 << shift;
    let bits: u32 = addr.to_bits();
    let base: u32 = bits & mask;
    assert(mask == prefix_mask(len));
    assert((bits & mask) & mask == bits & mask) by (bit_vector);
    Some(Net { base, mask })
}

/// The addresses of a prefix are an interval.
proof fn lemma_net_interval(net: Net, ip: u32)
    requires
        net.valid(),
    ensures
        net.has(ip) <==> net.base <= ip && ip <= net.base | !net.mask,
        net.has(net.base),
{
    let len = choose|len: u32| 8 <= len <= 32 && net.mask == #[trigger] prefix_mask(len);
    let base = net.base;
    let mask = net.mask;
    let shift = (32 - len) as u32;
    assert((ip & mask == base) <==> base <= ip && ip <= base | !mask) by (bit_vector)
        requires
            shift <= 24,
            mask == 0xFFFF_FFFFu32 << shift,
            base & mask == base,
    ;
}

/// Two prefixes that share an address are nested: the one with the smaller mask
/// includes the other.
proof fn lemma_nets_nest(a: Net, b: Net, ip: u32)
    requires
        a.valid(),
        b.valid(),
        a.has(ip),
        b.has(ip),
        a.mask <= b.mask,
    ensures
        a.includes(b),
{
    let la = choose|len: u32| 8 <= len <= 32 && a.mask == #[trigger] prefix_mask(len);
    let lb = choose|len: u32| 8 <= len <= 32 && b.mask == #[trigger] prefix_mask(len);
    let sa = (32 - la) as u32;
    let sb = (32 - lb) as u32;
    let ma = a.mask;
    let mb = b.mask;
    let bb = b.base;
    let ba = a.base;
    assert(bb & ma == ba) by (bit_vector)
        requires
            sa <= 24,
            sb <= 24,
            ma == 0xFFFF_FFFFu32 << sa,
            mb == 0xFFFF_FFFFu32 << sb,
            ma <= mb,
            ip & ma == ba,
            ip & mb == bb,
    ;
}

/// A prefix that includes another has all of its addresses.
proof fn lemma_includes(a: Net, b: Net, ip: u32)
    requires
        a.valid(),
        b.valid(),
        a.includes(b),
        b.has(ip),
    ensures
        a.has(ip),
{
    let la = choose|len: u32| 8 <= len <= 32 && a.mask == #[trigger] prefix_mask(len);
    let lb = choose|len: u32| 8 <= len <= 32 && b.mask == #[trigger] prefix_mask(len);
    let sa = (32 - la) as u32;
    let sb = (32 - lb) as u32;
    let ma = a.mask;
    let mb = b.mask;
    let bb = b.base;
    let ba = a.base;
    assert(ip & ma == ba) by (bit_vector)
        requires
            sa <= 24,
            sb <= 24,
            ma == 0xFFFF_FFFFu32 << sa,
            mb == 0xFFFF_FFFFu32 << sb,
            ma <= mb,
            bb & ma == ba,
            ip & mb == bb,
    ;
}

/// The order in which a prefix stands before everything that it includes: by first
/// address, then by mask.
pub open spec fn net_le(a: Net, b: Net) -> bool {
    a.base < b.base || a.base == b.base && a.mask <= b.mask
}

/// Whether some prefix of `nets` has the address with the number `ip`.
pub open spec fn any_has(nets: Seq<Net>, ip: u32) -> bool {
    exists|i: int| 0 <= i < nets.len() && (#[trigger] nets[i]).has(ip)
}

/// Whether two prefixes have no address in common.
pub open spec fn apart(a: Net, b: Net) -> bool {
    forall|ip: u32| !(#[trigger] a.has(ip) && b.has(ip))
}

/// Whether prefixes stand in the order of [`net_le`].
pub open spec fn in_order(s: Seq<Net>) -> bool {
    forall|i: int, j: int| #![trigger s[i], s[j]] 0 <= i < j < s.len() ==> net_le(s[i], s[j])
}

/// Whether all are prefixes.
pub open spec fn all_valid(s: Seq<Net>) -> bool {
    forall|i: int| 0 <= i < s.len() ==> (#[trigger] s[i]).valid()
}

/// Whether prefixes ascend by first address and are pairwise disjoint.
pub open spec fn disjoint(s: Seq<Net>) -> bool {
    forall|i: int, j: int|
        #![trigger s[i], s[j]]
        0 <= i < j < s.len() ==> s[i].base < s[j].base && apart(s[i], s[j])
}

/// Whether some prefix of `s` includes `net`.
pub open spec fn included(s: Seq<Net>, net: Net) -> bool {
    exists|i: int| 0 <= i < s.len() && (#[trigger] s[i]).includes(net)
}

/// Disjoint prefixes, sorted by first address.
pub struct NetSet {
    pub nets: Vec<Net>,
}

impl Default for NetSet {
    fn default() -> (r: NetSet)
        ensures
            r.wf(),
            r.nets@ == Seq::<Net>::empty(),
    {
        NetSet { nets: Vec::new() }
    }
}

/// Puts `net` behind every prefix of the sorted `v` that is not above it.
fn insert_sorted(v: &mut Vec<Net>, net: Net)
    requires
        in_order(old(v)@),
    ensures
        in_order(final(v)@),
        forall|x: Net| final(v)@.contains(x) <==> old(v)@.contains(x) || x == net,
{
    let ghost before = v@;
    let mut i: usize = 0;
    while i < v.len() && (v[i].base < net.base || (v[i].base == net.base && v[i].mask <= net.mask))
        invariant
            i <= v@.len(),
            v@ == before,
            forall|j: int| 0 <= j < i ==> net_le(#[trigger] v@[j], net),
        decreases v.len() - i,
    {
        i = i + 1;
    }
    let n: usize = v.len();
    assert(i < n ==> net_le(net, v@[i as int]));
    v.insert(i, net);
    proof {
        let after = v@;
        assert forall|a: int, b: int| #![trigger after[a], after[b]] 0 <= a < b < after.len() implies net_le(
            after[a],
            after[b],
        ) by {
            let x = if a < i {
                before[a]
            } else if a == i {
                net
            } else {
                before[a - 1]
            };
            let y = if b < i {
                before[b]
            } else if b == i {
                net
            } else {
                before[b - 1]
            };
            assert(after[a] == x && after[b] == y);
            if b == i {
                assert(net_le(before[a], net));
            } else if a == i {
                if b - 1 > i {
                    assert(net_le(before[i as int], before[b - 1]));
                }
            }
        }
        assert forall|x: Net| after.contains(x) <==> before.contains(x) || x == net by {
            if after.contains(x) {
                let a = choose|a: int| 0 <= a < after.len() && after[a] == x;
                if a < i {
                    assert(before[a] == x);
                } else if a > i {
                    assert(before[a - 1] == x);
                }
            }
            if before.contains(x) {
                let a = choose|a: int| 0 <= a < before.len() && before[a] == x;
                if a < i {
                    assert(after[a] == x);
                } else {
                    assert(after[a + 1] == x);
                }
            }
            if x == net {
                assert(after[i as int] == x);
            }
        }
    }
}

/// The same prefixes in order.
fn sort_nets(nets: &Vec<Net>) -> (sorted: Vec<Net>)
    ensures
        in_order(sorted@),
        forall|x: Net| sorted@.contains(x) <==> nets@.contains(x),
{
    let mut sorted: Vec<Net> = Vec::new();
    let mut i: usize = 0;
    while i < nets.len()
        invariant
            i <= nets@.len(),
            in_order(sorted@),
            forall|x: Net| sorted@.contains(x) <==> nets@.take(i as int).contains(x),
        decreases nets.len() - i,
    {
        insert_sorted(&mut sorted, nets[i]);
        proof {
            let now = nets@.take(i + 1);
            let was = nets@.take(i as int);
            assert(now =~= was.push(nets@[i as int]));
            assert forall|x: Net| now.contains(x) <==> was.contains(x) || x == nets@[i as int] by {
                if now.contains(x) {
                    let a = choose|a: int| 0 <= a < now.len() && now[a] == x;
                    if a < i {
                        assert(was[a] == x);
                    }
                }
                if was.contains(x) {
                    let a = choose|a: int| 0 <= a < was.len() && was[a] == x;
                    assert(now[a] == x);
                }
                if x == nets@[i as int] {
                    assert(now[i as int] == x);
                }
            }
        }
        i = i + 1;
    }
    assert(nets@.take(i as int) =~= nets@);
    sorted
}

/// The prefixes of the sorted `nets` that no earlier one includes.
fn drop_included(nets: &Vec<Net>) -> (kept: Vec<Net>)
    requires
        in_order(nets@),
        all_valid(nets@),
    ensures
        all_valid(kept@),
        disjoint(kept@),
        forall|x: Net| kept@.contains(x) ==> nets@.contains(x),
        forall|x: Net| #[trigger] nets@.contains(x) ==> included(kept@, x),
{
    let mut kept: Vec<Net> = Vec::new();
    let mut j: usize = 0;
    while j < nets.len()
        invariant
            j <= nets@.len(),
            in_order(nets@),
            all_valid(nets@),
            all_valid(kept@),
            disjoint(kept@),
            kept@.len() > 0 ==> exists|b: int| 0 <= b < j && #[trigger] nets@[b] == kept@.last(),
            forall|x: Net| kept@.contains(x) ==> nets@.contains(x),
            forall|b: int| 0 <= b < j ==> included(kept@, #[trigger] nets@[b]),
        decreases nets.len() - j,
    {
        let net: Net = nets[j];
        let ghost before = kept@;
        assert(nets@[j as int].valid());
        let skip: bool = if kept.len() > 0 {
            kept[kept.len() - 1].covers(net)
        } else {
            false
        };
        if skip {
            assert(kept@[kept@.len() - 1].includes(net));
            assert(included(kept@, nets@[j as int]));
        } else {
            proof {
                lemma_push_apart(before, net);
                lemma_net_interval(net, net.base);
            }
            kept.push(net);
            proof {
                assert(kept@[kept@.len() - 1].includes(net));
                assert(included(kept@, nets@[j as int]));
                assert forall|b: int| 0 <= b < j implies included(kept@, #[trigger] nets@[b]) by {
                    let a = choose|a: int|
                        0 <= a < before.len() && (#[trigger] before[a]).includes(nets@[b]);
                    assert(kept@[a].includes(nets@[b]));
                }
                assert forall|x: Net| kept@.contains(x) implies nets@.contains(x) by {
                    let a = choose|a: int| 0 <= a < kept@.len() && kept@[a] == x;
                    if a < before.len() {
                        assert(before[a] == x);
                        assert(before.contains(x));
                    } else {
                        assert(nets@[j as int] == x);
                    }
                }
                assert(nets@[j as int] == kept@.last());
            }
        }
        j = j + 1;
    }
    proof {
        assert forall|x: Net| #[trigger] nets@.contains(x) implies included(kept@, x) by {
            let b = choose|b: int| 0 <= b < nets@.len() && nets@[b] == x;
            assert(included(kept@, nets@[b]));
        }
    }
    kept
}

impl NetSet {
    pub open spec fn wf(self) -> bool {
        all_valid(self.nets@) && disjoint(self.nets@)
    }

    /// Whether the set has the address with the number `ip`.
    pub open spec fn has(self, ip: u32) -> bool {
        any_has(self.nets@, ip)
    }

    /// The prefixes of `nets` that no other of them includes.
    pub fn new(nets: Vec<Net>) -> (r: NetSet)
        requires
            all_valid(nets@),
        ensures
            r.wf(),
            forall|x: Net| r.nets@.contains(x) ==> nets@.contains(x),
            forall|x: Net| #[trigger] nets@.contains(x) ==> included(r.nets@, x),
            forall|ip: u32| #[trigger] r.has(ip) == any_has(nets@, ip),
    {
        let sorted = sort_nets(&nets);
        proof {
            assert forall|a: int| 0 <= a < sorted@.len() implies (#[trigger] sorted@[a]).valid() by {
                assert(sorted@.contains(sorted@[a]));
                let b = choose|b: int| 0 <= b < nets@.len() && nets@[b] == sorted@[a];
                assert(nets@[b].valid());
            }
        }
        let kept = drop_included(&sorted);
        let r = NetSet { nets: kept };
        proof {
            assert forall|ip: u32| #[trigger] r.has(ip) == any_has(nets@, ip) by {
                if r.has(ip) {
                    let a = choose|a: int| 0 <= a < r.nets@.len() && (#[trigger] r.nets@[a]).has(ip);
                    assert(r.nets@.contains(r.nets@[a]));
                    assert(nets@.contains(r.nets@[a]));
                    let x = choose|x: int| 0 <= x < nets@.len() && nets@[x] == r.nets@[a];
                    assert(nets@[x].has(ip));
                }
                if any_has(nets@, ip) {
                    let a = choose|a: int| 0 <= a < nets@.len() && (#[trigger] nets@[a]).has(ip);
                    assert(nets@.contains(nets@[a]));
                    assert(sorted@.contains(nets@[a]));
                    assert(included(r.nets@, nets@[a]));
                    let b = choose|b: int|
                        0 <= b < r.nets@.len() && (#[trigger] r.nets@[b]).includes(nets@[a]);
                    lemma_includes(r.nets@[b], nets@[a], ip);
                    assert(r.nets@[b].has(ip));
                }
            }
            assert forall|x: Net| #[trigger] nets@.contains(x) implies included(r.nets@, x) by {
                assert(sorted@.contains(x));
            }
        }
        r
    }

    /// Whether the set has the address.
    pub fn contains(&self, ip: Ipv4Addr) -> (r: bool)
        requires
            self.wf(),
        ensures
            r == self.has(ip.bits() as u32),
    {
        let ip: u32 = ip.to_bits();
        let mut lo: usize = 0;
        let mut hi: usize = self.nets.len();
        while lo < hi
            invariant
                self.wf(),
                lo <= hi <= self.nets@.len(),
                forall|i: int| 0 <= i < lo ==> (#[trigger] self.nets@[i]).base <= ip,
                forall|i: int| hi <= i < self.nets@.len() ==> ip < (#[trigger] self.nets@[i]).base,
            decreases hi - lo,
        {
            let mid: usize = lo + (hi - lo) / 2;
            let ghost at = self.nets@[mid as int];
            if self.nets[mid].base <= ip {
                lo = mid + 1;
            } else {
                hi = mid;
            }
        }
        let r: bool = lo > 0 && self.nets[lo - 1].contains(ip);
        proof {
            if r {
                assert(self.nets@[lo - 1].has(ip));
            }
            assert forall|i: int| 0 <= i < self.nets@.len() && (#[trigger] self.nets@[i]).has(
                ip,
            ) implies r by {
                lemma_net_interval(self.nets@[i], ip);
                assert(i < lo);
                if i < lo - 1 {
                    let last = self.nets@[lo - 1];
                    assert(self.nets@[i].base < last.base && apart(self.nets@[i], last));
                    lemma_net_interval(self.nets@[i], last.base);
                    lemma_net_interval(last, last.base);
                    assert(self.nets@[i].has(last.base) && last.has(last.base));
                }
            }
        }
        r
    }

    pub fn len(&self) -> (r: usize)
        ensures
            r == self.nets@.len(),
    {
        self.nets.len()
    }
}

/// Adding a prefix that sorts behind the kept ones and that the last of them does not
/// include keeps them disjoint.
proof fn lemma_push_apart(kept: Seq<Net>, net: Net)
    requires
        all_valid(kept),
        disjoint(kept),
        net.valid(),
        kept.len() > 0 ==> net_le(kept.last(), net) && !kept.last().includes(net),
    ensures
        forall|i: int| 0 <= i < kept.len() ==> (#[trigger] kept[i]).base < net.base && apart(kept[i], net),
{
    if kept.len() > 0 {
        let last = kept.last();
        lemma_net_interval(last, net.base);
        lemma_net_interval(last, last.base);
        lemma_net_interval(net, net.base);
        assert forall|ip: u32| !(#[trigger] last.has(ip) && net.has(ip)) by {
            if last.has(ip) && net.has(ip) {
                if last.mask <= net.mask {
                    lemma_nets_nest(last, net, ip);
                } else {
                    lemma_nets_nest(net, last, ip);
                    lemma_net_interval(net, last.base);
                }
            }
        }
        if last.base == net.base {
            assert(last.has(net.base) && net.has(net.base));
        }
        assert forall|i: int| 0 <= i < kept.len() implies (#[trigger] kept[i]).base < net.base && apart(
            kept[i],
            net,
        ) by {
            if i < kept.len() - 1 {
                let k = kept[i];
                assert(k.base < last.base && apart(k, last));
                lemma_net_interval(k, last.base);
                assert forall|ip: u32| !(#[trigger] k.has(ip) && net.has(ip)) by {
                    lemma_net_interval(k, ip);
                    lemma_net_interval(net, ip);
                    if k.has(ip) && net.has(ip) {
                        assert(k.base <= last.base && last.base <= ip && ip <= k.base | !k.mask);
                        assert(k.has(last.base) && last.has(last.base));
                    }
                }
            }
        }
    }
}

/// The prefixes that a list allows.
pub struct Allowlist {
    pub udp: Vec<Net>,
    pub tcp: Vec<Net>,
    pub invalid_lines: usize,
}

/// The content of an [`Allowlist`].
pub ghost struct ListView {
    pub udp: Seq<Net>,
    pub tcp: Seq<Net>,
    pub invalid: nat,
}

impl Allowlist {
    pub open spec fn view(self) -> ListView {
        ListView { udp: self.udp@, tcp: self.tcp@, invalid: self.invalid_lines as nat }
    }
}

/// What a line of an allowlist says.
#[derive(Clone, Copy, PartialEq, Eq, Structural, Debug)]
pub enum Line {
    Blank,
    Invalid,
    Entry { udp: bool, tcp: bool, net: Net },
}

pub open spec fn entry(udp: bool, tcp: bool, net: Option<Net>) -> Line {
    match net {
        Some(net) => Line::Entry { udp, tcp, net },
        None => Line::Invalid,
    }
}

/// What a line says: a prefix for both protocols, or for the one that is named in
/// front of it. A `#` starts a comment.
pub open spec fn line_of(line: Seq<char>) -> Line {
    let t = trimmed(split(line, '#')[0]);
    let w = words(t);
    if t.len() == 0 {
        Line::Blank
    } else if w.len() == 1 {
        entry(true, true, net_of(w[0]))
    } else if w.len() == 2 && w[0] == "udp"@ {
        entry(true, false, net_of(w[1]))
    } else if w.len() == 2 && w[0] == "tcp"@ {
        entry(false, true, net_of(w[1]))
    } else {
        Line::Invalid
    }
}

/// What some lines say together.
pub open spec fn list_of(lines: Seq<Seq<char>>) -> ListView
    decreases lines.len(),
{
    if lines.len() == 0 {
        ListView { udp: Seq::empty(), tcp: Seq::empty(), invalid: 0 }
    } else {
        let before = list_of(lines.drop_last());
        match line_of(lines.last()) {
            Line::Blank => before,
            Line::Invalid => ListView { invalid: before.invalid + 1, ..before },
            Line::Entry { udp, tcp, net } => ListView {
                udp: if udp {
                    before.udp.push(net)
                } else {
                    before.udp
                },
                tcp: if tcp {
                    before.tcp.push(net)
                } else {
                    before.tcp
                },
                ..before
            },
        }
    }
}

fn entry_line(udp: bool, tcp: bool, net: Option<Net>) -> (r: Line)
    ensures
        r == entry(udp, tcp, net),
{
    match net {
        Some(net) => Line::Entry { udp, tcp, net },
        None => Line::Invalid,
    }
}

fn parse_line(line: &[char]) -> (r: Line)
    ensures
        r == line_of(line@),
        r matches Line::Entry { udp, tcp, net } ==> net.valid(),
{
    let pieces = split_on(line, '#');
    assert(views(pieces@).len() >= 1 && views(pieces@)[0] == pieces@[0]@);
    let t: &[char] = trim(pieces[0]);
    if t.len() == 0 {
        return Line::Blank;
    }
    let w = split_words(t);
    assert(w@.len() == words(t@).len());
    if w.len() == 1 {
        assert(views(w@)[0] == w@[0]@);
        entry_line(true, true, parse_net(w[0]))
    } else if w.len() == 2 {
        assert(views(w@)[0] == w@[0]@ && views(w@)[1] == w@[1]@);
        if is_text(w[0], "udp") {
            entry_line(true, false, parse_net(w[1]))
        } else if is_text(w[0], "tcp") {
            entry_line(false, true, parse_net(w[1]))
        } else {
            Line::Invalid
        }
    } else {
        Line::Invalid
    }
}

/// Reads an allowlist, one prefix per line.
pub fn parse_allowlist(text: &str) -> (r: Allowlist)
    ensures
        r@ == list_of(split(text@, '\n')),
        all_valid(r.udp@),
        all_valid(r.tcp@),
{
    let chars = chars_of(text);
    let lines = split_on(&chars, '\n');
    let mut list = Allowlist { udp: Vec::new(), tcp: Vec::new(), invalid_lines: 0 };
    let mut i: usize = 0;
    let ghost all = views(lines@);
    assert(list@ == list_of(all.take(0))) by {
        assert(list@.udp =~= Seq::<Net>::empty());
        assert(list@.tcp =~= Seq::<Net>::empty());
    }
    while i < lines.len()
        invariant
            all == views(lines@),
            i <= lines@.len(),
            list@ == list_of(all.take(i as int)),
            list.invalid_lines <= i,
            all_valid(list.udp@),
            all_valid(list.tcp@),
        decreases lines.len() - i,
    {
        assert(all.take(i + 1).drop_last() =~= all.take(i as int));
        assert(all[i as int] == lines@[i as int]@);
        match parse_line(lines[i]) {
            Line::Blank => {},
            Line::Invalid => {
                list.invalid_lines = list.invalid_lines + 1;
            },
            Line::Entry { udp, tcp, net } => {
                if udp {
                    list.udp.push(net);
                }
                if tcp {
                    list.tcp.push(net);
                }
            },
        }
        i = i + 1;
    }
    assert(all.take(i as int) =~= all);
    list
}

/// The ports that some pieces of text name: decimal numbers from 1 to 65535. Other
/// pieces name none.
pub open spec fn ports_in(pieces: Seq<Seq<char>>) -> Seq<u16>
    decreases pieces.len(),
{
    if pieces.len() == 0 {
        Seq::empty()
    } else {
        let before = ports_in(pieces.drop_last());
        match parse_decimal(trimmed(pieces.last()), 0xFFFF) {
            Some(n) => if n != 0 {
                before.push(n as u16)
            } else {
                before
            },
            None => before,
        }
    }
}

/// The TCP ports that a setting names, separated by commas; 80 and 443, if it names
/// none.
pub open spec fn ports_of(raw: Option<Seq<char>>) -> Seq<u16> {
    let named = match raw {
        Some(s) => ports_in(split(s, ',')),
        None => Seq::empty(),
    };
    if named.len() == 0 {
        seq![80u16, 443u16]
    } else {
        named
    }
}

/// The ports that are allowed if none are set.
pub fn default_tcp_ports() -> (r: Vec<u16>)
    ensures
        r@ == seq![80u16, 443u16],
{
    let mut r: Vec<u16> = Vec::new();
    r.push(80);
    r.push(443);
    assert(r@ =~= seq![80u16, 443u16]);
    r
}

pub fn parse_ports(raw: Option<&str>) -> (r: Vec<u16>)
    ensures
        r@ == ports_of(opt_view(raw)),
{
    let mut ports: Vec<u16> = Vec::new();
    if let Some(text) = raw {
        let chars = chars_of(text);
        let pieces = split_on(&chars, ',');
        let ghost all = views(pieces@);
        let mut i: usize = 0;
        assert(ports@ =~= ports_in(all.take(0)));
        while i < pieces.len()
            invariant
                all == views(pieces@),
                i <= pieces@.len(),
                ports@ == ports_in(all.take(i as int)),
            decreases pieces.len() - i,
        {
            assert(all.take(i + 1).drop_last() =~= all.take(i as int));
            assert(all[i as int] == pieces@[i as int]@);
            if let Some(port) = read_decimal(trim(pieces[i]), 0xFFFF) {
                if port != 0 {
                    ports.push(port as u16);
                }
            }
            i = i + 1;
        }
        assert(all.take(i as int) =~= all);
    }
    if ports.len() == 0 {
        default_tcp_ports()
    } else {
        ports
    }
}

/// Unlisted packets, by reason, and dropped ones.
#[derive(Clone, Copy, PartialEq, Eq, Structural, Debug)]
pub struct Counters {
    pub udp_unlisted: u64,
    pub tcp_unlisted_network: u64,
    pub tcp_unlisted_port: u64,
    pub dropped: u64,
}

/// A sampled count of unlisted destinations.
pub struct Tally {
    /// From a protocol and the first address of a /24, as one number, to samples.
    pub networks: HashMap<u64, u64>,
    /// From unlisted TCP ports on listed networks to samples.
    pub tcp_ports: HashMap<u64, u64>,
    /// Samples for which there was no room.
    pub overflow: u64,
}

/// The content of a [`Tally`].
pub ghost struct TallyView {
    pub networks: Map<u64, u64>,
    pub tcp_ports: Map<u64, u64>,
    pub overflow: u64,
}

impl Tally {
    pub open spec fn view(self) -> TallyView {
        TallyView { networks: self.networks@, tcp_ports: self.tcp_ports@, overflow: self.overflow }
    }
}

/// Why a packet is not on the list.
#[derive(Clone, Copy, PartialEq, Eq, Structural, Debug)]
pub enum Unlisted {
    Network,
    Port(u16),
}

/// A count for `key` raised by one; a new key has room only below [`SAMPLE_CAP`].
pub open spec fn bumped(m: Map<u64, u64>, key: u64) -> Map<u64, u64> {
    if m.contains_key(key) {
        m.insert(key, next(m[key]))
    } else if m.dom().len() < SAMPLE_CAP {
        m.insert(key, 1)
    } else {
        m
    }
}

/// Whether there is no room for `key`.
pub open spec fn full_for(m: Map<u64, u64>, key: u64) -> bool {
    !m.contains_key(key) && m.dom().len() >= SAMPLE_CAP
}

/// Counts one sample under `key`, or its overflow.
pub fn bump(map: &mut HashMap<u64, u64>, key: u64, overflow: &mut u64)
    ensures
        final(map)@ == bumped(old(map)@, key),
        *final(overflow) == if full_for(old(map)@, key) {
            next(*old(overflow))
        } else {
            *old(overflow)
        },
{
    broadcast use vstd::std_specs::hash::group_hash_axioms;

    let seen: Option<u64> = match map.get(&key) {
        Some(count) => Some(*count),
        None => None,
    };
    if let Some(count) = seen {
        map.insert(key, count.wrapping_add(1));
    } else if map.len() < SAMPLE_CAP {
        map.insert(key, 1);
    } else {
        *overflow = overflow.wrapping_add(1);
    }
}

/// The key of a /24 network in the tally.
pub open spec fn network_key(protocol: u8, dst: Ipv4Addr) -> u64 {
    (protocol as int * 0x1_0000_0000 + (dst.bits() - dst.d as int)) as u64
}

/// The tally with one unlisted packet added.
pub open spec fn tallied(t: TallyView, protocol: u8, dst: Ipv4Addr, why: Unlisted) -> TallyView {
    match why {
        Unlisted::Network => TallyView {
            networks: bumped(t.networks, network_key(protocol, dst)),
            overflow: if full_for(t.networks, network_key(protocol, dst)) {
                next(t.overflow)
            } else {
                t.overflow
            },
            ..t
        },
        Unlisted::Port(port) => TallyView {
            tcp_ports: bumped(t.tcp_ports, port as u64),
            overflow: if full_for(t.tcp_ports, port as u64) {
                next(t.overflow)
            } else {
                t.overflow
            },
            ..t
        },
    }
}

/// The counters with one unlisted packet added.
pub open spec fn counted(c: Counters, protocol: u8, why: Unlisted, dropped: bool) -> Counters {
    let c = if dropped {
        Counters { dropped: next(c.dropped), ..c }
    } else {
        c
    };
    if protocol != 6 {
        Counters { udp_unlisted: next(c.udp_unlisted), ..c }
    } else if why is Network {
        Counters { tcp_unlisted_network: next(c.tcp_unlisted_network), ..c }
    } else {
        Counters { tcp_unlisted_port: next(c.tcp_unlisted_port), ..c }
    }
}

/// The policy, its counters and its tally.
pub struct DestPolicy {
    pub mode: Mode,
    /// Why enforcing was asked for and not honoured, if so.
    pub enforce_refused: Option<String>,
    /// Problems with the allowlist.
    pub notes: Vec<String>,
    pub source: String,
    pub udp: NetSet,
    pub tcp: NetSet,
    pub tcp_ports: Vec<u16>,
    pub sample_every: u64,
    pub counters: Counters,
    pub tick: u64,
    pub tally: Tally,
}

/// The rules of a [`DestPolicy`], its counters and its tally.
pub ghost struct PolicyView {
    pub mode: Mode,
    pub udp: Seq<Net>,
    pub tcp: Seq<Net>,
    pub tcp_ports: Seq<u16>,
    pub sample_every: u64,
    pub counters: Counters,
    pub tick: u64,
    pub tally: TallyView,
}

impl PolicyView {
    /// Why the destination is not on the list, if it is not. TCP needs a listed
    /// network and, where the port is known, a listed port. Anything else is judged
    /// by the networks for UDP.
    pub open spec fn unlisted(self, protocol: u8, dst: Ipv4Addr, dst_port: Option<u16>) -> Option<Unlisted> {
        if protocol == 6 {
            if !any_has(self.tcp, dst.bits() as u32) {
                Some(Unlisted::Network)
            } else if dst_port is Some && !self.tcp_ports.contains(dst_port->Some_0) {
                Some(Unlisted::Port(dst_port->Some_0))
            } else {
                None
            }
        } else if any_has(self.udp, dst.bits() as u32) {
            None
        } else {
            Some(Unlisted::Network)
        }
    }

    /// Whether a packet may be forwarded: always, unless the policy is enforced and
    /// the destination is not on the list.
    pub open spec fn lets_through(self, protocol: u8, dst: Ipv4Addr, dst_port: Option<u16>) -> bool {
        self.mode != Mode::Enforce || self.unlisted(protocol, dst, dst_port) is None
    }

    /// The policy after it has judged a packet: what is not on the list is counted,
    /// and one in `sample_every` goes into the tally.
    pub open spec fn after(self, protocol: u8, dst: Ipv4Addr, dst_port: Option<u16>) -> PolicyView {
        match self.unlisted(protocol, dst, dst_port) {
            Some(why) if self.mode != Mode::Off => PolicyView {
                counters: counted(self.counters, protocol, why, self.mode == Mode::Enforce),
                tick: next(self.tick),
                tally: if self.tick % self.sample_every == 0 {
                    tallied(self.tally, protocol, dst, why)
                } else {
                    self.tally
                },
                ..self
            },
            _ => self,
        }
    }
}

/// An allowlist file: its path, and its text or why it could not be read.
pub ghost struct FileView {
    pub path: Seq<char>,
    pub text: Result<Seq<char>, Seq<char>>,
}

pub open spec fn file_view(file: Option<(String, Result<String, String>)>) -> Option<FileView> {
    match file {
        Some((path, Ok(text))) => Some(FileView { path: path@, text: Ok(text@) }),
        Some((path, Err(error))) => Some(FileView { path: path@, text: Err(error@) }),
        None => None,
    }
}

/// Whether a list has prefixes for both protocols.
pub open spec fn two_sided(list: ListView) -> bool {
    list.udp.len() > 0 && list.tcp.len() > 0
}

/// The list in a file, if it can be read and has prefixes for both protocols.
pub open spec fn usable(file: Option<FileView>) -> Option<ListView> {
    match file {
        Some(f) => match f.text {
            Ok(text) => if two_sided(list_of(split(text, '\n'))) {
                Some(list_of(split(text, '\n')))
            } else {
                None
            },
            Err(_) => None,
        },
        None => None,
    }
}

/// What there is to say about a file.
pub open spec fn notes_of(file: Option<FileView>) -> Seq<Seq<char>> {
    match file {
        Some(f) => match f.text {
            Ok(text) => {
                let list = list_of(split(text, '\n'));
                let skipped = if list.invalid > 0 {
                    seq![
                        f.path + ": skipped "@ + decimal(list.invalid) + " unreadable lines"@,
                    ]
                } else {
                    Seq::empty()
                };
                if two_sided(list) {
                    skipped
                } else {
                    skipped.push(
                        f.path
                            + " needs prefixes for both UDP and TCP; using the built-in list"@,
                    )
                }
            },
            Err(error) => seq![
                "cannot read "@ + f.path + ": "@ + error + "; using the built-in list"@,
            ],
        },
        None => Seq::empty(),
    }
}

/// The path that a setting gives, without the white space around it, unless it is blank.
pub open spec fn path_of(raw: Option<Seq<char>>) -> Option<Seq<char>> {
    match raw {
        Some(s) => if trimmed(s).len() == 0 {
            None
        } else {
            Some(trimmed(s))
        },
        None => None,
    }
}

/// The path of the allowlist file that a setting gives, unless it is blank.
pub fn allowlist_path(raw: Option<&str>) -> (r: Option<String>)
    ensures
        opt_text(r) == path_of(opt_view(raw)),
{
    match raw {
        Some(text) => {
            let chars = chars_of(text);
            let path: &[char] = trim(&chars);
            if path.len() == 0 {
                None
            } else {
                Some(string_of(path))
            }
        },
        None => None,
    }
}

/// The prefixes that Roblox's two networks announce, AS22697 and AS11281.
pub open spec fn built_in_texts() -> Seq<Seq<char>> {
    seq![
        "128.116.0.0/17"@,
        "103.140.28.0/23"@,
        "141.193.3.0/24"@,
        "205.201.62.0/24"@,
        "204.13.168.0/24"@,
        "204.13.169.0/24"@,
        "204.13.170.0/24"@,
        "204.13.171.0/24"@,
        "204.13.172.0/24"@,
        "204.13.173.0/24"@,
        "204.13.174.0/24"@,
        "204.9.184.0/24"@,
        "23.173.192.0/24"@,
    ]
}

/// The prefixes that the texts stand for.
pub open spec fn nets_in(texts: Seq<Seq<char>>) -> Seq<Net>
    decreases texts.len(),
{
    if texts.len() == 0 {
        Seq::empty()
    } else {
        match net_of(texts.last()) {
            Some(net) => nets_in(texts.drop_last()).push(net),
            None => nets_in(texts.drop_last()),
        }
    }
}

/// The built-in list, as text.
pub fn built_in_roblox() -> (r: Vec<&'static str>)
    ensures
        r@.map_values(|s: &'static str| s@) == built_in_texts(),
{
    let mut r: Vec<&'static str> = Vec::new();
    r.push("128.116.0.0/17");
    r.push("103.140.28.0/23");
    r.push("141.193.3.0/24");
    r.push("205.201.62.0/24");
    r.push("204.13.168.0/24");
    r.push("204.13.169.0/24");
    r.push("204.13.170.0/24");
    r.push("204.13.171.0/24");
    r.push("204.13.172.0/24");
    r.push("204.13.173.0/24");
    r.push("204.13.174.0/24");
    r.push("204.9.184.0/24");
    r.push("23.173.192.0/24");
    assert(r@.map_values(|s: &'static str| s@) =~= built_in_texts());
    r
}

fn built_in_nets() -> (r: Vec<Net>)
    ensures
        r@ == nets_in(built_in_texts()),
        all_valid(r@),
{
    let texts = built_in_roblox();
    let ghost all = built_in_texts();
    let mut nets: Vec<Net> = Vec::new();
    let mut i: usize = 0;
    assert(nets@ =~= nets_in(all.take(0)));
    while i < texts.len()
        invariant
            all == texts@.map_values(|s: &'static str| s@),
            i <= texts@.len(),
            nets@ == nets_in(all.take(i as int)),
            all_valid(nets@),
        decreases texts.len() - i,
    {
        assert(all.take(i + 1).drop_last() =~= all.take(i as int));
        assert(all[i as int] == texts@[i as int]@);
        if let Some(net) = Net::parse(texts[i]) {
            nets.push(net);
        }
        i = i + 1;
    }
    assert(all.take(i as int) =~= all);
    nets
}

/// Why enforcing is not honoured.
pub open spec fn refusal() -> Seq<char> {
    "enforce needs a readable RELAY_DEST_ALLOWLIST_FILE covering UDP and TCP. The built-in list has no CloudFront ranges, so enforcing it would cut Route Assist"@
}

/// The prefixes for each protocol.
pub open spec fn lists_of(file: Option<FileView>) -> ListView {
    match usable(file) {
        Some(list) => list,
        None => ListView {
            udp: nets_in(built_in_texts()),
            tcp: nets_in(built_in_texts()),
            invalid: 0,
        },
    }
}

/// Whether `r` is the policy that is set up when a mode is asked for, with a file and
/// these ports.
pub open spec fn set_up(
    requested: Mode,
    file: Option<FileView>,
    tcp_ports: Vec<u16>,
    r: DestPolicy,
) -> bool {
    &&& r.mode == if requested == Mode::Enforce && usable(file) is None {
        Mode::Observe
    } else {
        requested
    }
    &&& match r.enforce_refused {
        Some(reason) => requested == Mode::Enforce && usable(file) is None
            && reason@ == refusal(),
        None => !(requested == Mode::Enforce && usable(file) is None),
    }
    &&& texts(r.notes@) == notes_of(file)
    &&& r.source@ == if usable(file) is Some {
        file->Some_0.path
    } else {
        "built-in"@
    }
    &&& (forall|ip: u32| #[trigger] r.udp.has(ip) == any_has(lists_of(file).udp, ip))
    &&& (forall|ip: u32| #[trigger] r.tcp.has(ip) == any_has(lists_of(file).tcp, ip))
    &&& r.tcp_ports == tcp_ports
    &&& r.sample_every == SAMPLE_EVERY
    &&& r.counters == (Counters {
        udp_unlisted: 0,
        tcp_unlisted_network: 0,
        tcp_unlisted_port: 0,
        dropped: 0,
    })
    &&& r.tick == 0
    &&& r.tally@.networks == (Map::<u64, u64>::empty())
    &&& r.tally@.tcp_ports == (Map::<u64, u64>::empty())
    &&& r.tally@.overflow == 0
}

impl DestPolicy {
    pub open spec fn wf(self) -> bool {
        &&& self.udp.wf()
        &&& self.tcp.wf()
        &&& self.sample_every > 0
        &&& self.tally@.networks.dom().finite()
        &&& self.tally@.networks.dom().len() <= SAMPLE_CAP
        &&& self.tally@.tcp_ports.dom().finite()
        &&& self.tally@.tcp_ports.dom().len() <= SAMPLE_CAP
        &&& forall|port: u64| #[trigger]
            self.tally@.tcp_ports.contains_key(port) ==> port <= 0xFFFF
        &&& forall|key: u64| #[trigger]
            self.tally@.networks.contains_key(key) ==> key < 256 * 0x1_0000_0000
    }

    pub open spec fn view(self) -> PolicyView {
        PolicyView {
            mode: self.mode,
            udp: self.udp.nets@,
            tcp: self.tcp.nets@,
            tcp_ports: self.tcp_ports@,
            sample_every: self.sample_every,
            counters: self.counters,
            tick: self.tick,
            tally: self.tally@,
        }
    }

    /// Whether the two differ in counters, tick and tally at most.
    pub open spec fn same_rules(self, other: DestPolicy) -> bool {
        &&& self.mode == other.mode
        &&& self.enforce_refused == other.enforce_refused
        &&& self.notes == other.notes
        &&& self.source == other.source
        &&& self.udp == other.udp
        &&& self.tcp == other.tcp
        &&& self.tcp_ports == other.tcp_ports
        &&& self.sample_every == other.sample_every
    }

    /// Sets the policy up. Enforcing needs a usable file: the built-in list lacks the
    /// networks that TCP needs.
    pub fn build(
        requested: Mode,
        file: Option<(String, Result<String, String>)>,
        tcp_ports: Vec<u16>,
    ) -> (r: DestPolicy)
        ensures
            r.wf(),
            set_up(requested, file_view(file), tcp_ports, r),
    {
        let ghost seen = file_view(file);
        let mut notes: Vec<String> = Vec::new();
        let mut loaded: Option<(String, Allowlist)> = None;
        assert(texts(notes@) =~= Seq::<Seq<char>>::empty());
        if let Some((path, contents)) = file {
            match contents {
                Err(error) => {
                    let mut note = String::new();
                    note.append("cannot read ");
                    note.append(path.as_str());
                    note.append(": ");
                    note.append(error.as_str());
                    note.append("; using the built-in list");
                    assert(note@ =~= "cannot read "@ + path@ + ": "@ + error@
                        + "; using the built-in list"@);
                    notes.push(note);
                    assert(texts(notes@) =~= notes_of(seen));
                },
                Ok(text) => {
                    let list = parse_allowlist(text.as_str());
                    if list.invalid_lines > 0 {
                        let mut note = String::new();
                        note.append(path.as_str());
                        note.append(": skipped ");
                        push_decimal(&mut note, list.invalid_lines as u64);
                        note.append(" unreadable lines");
                        assert(note@ =~= path@ + ": skipped "@ + decimal(list.invalid_lines as nat)
                            + " unreadable lines"@);
                        notes.push(note);
                    }
                    if list.udp.len() == 0 || list.tcp.len() == 0 {
                        let mut note = String::new();
                        note.append(path.as_str());
                        note.append(
                            " needs prefixes for both UDP and TCP; using the built-in list",
                        );
                        assert(note@ =~= path@
                            + " needs prefixes for both UDP and TCP; using the built-in list"@);
                        notes.push(note);
                    } else {
                        loaded = Some((path, list));
                    }
                    assert(texts(notes@) =~= notes_of(seen));
                },
            }
        }
        let mut mode: Mode = requested;
        let mut enforce_refused: Option<String> = None;
        if requested == Mode::Enforce && loaded.is_none() {
            mode = Mode::Observe;
            enforce_refused =
            Some(
                "enforce needs a readable RELAY_DEST_ALLOWLIST_FILE covering UDP and TCP. The built-in list has no CloudFront ranges, so enforcing it would cut Route Assist".to_owned(),
            );
        }
        let (source, udp, tcp) = match loaded {
            Some((path, list)) => (path, list.udp, list.tcp),
            None => ("built-in".to_owned(), built_in_nets(), built_in_nets()),
        };
        DestPolicy {
            mode,
            enforce_refused,
            notes,
            source,
            udp: NetSet::new(udp),
            tcp: NetSet::new(tcp),
            tcp_ports,
            sample_every: SAMPLE_EVERY,
            counters: Counters {
                udp_unlisted: 0,
                tcp_unlisted_network: 0,
                tcp_unlisted_port: 0,
                dropped: 0,
            },
            tick: 0,
            tally: Tally { networks: HashMap::new(), tcp_ports: HashMap::new(), overflow: 0 },
        }
    }

    /// Judges a packet.
    pub fn permits(&mut self, protocol: u8, dst: Ipv4Addr, dst_port: Option<u16>) -> (r: bool)
        requires
            old(self).wf(),
        ensures
            final(self).wf(),
            final(self).same_rules(*old(self)),
            r == old(self)@.lets_through(protocol, dst, dst_port),
            final(self)@ == old(self)@.after(protocol, dst, dst_port),
    {
        if self.mode == Mode::Off {
            return true;
        }
        let why: Unlisted = if protocol == 6 {
            if !self.tcp.contains(dst) {
                self.counters.tcp_unlisted_network = self.counters.tcp_unlisted_network.wrapping_add(1);
                Unlisted::Network
            } else {
                match dst_port {
                    Some(port) => {
                        if self.lists_port(port) {
                            return true;
                        }
                        self.counters.tcp_unlisted_port = self.counters.tcp_unlisted_port.wrapping_add(1);
                        Unlisted::Port(port)
                    },
                    None => {
                        return true;
                    },
                }
            }
        } else if self.udp.contains(dst) {
            return true;
        } else {
            self.counters.udp_unlisted = self.counters.udp_unlisted.wrapping_add(1);
            Unlisted::Network
        };
        self.tally(protocol, dst, why);
        if self.mode == Mode::Enforce {
            self.counters.dropped = self.counters.dropped.wrapping_add(1);
            return false;
        }
        true
    }

    fn lists_port(&self, port: u16) -> (r: bool)
        ensures
            r == self.tcp_ports@.contains(port),
    {
        let mut i: usize = 0;
        while i < self.tcp_ports.len()
            invariant
                i <= self.tcp_ports@.len(),
                forall|j: int| 0 <= j < i ==> self.tcp_ports@[j] != port,
            decreases self.tcp_ports.len() - i,
        {
            if self.tcp_ports[i] == port {
                return true;
            }
            i = i + 1;
        }
        false
    }

    fn tally(&mut self, protocol: u8, dst: Ipv4Addr, why: Unlisted)
        requires
            old(self).wf(),
        ensures
            final(self).wf(),
            final(self).same_rules(*old(self)),
            final(self).counters == old(self).counters,
            final(self).tick == next(old(self).tick),
            final(self).tally@ == if old(self).tick % old(self).sample_every == 0 {
                tallied(old(self).tally@, protocol, dst, why)
            } else {
                old(self).tally@
            },
    {
        let tick: u64 = self.tick;
        self.tick = tick.wrapping_add(1);
        if tick % self.sample_every != 0 {
            return;
        }
        match why {
            Unlisted::Network => {
                let network: u64 = (dst.to_bits() - dst.d as u32) as u64;
                let key: u64 = protocol as u64 * 0x1_0000_0000 + network;
                assert(key == network_key(protocol, dst));
                bump(&mut self.tally.networks, key, &mut self.tally.overflow);
            },
            Unlisted::Port(port) => {
                bump(&mut self.tally.tcp_ports, port as u64, &mut self.tally.overflow);
            },
        }
    }
}

/// A key of the tally and its samples.
#[derive(Clone, Copy, PartialEq, Eq, Structural, Debug)]
pub struct Sample {
    pub samples: u64,
    pub key: u64,
}

/// Whether `a` is reported before `b`: more samples first, then the larger key.
pub open spec fn above(a: Sample, b: Sample) -> bool {
    a.samples > b.samples || a.samples == b.samples && a.key > b.key
}

/// Whether each sample is reported before the next.
pub open spec fn descending(s: Seq<Sample>) -> bool {
    forall|i: int, j: int| #![trigger s[i], s[j]] 0 <= i < j < s.len() ==> above(s[i], s[j])
}

/// Whether `s` holds exactly the entries of `m`.
pub open spec fn lists(s: Seq<Sample>, m: Map<u64, u64>) -> bool {
    &&& s.len() == m.dom().len()
    &&& forall|i: int|
        0 <= i < s.len() ==> m.contains_key((#[trigger] s[i]).key) && m[s[i].key] == s[i].samples
    &&& forall|key: u64| #[trigger]
        m.contains_key(key) ==> s.contains(Sample { samples: m[key], key })
}

/// Whether `s` is the busiest [`SNAPSHOT_TOP`] entries of `m`, busiest first.
pub open spec fn is_top(s: Seq<Sample>, m: Map<u64, u64>) -> bool {
    exists|all: Seq<Sample>| #[trigger]
        descending(all) && lists(all, m) && s == all.take(
            if all.len() < SNAPSHOT_TOP {
                all.len() as int
            } else {
                SNAPSHOT_TOP as int
            },
        )
}

/// Puts a sample whose key is new into its place.
fn insert_sample(v: &mut Vec<Sample>, x: Sample)
    requires
        descending(old(v)@),
        forall|i: int| 0 <= i < old(v)@.len() ==> (#[trigger] old(v)@[i]).key != x.key,
    ensures
        descending(final(v)@),
        final(v)@.len() == old(v)@.len() + 1,
        forall|y: Sample| final(v)@.contains(y) <==> old(v)@.contains(y) || y == x,
{
    let ghost before = v@;
    let mut i: usize = 0;
    while i < v.len() && (v[i].samples > x.samples || (v[i].samples == x.samples && v[i].key > x.key))
        invariant
            i <= v@.len(),
            v@ == before,
            forall|j: int| 0 <= j < i ==> above(#[trigger] v@[j], x),
        decreases v.len() - i,
    {
        i = i + 1;
    }
    let n: usize = v.len();
    assert(i < n ==> above(x, v@[i as int]));
    v.insert(i, x);
    proof {
        let after = v@;
        assert forall|a: int, b: int| #![trigger after[a], after[b]] 0 <= a < b < after.len() implies above(
            after[a],
            after[b],
        ) by {
            let p = if a < i {
                before[a]
            } else if a == i {
                x
            } else {
                before[a - 1]
            };
            let q = if b < i {
                before[b]
            } else if b == i {
                x
            } else {
                before[b - 1]
            };
            assert(after[a] == p && after[b] == q);
            if b == i {
                assert(above(before[a], x));
            } else if a == i {
                if b - 1 > i {
                    assert(above(before[i as int], before[b - 1]));
                }
            }
        }
        assert forall|y: Sample| after.contains(y) <==> before.contains(y) || y == x by {
            if after.contains(y) {
                let a = choose|a: int| 0 <= a < after.len() && after[a] == y;
                if a < i {
                    assert(before[a] == y);
                } else if a > i {
                    assert(before[a - 1] == y);
                }
            }
            if before.contains(y) {
                let a = choose|a: int| 0 <= a < before.len() && before[a] == y;
                if a < i {
                    assert(after[a] == y);
                } else {
                    assert(after[a + 1] == y);
                }
            }
            if y == x {
                assert(after[i as int] == y);
            }
        }
    }
}

/// The busiest entries, busiest first.
fn top_of(m: &HashMap<u64, u64>) -> (r: Vec<Sample>)
    ensures
        is_top(r@, m@),
{
    broadcast use vstd::std_specs::hash::group_hash_axioms;

    let mut all: Vec<Sample> = Vec::new();
    let ghost map = m@;
    for key in it: m.keys()
        invariant
            it.seq().unref().to_set() == map.dom(),
            it.seq().no_duplicates(),
            it.seq().len() == map.dom().len(),
            map == m@,
            descending(all@),
            all@.len() == it.index(),
            forall|i: int|
                0 <= i < all@.len() ==> map.contains_key((#[trigger] all@[i]).key) && map[all@[i].key]
                    == all@[i].samples,
            forall|y: Sample|
                all@.contains(y) <==> exists|j: int|
                    0 <= j < it.index() && *(#[trigger] it.seq()[j]) == y.key && map[y.key] == y.samples,
    {
        let ghost j0 = it.index();
        proof {
            assert(it.seq().unref()[j0 as int] == *key);
            assert(it.seq().unref().contains(*key));
            assert(map.contains_key(*key));
            assert forall|i: int| 0 <= i < all@.len() implies (#[trigger] all@[i]).key != *key by {
                assert(all@.contains(all@[i]));
                let j = choose|j: int|
                    0 <= j < j0 && *(#[trigger] it.seq()[j]) == all@[i].key && map[all@[i].key]
                        == all@[i].samples;
                assert(it.seq()[j] != it.seq()[j0 as int]);
            }
        }
        if let Some(samples) = m.get(key) {
            let ghost before = all@;
            insert_sample(&mut all, Sample { samples: *samples, key: *key });
            proof {
                assert forall|i: int| 0 <= i < all@.len() implies map.contains_key(
                    (#[trigger] all@[i]).key,
                ) && map[all@[i].key] == all@[i].samples by {
                    assert(all@.contains(all@[i]));
                    if all@[i] != (Sample { samples: *samples, key: *key }) {
                        let a = choose|a: int| 0 <= a < before.len() && before[a] == all@[i];
                        assert(map.contains_key(before[a].key));
                    }
                }
                assert forall|y: Sample| all@.contains(y) <==> exists|j: int|
                    0 <= j < j0 + 1 && *(#[trigger] it.seq()[j]) == y.key && map[y.key] == y.samples by {
                    if all@.contains(y) {
                        if before.contains(y) {
                            let j = choose|j: int|
                                0 <= j < j0 && *(#[trigger] it.seq()[j]) == y.key && map[y.key]
                                    == y.samples;
                            assert(*it.seq()[j] == y.key);
                        } else {
                            assert(*it.seq()[j0 as int] == y.key);
                        }
                    }
                    if exists|j: int|
                        0 <= j < j0 + 1 && *(#[trigger] it.seq()[j]) == y.key && map[y.key] == y.samples {
                        let j = choose|j: int|
                            0 <= j < j0 + 1 && *(#[trigger] it.seq()[j]) == y.key && map[y.key]
                                == y.samples;
                        if j < j0 {
                            assert(*it.seq()[j] == y.key);
                            assert(before.contains(y));
                        }
                    }
                }
            }
        }
    }
    let ghost whole = all@;
    proof {
        assert(lists(whole, map)) by {
            assert forall|key: u64| #[trigger] map.contains_key(key) implies whole.contains(
                Sample { samples: map[key], key },
            ) by {
                assert(map.dom().contains(key));
            }
        }
    }
    all.truncate(SNAPSHOT_TOP);
    assert(all@ =~= whole.take(
        if whole.len() < SNAPSHOT_TOP {
            whole.len() as int
        } else {
            SNAPSHOT_TOP as int
        },
    ));
    all
}

/// A network in a snapshot.
pub struct NetworkSample {
    pub protocol: u8,
    /// The /24 in prefix notation.
    pub network: String,
    pub samples: u64,
}

/// A port in a snapshot.
#[derive(Clone, Copy, PartialEq, Eq, Structural, Debug)]
pub struct PortSample {
    pub port: u16,
    pub samples: u64,
}

/// The name of a protocol, for those that have one here.
pub fn protocol_name(protocol: u8) -> (r: Option<&'static str>)
    ensures
        match r {
            Some(name) => protocol == 6 && name@ == "tcp"@ || protocol == 17 && name@ == "udp"@,
            None => protocol != 6 && protocol != 17,
        },
{
    match protocol {
        6 => Some("tcp"),
        17 => Some("udp"),
        _ => None,
    }
}

/// An address in dotted decimal notation.
pub open spec fn dotted_text(ip: Ipv4Addr) -> Seq<char> {
    decimal(ip.a as nat) + seq!['.'] + decimal(ip.b as nat) + seq!['.'] + decimal(ip.c as nat) + seq!['.']
        + decimal(ip.d as nat)
}

/// Appends an address in dotted decimal notation.
pub fn push_dotted(s: &mut String, ip: Ipv4Addr)
    ensures
        final(s)@ == old(s)@ + dotted_text(ip),
{
    push_decimal(s, ip.a as u64);
    s.push('.');
    push_decimal(s, ip.b as u64);
    s.push('.');
    push_decimal(s, ip.c as u64);
    s.push('.');
    push_decimal(s, ip.d as u64);
    assert(s@ =~= old(s)@ + dotted_text(ip));
}

/// Whether `n` reports the tally entry `x`.
pub open spec fn reports_network(n: NetworkSample, x: Sample) -> bool {
    &&& n.protocol == x.key / 0x1_0000_0000
    &&& n.network@ == dotted_text(ipv4_of((x.key % 0x1_0000_0000) as int)) + "/24"@
    &&& n.samples == x.samples
}

/// Whether the rows report the busiest networks of the tally.
pub open spec fn reports_networks(rows: Seq<NetworkSample>, m: Map<u64, u64>) -> bool {
    exists|top: Seq<Sample>| #[trigger]
        is_top(top, m) && rows.len() == top.len() && forall|i: int|
            0 <= i < rows.len() ==> reports_network(#[trigger] rows[i], top[i])
}

/// Whether the rows report the busiest ports of the tally.
pub open spec fn reports_ports(rows: Seq<PortSample>, m: Map<u64, u64>) -> bool {
    exists|top: Seq<Sample>| #[trigger]
        is_top(top, m) && rows.len() == top.len() && forall|i: int|
            0 <= i < rows.len() ==> (#[trigger] rows[i]).port == top[i].key && rows[i].samples
                == top[i].samples
}

/// The policy as it is reported.
pub struct DestPolicySnapshot {
    pub mode: &'static str,
    pub enforce_refused: Option<String>,
    pub source: String,
    pub udp_networks: usize,
    pub tcp_networks: usize,
    pub tcp_ports: Vec<u16>,
    pub notes: Vec<String>,
    pub counters: Counters,
    pub sample_every: u64,
    pub networks: Vec<NetworkSample>,
    pub ports: Vec<PortSample>,
    pub overflow: u64,
}

/// Whether `r` is the report of a policy.
pub open spec fn reports_policy(r: DestPolicySnapshot, p: DestPolicy) -> bool {
    &&& r.mode@ == p.mode.name()
    &&& match (r.enforce_refused, p.enforce_refused) {
        (Some(a), Some(b)) => a@ == b@,
        (None, None) => true,
        _ => false,
    }
    &&& r.source@ == p.source@
    &&& r.udp_networks == p.udp.nets@.len()
    &&& r.tcp_networks == p.tcp.nets@.len()
    &&& r.tcp_ports@ == p.tcp_ports@
    &&& texts(r.notes@) == texts(p.notes@)
    &&& r.counters == p.counters
    &&& r.sample_every == p.sample_every
    &&& reports_networks(r.networks@, p.tally@.networks)
    &&& reports_ports(r.ports@, p.tally@.tcp_ports)
    &&& r.overflow == p.tally.overflow
}

/// A copy of some strings.
fn copy_texts(v: &Vec<String>) -> (r: Vec<String>)
    ensures
        texts(r@) == texts(v@),
{
    let mut r: Vec<String> = Vec::new();
    let mut i: usize = 0;
    while i < v.len()
        invariant
            i <= v@.len(),
            texts(r@) =~= texts(v@).take(i as int),
        decreases v.len() - i,
    {
        let ghost before = r@;
        let copy: String = v[i].clone();
        r.push(copy);
        assert(texts(r@) =~= texts(before).push(v@[i as int]@));
        i = i + 1;
    }
    assert(texts(v@).take(i as int) =~= texts(v@));
    r
}

/// Appends numbers as a list in square brackets.
fn push_port_list(s: &mut String, ports: &Vec<u16>)
    ensures
        final(s)@ == old(s)@ + port_list(ports@),
{
    let ghost before = s@;
    s.push('[');
    let mut i: usize = 0;
    assert(s@ =~= before + seq!['['] + port_items(ports@.take(0)));
    while i < ports.len()
        invariant
            i <= ports@.len(),
            s@ == before + seq!['['] + port_items(ports@.take(i as int)),
        decreases ports.len() - i,
    {
        assert(ports@.take(i + 1).drop_last() =~= ports@.take(i as int));
        let ghost now = s@;
        if i > 0 {
            s.append(", ");
        }
        push_decimal(s, ports[i] as u64);
        assert(s@ =~= before + seq!['['] + port_items(ports@.take(i + 1)));
        i = i + 1;
    }
    assert(ports@.take(i as int) =~= ports@);
    s.push(']');
    assert(s@ =~= before + port_list(ports@));
}

/// Numbers in decimal, separated by commas and spaces.
pub open spec fn port_items(ports: Seq<u16>) -> Seq<char>
    decreases ports.len(),
{
    if ports.len() == 0 {
        Seq::empty()
    } else if ports.len() == 1 {
        decimal(ports[0] as nat)
    } else {
        port_items(ports.drop_last()) + ", "@ + decimal(ports.last() as nat)
    }
}

pub open spec fn port_list(ports: Seq<u16>) -> Seq<char> {
    seq!['['] + port_items(ports) + seq![']']
}

impl DestPolicy {
    /// The report: the rules, the counters, and the busiest entries of the tally.
    pub fn snapshot(&self) -> (r: DestPolicySnapshot)
        requires
            self.wf(),
        ensures
            reports_policy(r, *self),
    {
        let top = top_of(&self.tally.networks);
        let mut networks: Vec<NetworkSample> = Vec::new();
        let mut i: usize = 0;
        while i < top.len()
            invariant
                self.wf(),
                is_top(top@, self.tally@.networks),
                i <= top@.len(),
                networks@.len() == i,
                forall|j: int| 0 <= j < i ==> reports_network(#[trigger] networks@[j], top@[j]),
            decreases top.len() - i,
        {
            let x: Sample = top[i];
            proof {
                let all = choose|all: Seq<Sample>| #[trigger]
                    descending(all) && lists(all, self.tally@.networks) && top@ == all.take(
                        if all.len() < SNAPSHOT_TOP {
                            all.len() as int
                        } else {
                            SNAPSHOT_TOP as int
                        },
                    );
                assert(all[i as int] == x);
                assert(self.tally@.networks.contains_key(x.key));
            }
            let mut network = String::new();
            push_dotted(&mut network, Ipv4Addr::from_bits((x.key % 0x1_0000_0000) as u32));
            network.append("/24");
            assert(network@ =~= dotted_text(ipv4_of((x.key % 0x1_0000_0000) as int)) + "/24"@);
            networks.push(
                NetworkSample {
                    protocol: (x.key / 0x1_0000_0000) as u8,
                    network,
                    samples: x.samples,
                },
            );
            i = i + 1;
        }
        let ghost top_networks = top@;
        let top = top_of(&self.tally.tcp_ports);
        let mut ports: Vec<PortSample> = Vec::new();
        let mut i: usize = 0;
        while i < top.len()
            invariant
                self.wf(),
                is_top(top@, self.tally@.tcp_ports),
                i <= top@.len(),
                ports@.len() == i,
                forall|j: int|
                    0 <= j < i ==> (#[trigger] ports@[j]).port == top@[j].key && ports@[j].samples
                        == top@[j].samples,
            decreases top.len() - i,
        {
            let x: Sample = top[i];
            proof {
                let all = choose|all: Seq<Sample>| #[trigger]
                    descending(all) && lists(all, self.tally@.tcp_ports) && top@ == all.take(
                        if all.len() < SNAPSHOT_TOP {
                            all.len() as int
                        } else {
                            SNAPSHOT_TOP as int
                        },
                    );
                assert(all[i as int] == x);
                assert(self.tally@.tcp_ports.contains_key(x.key));
            }
            ports.push(PortSample { port: x.key as u16, samples: x.samples });
            i = i + 1;
        }
        let mut tcp_ports: Vec<u16> = Vec::new();
        tcp_ports.extend_from_slice(self.tcp_ports.as_slice());
        assert(tcp_ports@ =~= self.tcp_ports@);
        let enforce_refused: Option<String> = match &self.enforce_refused {
            Some(reason) => Some(reason.clone()),
            None => None,
        };
        DestPolicySnapshot {
            mode: self.mode.as_str(),
            enforce_refused,
            source: self.source.clone(),
            udp_networks: self.udp.len(),
            tcp_networks: self.tcp.len(),
            tcp_ports,
            notes: copy_texts(&self.notes),
            counters: self.counters,
            sample_every: self.sample_every,
            networks,
            ports,
            overflow: self.tally.overflow,
        }
    }

    /// One line for the startup log.
    pub fn describe(&self) -> (r: String)
        ensures
            r@ == "Destination policy: "@ + self.mode.name() + " ("@ + self.source@ + " list, "@
                + decimal(self.udp.nets@.len()) + " UDP and "@ + decimal(self.tcp.nets@.len())
                + " TCP networks, TCP ports "@ + port_list(self.tcp_ports@)
                + "; env RELAY_DEST_POLICY_MODE)"@,
    {
        let mut s = String::new();
        s.append("Destination policy: ");
        s.append(self.mode.as_str());
        s.append(" (");
        s.append(self.source.as_str());
        s.append(" list, ");
        push_decimal(&mut s, self.udp.len() as u64);
        s.append(" UDP and ");
        push_decimal(&mut s, self.tcp.len() as u64);
        s.append(" TCP networks, TCP ports ");
        push_port_list(&mut s, &self.tcp_ports);
        s.append("; env RELAY_DEST_POLICY_MODE)");
        assert(s@ =~= "Destination policy: "@ + self.mode.name() + " ("@ + self.source@ + " list, "@
            + decimal(self.udp.nets@.len()) + " UDP and "@ + decimal(self.tcp.nets@.len())
            + " TCP networks, TCP ports "@ + port_list(self.tcp_ports@)
            + "; env RELAY_DEST_POLICY_MODE)"@);
        s
    }
}

/// Enforcing drops exactly what observing, with the same lists and ports, counts as
/// unlisted; outside enforcement nothing is dropped.
pub proof fn enforcing_drops_what_observing_counts(
    observing: PolicyView,
    enforcing: PolicyView,
    protocol: u8,
    dst: Ipv4Addr,
    dst_port: Option<u16>,
)
    requires
        observing.mode == Mode::Observe,
        enforcing == (PolicyView { mode: Mode::Enforce, ..observing }),
    ensures
        observing.lets_through(protocol, dst, dst_port),
        !enforcing.lets_through(protocol, dst, dst_port) <==> observing.after(protocol, dst, dst_port)
            != observing,
        enforcing.lets_through(protocol, dst, dst_port) ==> enforcing.after(protocol, dst, dst_port)
            == enforcing,
{
    if observing.unlisted(protocol, dst, dst_port) is Some {
        assert(observing.after(protocol, dst, dst_port).tick != observing.tick);
    }
}

/// A policy that is off records nothing and lets everything through.
pub proof fn off_records_nothing(p: PolicyView, protocol: u8, dst: Ipv4Addr, dst_port: Option<u16>)
    requires
        p.mode == Mode::Off,
    ensures
        p.lets_through(protocol, dst, dst_port),
        p.after(protocol, dst, dst_port) == p,
{
}

/// A dotted text has its four octets between the dots, and no other character than digits
/// and dots.
pub proof fn dotted_texts_have_four_pieces(ip: Ipv4Addr, c: char)
    ensures
        split(dotted_text(ip), '.') == seq![
            decimal(ip.a as nat),
            decimal(ip.b as nat),
            decimal(ip.c as nat),
            decimal(ip.d as nat),
        ],
        !is_digit(c) && c != '.' ==> !dotted_text(ip).contains(c),
        is_digit(dotted_text(ip)[0]),
        dotted_text(ip).len() > 0,
{
    let a = decimal(ip.a as nat);
    let b = decimal(ip.b as nat);
    let m = decimal(ip.c as nat);
    let d = decimal(ip.d as nat);
    lemma_only_digits(ip.a as nat, '.');
    lemma_only_digits(ip.b as nat, '.');
    lemma_only_digits(ip.c as nat, '.');
    lemma_only_digits(ip.d as nat, '.');
    lemma_only_digits(ip.a as nat, c);
    lemma_only_digits(ip.b as nat, c);
    lemma_only_digits(ip.c as nat, c);
    lemma_only_digits(ip.d as nat, c);
    decimals_read_back(ip.a as nat, 0);
    let md = m + seq!['.'] + d;
    let bmd = b + seq!['.'] + md;
    let t = dotted_text(ip);
    assert(t =~= a + seq!['.'] + bmd);
    splitting_goes_from_piece_to_piece(d, '.', Seq::empty());
    splitting_goes_from_piece_to_piece(m, '.', d);
    splitting_goes_from_piece_to_piece(b, '.', md);
    splitting_goes_from_piece_to_piece(a, '.', bmd);
    assert(split(t, '.') =~= seq![a, b, m, d]);
    assert(t[0] == a[0]);
    if !is_digit(c) && c != '.' && t.contains(c) {
        let i = choose|i: int| 0 <= i < t.len() && t[i] == c;
        if i < a.len() {
            assert(a[i] == c);
        } else if a.len() < i && i < a.len() + 1 + b.len() {
            assert(b[i - a.len() - 1] == c);
        } else if a.len() + 1 + b.len() < i && i < a.len() + b.len() + m.len() + 2 {
            assert(m[i - a.len() - b.len() - 2] == c);
        } else if a.len() + b.len() + m.len() + 2 < i {
            assert(d[i - a.len() - b.len() - m.len() - 3] == c);
        }
    }
}

proof fn lemma_only_digits(n: nat, c: char)
    ensures
        !is_digit(c) ==> !decimal(n).contains(c),
{
    decimals_read_back(n, 0);
    let d = decimal(n);
    if !is_digit(c) && d.contains(c) {
        let i = choose|i: int| 0 <= i < d.len() && d[i] == c;
        assert(is_digit(d[i]));
    }
}

proof fn lemma_octet_reads_back(n: u8)
    ensures
        octet_of(decimal(n as nat)) == Some(n),
{
    decimals_read_back(n as nat, 0);
    let d = decimal(n as nat);
    let m = n as nat;
    assert(d.len() <= 3) by {
        if m >= 10 {
            assert(d.len() == decimal(m / 10).len() + 1);
            if m / 10 >= 10 {
                assert(decimal(m / 10).len() == decimal(m / 10 / 10).len() + 1);
                assert(m / 10 / 10 < 10);
                assert(decimal(m / 10 / 10).len() == 1);
            }
        }
    }
    if d.len() > 1 {
        assert(m >= 10);
        assert(digit_value(d[0]) != 0);
    }
}

/// A dotted text reads back as its address.
pub proof fn dotted_texts_read_back(ip: Ipv4Addr)
    ensures
        dotted(dotted_text(ip)) == Some(ip),
{
    dotted_texts_have_four_pieces(ip, 'x');
    lemma_octet_reads_back(ip.a);
    lemma_octet_reads_back(ip.b);
    lemma_octet_reads_back(ip.c);
    lemma_octet_reads_back(ip.d);
    let q = split(dotted_text(ip), '.');
    assert(q[0] == decimal(ip.a as nat) && q[1] == decimal(ip.b as nat) && q[2] == decimal(
        ip.c as nat,
    ) && q[3] == decimal(ip.d as nat));
}

/// A text of an address, a slash and a length from 8 to 32 stands for the addresses that
/// begin with as many bits of that address; another length is refused.
pub proof fn prefixes_have_the_addresses_that_share_their_bits(ip: Ipv4Addr, len: u32, x: u32)
    ensures
        ({
            let r = net_of(dotted_text(ip) + seq!['/'] + decimal(len as nat));
            let shift = (32 - len) as u32;
            &&& r is Some <==> 8 <= len <= 32
            &&& r is Some ==> (r->Some_0.has(x) <==> x >> shift == (ip.bits() as u32) >> shift)
            &&& r is Some ==> r->Some_0.valid()
        }),
{
    let a = dotted_text(ip);
    let n = decimal(len as nat);
    let t = a + seq!['/'] + n;
    dotted_texts_have_four_pieces(ip, '/');
    dotted_texts_read_back(ip);
    decimals_read_back(len as nat, u32::MAX as nat);
    the_first_occurrence_is_found(a, '/', n);
    assert(t[0] == a[0]);
    assert(t.last() == n.last());
    assert(is_digit(n[n.len() - 1]));
    let e = Seq::<char>::empty();
    assert(e + t + e =~= t);
    trimming_takes_off_both_ends(e, t, e);
    assert(t.subrange(0, a.len() as int) =~= a);
    assert(t.subrange(a.len() as int + 1, t.len() as int) =~= n);
    if 8 <= len <= 32 {
        let shift = (32 - len) as u32;
        let bits = ip.bits() as u32;
        let mask = prefix_mask(len);
        assert((x & mask == bits & mask) <==> (x >> shift == bits >> shift)) by (bit_vector)
            requires
                shift <= 24,
                mask == 0xFFFF_FFFFu32 << shift,
        ;
        assert((bits & mask) & mask == bits & mask) by (bit_vector);
    }
}

/// White space around a prefix does not matter.
pub proof fn white_space_around_a_prefix_does_not_matter(left: Seq<char>, s: Seq<char>, right: Seq<char>)
    requires
        forall|i: int| 0 <= i < left.len() ==> white(#[trigger] left[i]),
        forall|i: int| 0 <= i < right.len() ==> white(#[trigger] right[i]),
        s.len() > 0 ==> !white(s[0]) && !white(s.last()),
    ensures
        net_of(left + s + right) == net_of(s),
{
    let e = Seq::<char>::empty();
    trimming_takes_off_both_ends(left, s, right);
    trimming_takes_off_both_ends(e, s, e);
    assert(e + s + e =~= s);
}

/// One prefix includes another if and only if it has all its addresses.
pub proof fn prefixes_include_by_their_addresses(a: Net, b: Net)
    requires
        a.valid(),
        b.valid(),
    ensures
        a.includes(b) <==> (forall|ip: u32| b.has(ip) ==> #[trigger] a.has(ip)),
{
    if a.includes(b) {
        assert forall|ip: u32| b.has(ip) implies #[trigger] a.has(ip) by {
            lemma_includes(a, b, ip);
        }
    }
    if forall|ip: u32| b.has(ip) ==> #[trigger] a.has(ip) {
        lemma_net_interval(b, b.base);
        assert(a.has(b.base));
        let la = choose|len: u32| 8 <= len <= 32 && a.mask == #[trigger] prefix_mask(len);
        let lb = choose|len: u32| 8 <= len <= 32 && b.mask == #[trigger] prefix_mask(len);
        let sa = (32 - la) as u32;
        let sb = (32 - lb) as u32;
        let ma = a.mask;
        let mb = b.mask;
        let ba = a.base;
        let bb = b.base;
        let ip = bb ^ (1u32 << sa);
        if mb < ma {
            assert(ip & mb == bb && ip & ma != ba) by (bit_vector)
                requires
                    sa <= 24,
                    sb <= 24,
                    ma == 0xFFFF_FFFFu32 << sa,
                    mb == 0xFFFF_FFFFu32 << sb,
                    mb < ma,
                    bb & mb == bb,
                    bb & ma == ba,
                    ip == bb ^ (1u32 << sa),
            ;
            assert(b.has(ip) && !a.has(ip));
        }
    }
}

/// A mode is asked for by its name, in whatever case and with white space around it; any
/// other text, and no text, asks to observe.
pub proof fn modes_are_asked_for_by_name(m: Mode, raw: Seq<char>)
    ensures
        mode_of(Some(m.name())) == m,
        mode_of(None) == Mode::Observe,
        mode_of(Some(raw)) == Mode::Off <==> lowered(trimmed(raw)) == "off"@,
        mode_of(Some(raw)) == Mode::Enforce <==> lowered(trimmed(raw)) == "enforce"@,
{
    reveal_strlit("off");
    reveal_strlit("enforce");
    reveal_strlit("observe");
    let e = Seq::<char>::empty();
    let n = m.name();
    assert(e + n + e =~= n);
    assert(n.len() > 0 && n[0] != ' ' && n[0] as u32 >= 97 && n.last() as u32 >= 97 && (n.last() as u32)
        < 128 && (n[0] as u32) < 128);
    white_space_in_ascii(n[0]);
    white_space_in_ascii(n.last());
    trimming_takes_off_both_ends(e, n, e);
    assert(lowered(n) =~= n);
    assert("off"@.len() == 3 && "enforce"@.len() == 7 && "observe"@.len() == 7);
    assert("enforce"@[0] == 'e' && "observe"@[0] == 'o');
}

/// A line of an allowlist: a prefix alone is for both protocols, one behind the name of a
/// protocol for that one. White space, and whatever stands behind a number sign, does not
/// matter. A line with nothing else is blank, and one with more words is invalid.
#[verifier::rlimit(40)]
pub proof fn lines_allow_prefixes(word: Seq<char>, comment: Seq<char>, line: Seq<char>)
    requires
        word.len() > 0,
        forall|i: int| 0 <= i < word.len() ==> !white(#[trigger] word[i]) && word[i] != '#',
        !line.contains('#'),
    ensures
        ({
            let net = net_of(word);
            &&& line_of(line + seq!['#'] + comment) == line_of(line)
            &&& line_of(Seq::empty()) is Blank
            &&& line_of(word) == match net {
                Some(net) => Line::Entry { udp: true, tcp: true, net },
                None => Line::Invalid,
            }
            &&& line_of("udp"@ + seq![' '] + word) == match net {
                Some(net) => Line::Entry { udp: true, tcp: false, net },
                None => Line::Invalid,
            }
            &&& line_of("tcp"@ + seq![' '] + word) == match net {
                Some(net) => Line::Entry { udp: false, tcp: true, net },
                None => Line::Invalid,
            }
            &&& line_of(word + seq![' '] + (word + seq![' '] + word)) is Invalid
        }),
{
    let e = Seq::<char>::empty();
    splitting_goes_from_piece_to_piece(line, '#', comment);
    assert(split(line + seq!['#'] + comment, '#')[0] == line);
    assert(split(line, '#')[0] == line);
    assert(!e.contains('#'));
    splitting_goes_from_piece_to_piece(e, '#', e);
    assert(split(e, '#')[0] == e);
    trimming_takes_off_both_ends(e, e, e);
    assert(e + e + e =~= e);
    reveal_strlit("udp");
    reveal_strlit("tcp");
    assert("udp"@ =~= seq!['u', 'd', 'p']);
    assert("tcp"@ =~= seq!['t', 'c', 'p']);
    lemma_plain_line(word);
    words_stand_between_white_space(' ', word, e);
    let u = "udp"@ + seq![' '] + word;
    let t = "tcp"@ + seq![' '] + word;
    let w = word + seq![' '] + (word + seq![' '] + word);
    lemma_plain_line(u);
    lemma_plain_line(t);
    lemma_plain_line(w);
    words_stand_between_white_space(' ', "udp"@, word);
    words_stand_between_white_space(' ', "tcp"@, word);
    words_stand_between_white_space(' ', word, word + seq![' '] + word);
    words_stand_between_white_space(' ', word, word);
    assert(words(u) =~= seq!["udp"@, word]);
    assert(words(t) =~= seq!["tcp"@, word]);
    assert(words(w) =~= seq![word, word, word]);
    assert("udp"@[0] != "tcp"@[0]);
}

proof fn lemma_plain_line(s: Seq<char>)
    requires
        s.len() > 0,
        !white(s[0]),
        !white(s.last()),
        forall|i: int| 0 <= i < s.len() ==> #[trigger] s[i] != '#',
    ensures
        trimmed(split(s, '#')[0]) == s,
{
    let e = Seq::<char>::empty();
    assert(!s.contains('#'));
    splitting_goes_from_piece_to_piece(s, '#', e);
    assert(split(s, '#')[0] == s);
    trimming_takes_off_both_ends(e, s, e);
    assert(e + s + e =~= s);
}

/// Whether a line allows a prefix, for TCP or for the rest.
pub open spec fn allows(line: Line, tcp: bool, net: Net) -> bool {
    line matches Line::Entry { udp: u, tcp: t, net: n } && n == net && if tcp {
        t
    } else {
        u
    }
}

/// A list allows just the prefixes that its lines allow, for the protocols that they
/// allow them for, and says how many lines it could not read.
pub proof fn lists_allow_what_their_lines_allow(lines: Seq<Seq<char>>, net: Net)
    ensures
        list_of(lines).udp.contains(net) <==> exists|i: int|
            0 <= i < lines.len() && allows(line_of(#[trigger] lines[i]), false, net),
        list_of(lines).tcp.contains(net) <==> exists|i: int|
            0 <= i < lines.len() && allows(line_of(#[trigger] lines[i]), true, net),
        list_of(lines).invalid == lines.filter(|l: Seq<char>| line_of(l) is Invalid).len(),
{
    let said = lines.map_values(|l: Seq<char>| line_of(l));
    lemma_list_of(lines, said);
    lemma_said(said, false, net);
    lemma_said(said, true, net);
    lemma_unreadable(lines);
    assert(said.len() == lines.len());
    if exists|i: int| 0 <= i < lines.len() && allows(line_of(#[trigger] lines[i]), false, net) {
        let i = choose|i: int| 0 <= i < lines.len() && allows(line_of(#[trigger] lines[i]), false, net);
        assert(allows(said[i], false, net));
    }
    if exists|i: int| 0 <= i < lines.len() && allows(line_of(#[trigger] lines[i]), true, net) {
        let i = choose|i: int| 0 <= i < lines.len() && allows(line_of(#[trigger] lines[i]), true, net);
        assert(allows(said[i], true, net));
    }
    if exists|i: int| 0 <= i < said.len() && allows(#[trigger] said[i], false, net) {
        let i = choose|i: int| 0 <= i < said.len() && allows(#[trigger] said[i], false, net);
        assert(allows(line_of(lines[i]), false, net));
    }
    if exists|i: int| 0 <= i < said.len() && allows(#[trigger] said[i], true, net) {
        let i = choose|i: int| 0 <= i < said.len() && allows(#[trigger] said[i], true, net);
        assert(allows(line_of(lines[i]), true, net));
    }
}

/// The prefixes that some lines allow, for TCP or for the rest.
spec fn allowed(said: Seq<Line>, tcp: bool) -> Seq<Net>
    decreases said.len(),
{
    if said.len() == 0 {
        Seq::empty()
    } else {
        let before = allowed(said.drop_last(), tcp);
        match said.last() {
            Line::Entry { udp: u, tcp: t, net } if (tcp && t) || (!tcp && u) => before.push(net),
            _ => before,
        }
    }
}

proof fn lemma_list_of(lines: Seq<Seq<char>>, said: Seq<Line>)
    requires
        said == lines.map_values(|l: Seq<char>| line_of(l)),
    ensures
        list_of(lines).udp == allowed(said, false),
        list_of(lines).tcp == allowed(said, true),
    decreases lines.len(),
{
    if lines.len() > 0 {
        let d = lines.drop_last();
        assert(said.drop_last() =~= d.map_values(|l: Seq<char>| line_of(l)));
        lemma_list_of(d, said.drop_last());
        assert(said.last() == line_of(lines.last()));
    }
}

proof fn lemma_said(said: Seq<Line>, tcp: bool, net: Net)
    ensures
        allowed(said, tcp).contains(net) <==> exists|i: int|
            0 <= i < said.len() && allows(#[trigger] said[i], tcp, net),
    decreases said.len(),
{
    if said.len() > 0 {
        let d = said.drop_last();
        let a = allowed(said, tcp);
        let b = allowed(d, tcp);
        lemma_said(d, tcp, net);
        assert(said[said.len() - 1] == said.last());
        if a.contains(net) {
            let i = choose|i: int| 0 <= i < a.len() && a[i] == net;
            if i < b.len() {
                assert(b[i] == net);
                let j = choose|j: int| 0 <= j < d.len() && allows(#[trigger] d[j], tcp, net);
                assert(said[j] == d[j]);
            } else {
                assert(allows(said[said.len() - 1], tcp, net));
            }
        }
        if exists|i: int| 0 <= i < said.len() && allows(#[trigger] said[i], tcp, net) {
            let i = choose|i: int| 0 <= i < said.len() && allows(#[trigger] said[i], tcp, net);
            if i < d.len() {
                assert(d[i] == said[i]);
                let j = choose|j: int| 0 <= j < b.len() && b[j] == net;
                assert(a[j] == net);
            } else {
                assert(a[a.len() - 1] == net);
            }
        }
    }
}

proof fn lemma_unreadable(lines: Seq<Seq<char>>)
    ensures
        list_of(lines).invalid == lines.filter(|l: Seq<char>| line_of(l) is Invalid).len(),
    decreases lines.len(),
{
    reveal(Seq::filter);
    if lines.len() > 0 {
        lemma_unreadable(lines.drop_last());
    }
}

/// The ports that a setting names are those that a piece between its commas is, in
/// decimal; zero is none of them, and neither is what is above 65535. Without one they
/// are 80 and 443.
pub proof fn ports_are_named_between_commas(pieces: Seq<Seq<char>>, port: u16, raw: Seq<char>)
    ensures
        ports_in(pieces).contains(port) <==> port != 0 && exists|i: int|
            0 <= i < pieces.len() && parse_decimal(trimmed(#[trigger] pieces[i]), 65535) == Some(
                port as nat,
            ),
        ports_of(None) == seq![80u16, 443u16],
        ports_in(split(raw, ',')).len() == 0 ==> ports_of(Some(raw)) == seq![80u16, 443u16],
        ports_in(split(raw, ',')).len() > 0 ==> ports_of(Some(raw)) == ports_in(split(raw, ',')),
    decreases pieces.len(),
{
    if pieces.len() > 0 {
        let d = pieces.drop_last();
        let b = ports_in(d);
        let a = ports_in(pieces);
        ports_are_named_between_commas(d, port, raw);
        let last = parse_decimal(trimmed(pieces.last()), 65535);
        assert(pieces[pieces.len() - 1] == pieces.last());
        if a.contains(port) {
            let i = choose|i: int| 0 <= i < a.len() && a[i] == port;
            if i < b.len() {
                assert(b[i] == port);
                let j = choose|j: int|
                    0 <= j < d.len() && parse_decimal(trimmed(#[trigger] d[j]), 65535) == Some(
                        port as nat,
                    );
                assert(pieces[j] == d[j]);
            } else {
                assert(last == Some(port as nat));
            }
        }
        if port != 0 && exists|i: int|
            0 <= i < pieces.len() && parse_decimal(trimmed(#[trigger] pieces[i]), 65535) == Some(
                port as nat,
            ) {
            let i = choose|i: int|
                0 <= i < pieces.len() && parse_decimal(trimmed(#[trigger] pieces[i]), 65535) == Some(
                    port as nat,
                );
            if i < d.len() {
                assert(d[i] == pieces[i]);
                let j = choose|j: int| 0 <= j < b.len() && b[j] == port;
                assert(a[j] == port);
            } else {
                assert(a.last() == port);
                assert(a[a.len() - 1] == port);
            }
        }
    }
}

/// An enforced policy lets a packet through if and only if its address is in one of the
/// prefixes for its protocol and, for TCP with a known port, the port is one of those that
/// are allowed. Observing lets everything through.
pub proof fn only_listed_destinations_are_let_through(
    p: PolicyView,
    protocol: u8,
    dst: Ipv4Addr,
    dst_port: Option<u16>,
)
    ensures
        ({
            let ip = (dst.a as int * 0x100_0000 + dst.b as int * 0x1_0000 + dst.c as int * 0x100
                + dst.d as int) as u32;
            let in_tcp = exists|i: int| 0 <= i < p.tcp.len() && ip & (#[trigger] p.tcp[i]).mask == p.tcp[i].base;
            let in_udp = exists|i: int| 0 <= i < p.udp.len() && ip & (#[trigger] p.udp[i]).mask == p.udp[i].base;
            let listed = if protocol == 6 {
                in_tcp && (dst_port is None || exists|i: int|
                    0 <= i < p.tcp_ports.len() && #[trigger] p.tcp_ports[i] == dst_port->Some_0)
            } else {
                in_udp
            };
            &&& p.lets_through(protocol, dst, dst_port) <==> listed || p.mode is Off || p.mode is Observe
            &&& listed || p.mode is Off <==> p.after(protocol, dst, dst_port) == p
        }),
{
    let ip = dst.bits() as u32;
    let after = p.after(protocol, dst, dst_port);
    assert(any_has(p.tcp, ip) <==> exists|i: int|
        0 <= i < p.tcp.len() && ip & (#[trigger] p.tcp[i]).mask == p.tcp[i].base) by {
        if any_has(p.tcp, ip) {
            let i = choose|i: int| 0 <= i < p.tcp.len() && (#[trigger] p.tcp[i]).has(ip);
            assert(ip & p.tcp[i].mask == p.tcp[i].base);
        }
        if exists|i: int| 0 <= i < p.tcp.len() && ip & (#[trigger] p.tcp[i]).mask == p.tcp[i].base {
            let i = choose|i: int|
                0 <= i < p.tcp.len() && ip & (#[trigger] p.tcp[i]).mask == p.tcp[i].base;
            assert(p.tcp[i].has(ip));
        }
    }
    assert(any_has(p.udp, ip) <==> exists|i: int|
        0 <= i < p.udp.len() && ip & (#[trigger] p.udp[i]).mask == p.udp[i].base) by {
        if any_has(p.udp, ip) {
            let i = choose|i: int| 0 <= i < p.udp.len() && (#[trigger] p.udp[i]).has(ip);
            assert(ip & p.udp[i].mask == p.udp[i].base);
        }
        if exists|i: int| 0 <= i < p.udp.len() && ip & (#[trigger] p.udp[i]).mask == p.udp[i].base {
            let i = choose|i: int|
                0 <= i < p.udp.len() && ip & (#[trigger] p.udp[i]).mask == p.udp[i].base;
            assert(p.udp[i].has(ip));
        }
    }
    if p.unlisted(protocol, dst, dst_port) is Some && p.mode != Mode::Off {
        assert(after.tick != p.tick);
    }
}

/// An unlisted packet is counted once, under its protocol and what of it is not on the
/// list; a dropped one is counted as that too. The first of every so many goes into the
/// tally. The rules stay.
pub proof fn unlisted_packets_are_counted_by_reason(
    p: PolicyView,
    protocol: u8,
    dst: Ipv4Addr,
    dst_port: Option<u16>,
)
    requires
        p.unlisted(protocol, dst, dst_port) is Some,
        p.mode != Mode::Off,
        p.sample_every > 0,
    ensures
        ({
            let q = p.after(protocol, dst, dst_port);
            let c = p.counters;
            let d = q.counters;
            let network = !any_has(
                if protocol == 6 {
                    p.tcp
                } else {
                    p.udp
                },
                dst.bits() as u32,
            );
            &&& q.mode == p.mode && q.udp == p.udp && q.tcp == p.tcp && q.tcp_ports == p.tcp_ports
                && q.sample_every == p.sample_every
            &&& q.tick == next(p.tick)
            &&& d.udp_unlisted == if protocol != 6 {
                next(c.udp_unlisted)
            } else {
                c.udp_unlisted
            }
            &&& d.tcp_unlisted_network == if protocol == 6 && network {
                next(c.tcp_unlisted_network)
            } else {
                c.tcp_unlisted_network
            }
            &&& d.tcp_unlisted_port == if protocol == 6 && !network {
                next(c.tcp_unlisted_port)
            } else {
                c.tcp_unlisted_port
            }
            &&& d.dropped == if p.mode is Enforce {
                next(c.dropped)
            } else {
                c.dropped
            }
            &&& p.tick as int % p.sample_every as int != 0 ==> q.tally == p.tally
            &&& p.tick as int % p.sample_every as int == 0 && network ==> q.tally.networks == bumped(
                p.tally.networks,
                network_key(protocol, dst),
            ) && q.tally.tcp_ports == p.tally.tcp_ports
            &&& p.tick as int % p.sample_every as int == 0 && !network ==> q.tally.tcp_ports == bumped(
                p.tally.tcp_ports,
                dst_port->Some_0 as u64,
            ) && q.tally.networks == p.tally.networks
        }),
{
}

/// A tally counts a key once more, and no other; a new key needs a place, of which there
/// are 256.
pub proof fn tallies_hold_256_keys(m: Map<u64, u64>, key: u64, other: u64)
    requires
        m.dom().finite(),
    ensures
        ({
            let b = bumped(m, key);
            &&& m.contains_key(key) ==> b.contains_key(key) && b[key] == next(m[key])
            &&& !m.contains_key(key) && m.dom().len() < 256 ==> b.contains_key(key) && b[key] == 1
            &&& !m.contains_key(key) && m.dom().len() >= 256 ==> b == m
            &&& full_for(m, key) <==> !m.contains_key(key) && m.dom().len() >= 256
            &&& other != key ==> (b.contains_key(other) <==> m.contains_key(other))
            &&& other != key && m.contains_key(other) ==> b[other] == m[other]
            &&& m.dom().len() <= 256 ==> b.dom().len() <= 256
        }),
{
    let b = bumped(m, key);
    if m.contains_key(key) {
        assert(b.dom() =~= m.dom());
    } else if m.dom().len() < 256 {
        assert(b.dom() =~= m.dom().insert(key));
    }
}

/// Two packets are tallied under the same network if and only if they have the same
/// protocol and the same first three octets.
pub proof fn networks_are_tallied_by_three_octets(p: u8, x: Ipv4Addr, q: u8, y: Ipv4Addr)
    ensures
        network_key(p, x) == network_key(q, y) <==> p == q && x.a == y.a && x.b == y.b && x.c == y.c,
        network_key(p, x) as int / 0x1_0000_0000 == p,
        ipv4_of(network_key(p, x) as int % 0x1_0000_0000) == (Ipv4Addr { a: x.a, b: x.b, c: x.c, d: 0 }),
{
    let m = Ipv4Addr { a: x.a, b: x.b, c: x.c, d: 0 };
    let n = Ipv4Addr { a: y.a, b: y.b, c: y.c, d: 0 };
    lemma_network_key(p, x, m);
    lemma_network_key(q, y, n);
    if network_key(p, x) == network_key(q, y) {
        lemma_ipv4_bits_injective(m, n);
    }
    if p == q && m == n {
        assert(network_key(p, x) == network_key(q, y));
    }
    lemma_ipv4_of_bits(m);
}

proof fn lemma_network_key(protocol: u8, ip: Ipv4Addr, network: Ipv4Addr)
    requires
        network == (Ipv4Addr { a: ip.a, b: ip.b, c: ip.c, d: 0 }),
    ensures
        network_key(protocol, ip) as int == protocol as int * 0x1_0000_0000 + network.bits(),
        network_key(protocol, ip) as int / 0x1_0000_0000 == protocol,
        network_key(protocol, ip) as int % 0x1_0000_0000 == network.bits(),
{
    assert(ip.bits() - ip.d as int == network.bits());
    assert(0 <= network.bits() < 0x1_0000_0000);
}

/// A policy is enforced only with a file that has prefixes for both protocols; without one
/// it observes, says why, and goes by the built-in list.
pub proof fn the_built_in_list_is_not_enforced(
    requested: Mode,
    file: Option<FileView>,
    tcp_ports: Vec<u16>,
    r: DestPolicy,
    ip: u32,
)
    requires
        set_up(requested, file, tcp_ports, r),
    ensures
        ({
            let list = list_of(split(file->Some_0.text->Ok_0, '\n'));
            let good = file is Some && file->Some_0.text is Ok && list.udp.len() > 0 && list.tcp.len() > 0;
            &&& r.mode is Enforce <==> requested is Enforce && good
            &&& r.mode is Off <==> requested is Off
            &&& r.enforce_refused is Some <==> requested is Enforce && !good
            &&& good ==> r.source@ == file->Some_0.path && (r.udp.has(ip) <==> any_has(list.udp, ip)) && (
            r.tcp.has(ip) <==> any_has(list.tcp, ip))
            &&& !good ==> r.source@ == "built-in"@ && (r.udp.has(ip) <==> r.tcp.has(ip)) && (r.udp.has(ip)
                <==> any_has(nets_in(built_in_texts()), ip))
            &&& r.tcp_ports == tcp_ports
            &&& r.sample_every == 16
            &&& r.tick == 0 && r.tally@.overflow == 0 && r.counters.udp_unlisted == 0
                && r.counters.tcp_unlisted_network == 0 && r.counters.tcp_unlisted_port == 0
                && r.counters.dropped == 0
            &&& !r.tally@.networks.contains_key(ip as u64) && !r.tally@.tcp_ports.contains_key(ip as u64)
        }),
{
}

/// The busiest entries: at most 32, in descending order, and none that is left out has
/// more samples than one that is reported.
pub proof fn the_busiest_are_reported(s: Seq<Sample>, m: Map<u64, u64>, i: int, j: int, key: u64)
    requires
        is_top(s, m),
    ensures
        s.len() == if m.dom().len() < 32 {
            m.dom().len()
        } else {
            32
        },
        0 <= i < s.len() ==> m.contains_key(s[i].key) && m[s[i].key] == s[i].samples,
        0 <= i < j < s.len() ==> s[i].samples >= s[j].samples && s[i].key != s[j].key,
        0 <= i < s.len() && m.contains_key(key) && !s.contains(Sample { samples: m[key], key })
            ==> s[i].samples >= m[key],
{
    let all = choose|all: Seq<Sample>| #[trigger]
        descending(all) && lists(all, m) && s == all.take(
            if all.len() < SNAPSHOT_TOP {
                all.len() as int
            } else {
                SNAPSHOT_TOP as int
            },
        );
    if 0 <= i < s.len() {
        assert(s[i] == all[i]);
        if i < j < s.len() {
            assert(s[j] == all[j]);
            assert(above(all[i], all[j]));
            if all[i].key == all[j].key {
                assert(m[all[i].key] == all[i].samples && m[all[j].key] == all[j].samples);
            }
        }
        let x = Sample { samples: m[key], key };
        if m.contains_key(key) && !s.contains(x) {
            assert(all.contains(x));
            let k = choose|k: int| 0 <= k < all.len() && all[k] == x;
            if k < s.len() {
                assert(s[k] == x);
            }
            assert(above(all[i], all[k]));
        }
    }
}

/// An address is in one of the prefixes that some texts stand for if and only if one of the
/// texts stands for a prefix that has it.
pub proof fn texts_stand_for_their_prefixes(texts: Seq<Seq<char>>, ip: u32)
    ensures
        any_has(nets_in(texts), ip) <==> exists|i: int|
            0 <= i < texts.len() && net_of(#[trigger] texts[i]) is Some && net_of(texts[i])->Some_0.has(ip),
    decreases texts.len(),
{
    if texts.len() > 0 {
        let d = texts.drop_last();
        let a = nets_in(texts);
        let b = nets_in(d);
        texts_stand_for_their_prefixes(d, ip);
        assert(texts[texts.len() - 1] == texts.last());
        if any_has(a, ip) {
            let i = choose|i: int| 0 <= i < a.len() && (#[trigger] a[i]).has(ip);
            if i < b.len() {
                assert(b[i].has(ip));
                let j = choose|j: int|
                    0 <= j < d.len() && net_of(#[trigger] d[j]) is Some && net_of(d[j])->Some_0.has(ip);
                assert(texts[j] == d[j]);
            }
        }
        if exists|i: int|
            0 <= i < texts.len() && net_of(#[trigger] texts[i]) is Some && net_of(texts[i])->Some_0.has(
                ip,
            ) {
            let i = choose|i: int|
                0 <= i < texts.len() && net_of(#[trigger] texts[i]) is Some && net_of(
                    texts[i],
                )->Some_0.has(ip);
            if i < d.len() {
                assert(d[i] == texts[i]);
                let j = choose|j: int| 0 <= j < b.len() && (#[trigger] b[j]).has(ip);
                assert(a[j].has(ip));
            } else {
                assert(a[a.len() - 1].has(ip));
            }
        }
    }
}

/// The built-in list has Roblox's addresses and no others.
pub proof fn the_built_in_list_is_that_of_roblox(ip: Ipv4Addr)
    ensures
        any_has(nets_in(built_in_texts()), ip.bits() as u32) <==> {
            ||| ip.a == 128 && ip.b == 116 && ip.c < 128
            ||| ip.a == 103 && ip.b == 140 && 28 <= ip.c <= 29
            ||| ip.a == 141 && ip.b == 193 && ip.c == 3
            ||| ip.a == 205 && ip.b == 201 && ip.c == 62
            ||| ip.a == 204 && ip.b == 13 && 168 <= ip.c <= 174
            ||| ip.a == 204 && ip.b == 9 && ip.c == 184
            ||| ip.a == 23 && ip.b == 173 && ip.c == 192
        },
{
    let x = ip.bits() as u32;
    lemma_built_in_list(x);
    lemma_octets(ip);
}

/// Whether a text stands for a prefix that has an address.
#[verifier::opaque]
spec fn stands_for(text: Seq<char>, x: u32) -> bool {
    net_of(text) is Some && net_of(text)->Some_0.has(x)
}

proof fn lemma_any_stands(texts: Seq<Seq<char>>, x: u32)
    ensures
        any_has(nets_in(texts), x) <==> exists|i: int| 0 <= i < texts.len() && stands_for(#[trigger] texts[i], x),
{
    reveal(stands_for);
    texts_stand_for_their_prefixes(texts, x);
}

proof fn lemma_built_in_list(x: u32)
    ensures
        any_has(nets_in(built_in_texts()), x) <==> {
            ||| x as int / 32768 == 65768
            ||| x as int / 512 == 3393038
            ||| x as int / 256 == 9289987
            ||| x as int / 256 == 13486398
            ||| x as int / 256 == 13372840
            ||| x as int / 256 == 13372841
            ||| x as int / 256 == 13372842
            ||| x as int / 256 == 13372843
            ||| x as int / 256 == 13372844
            ||| x as int / 256 == 13372845
            ||| x as int / 256 == 13372846
            ||| x as int / 256 == 13371832
            ||| x as int / 256 == 1551808
        },
{
    let t = built_in_texts();
    lemma_any_stands(t, x);
    lemma_built_in_0(x);
    lemma_built_in_1(x);
    lemma_built_in_2(x);
    lemma_built_in_3(x);
    lemma_built_in_4(x);
    lemma_built_in_5(x);
    lemma_built_in_6(x);
    lemma_built_in_7(x);
    lemma_built_in_8(x);
    lemma_built_in_9(x);
    lemma_built_in_10(x);
    lemma_built_in_11(x);
    lemma_built_in_12(x);
    if exists|i: int| 0 <= i < t.len() && stands_for(#[trigger] t[i], x) {
        let i = choose|i: int| 0 <= i < t.len() && stands_for(#[trigger] t[i], x);
        assert(0 <= i < 13);
    }
    assert(stands_for(t[0], x) || stands_for(t[1], x) || stands_for(t[2], x) || stands_for(t[3], x)
        || stands_for(t[4], x) || stands_for(t[5], x) || stands_for(t[6], x) || stands_for(t[7], x)
        || stands_for(t[8], x) || stands_for(t[9], x) || stands_for(t[10], x) || stands_for(t[11], x)
        || stands_for(t[12], x) <==> any_has(nets_in(t), x));
}

proof fn lemma_octets(ip: Ipv4Addr)
    ensures
        0 <= ip.bits() < 0x1_0000_0000,
        ip.bits() / 256 == ip.a as int * 0x1_0000 + ip.b as int * 0x100 + ip.c as int,
        ip.bits() / 512 == ip.a as int * 0x8000 + ip.b as int * 0x80 + ip.c as int / 2,
        ip.bits() / 32768 == ip.a as int * 0x200 + ip.b as int * 2 + ip.c as int / 128,
{
}

proof fn lemma_shifted(x: u32, y: u32)
    ensures
        x >> 8 == y >> 8 <==> x as int / 256 == y as int / 256,
        x >> 9 == y >> 9 <==> x as int / 512 == y as int / 512,
        x >> 15 == y >> 15 <==> x as int / 32768 == y as int / 32768,
{
    assert(x >> 8 == x / 256 && x >> 9 == x / 512 && x >> 15 == x / 32768) by (bit_vector);
    assert(y >> 8 == y / 256 && y >> 9 == y / 512 && y >> 15 == y / 32768) by (bit_vector);
}

proof fn lemma_built_in_0(x: u32)
    ensures
        stands_for("128.116.0.0/17"@, x) <==> x as int / 32768 == 65768,
{
    reveal(stands_for);
    reveal_strlit("128.116.0.0/17");
    reveal_with_fuel(decimal, 3);
    let ip = Ipv4Addr { a: 128, b: 116, c: 0, d: 0 };
    let t = dotted_text(ip) + seq!['/'] + decimal(17);
    assert("128.116.0.0/17"@ =~= t);
    prefixes_have_the_addresses_that_share_their_bits(ip, 17, x);
    assert(ip.bits() == 2155085824u32);
    lemma_shifted(x, 2155085824);
}

proof fn lemma_built_in_1(x: u32)
    ensures
        stands_for("103.140.28.0/23"@, x) <==> x as int / 512 == 3393038,
{
    reveal(stands_for);
    reveal_strlit("103.140.28.0/23");
    reveal_with_fuel(decimal, 3);
    let ip = Ipv4Addr { a: 103, b: 140, c: 28, d: 0 };
    let t = dotted_text(ip) + seq!['/'] + decimal(23);
    assert("103.140.28.0/23"@ =~= t);
    prefixes_have_the_addresses_that_share_their_bits(ip, 23, x);
    assert(ip.bits() == 1737235456u32);
    lemma_shifted(x, 1737235456);
}

proof fn lemma_built_in_2(x: u32)
    ensures
        stands_for("141.193.3.0/24"@, x) <==> x as int / 256 == 9289987,
{
    reveal(stands_for);
    reveal_strlit("141.193.3.0/24");
    reveal_with_fuel(decimal, 3);
    let ip = Ipv4Addr { a: 141, b: 193, c: 3, d: 0 };
    let t = dotted_text(ip) + seq!['/'] + decimal(24);
    assert("141.193.3.0/24"@ =~= t);
    prefixes_have_the_addresses_that_share_their_bits(ip, 24, x);
    assert(ip.bits() == 2378236672u32);
    lemma_shifted(x, 2378236672);
}

proof fn lemma_built_in_3(x: u32)
    ensures
        stands_for("205.201.62.0/24"@, x) <==> x as int / 256 == 13486398,
{
    reveal(stands_for);
    reveal_strlit("205.201.62.0/24");
    reveal_with_fuel(decimal, 3);
    let ip = Ipv4Addr { a: 205, b: 201, c: 62, d: 0 };
    let t = dotted_text(ip) + seq!['/'] + decimal(24);
    assert("205.201.62.0/24"@ =~= t);
    prefixes_have_the_addresses_that_share_their_bits(ip, 24, x);
    assert(ip.bits() == 3452517888u32);
    lemma_shifted(x, 3452517888);
}

proof fn lemma_built_in_4(x: u32)
    ensures
        stands_for("204.13.168.0/24"@, x) <==> x as int / 256 == 13372840,
{
    reveal(stands_for);
    reveal_strlit("204.13.168.0/24");
    reveal_with_fuel(decimal, 3);
    let ip = Ipv4Addr { a: 204, b: 13, c: 168, d: 0 };
    let t = dotted_text(ip) + seq!['/'] + decimal(24);
    assert("204.13.168.0/24"@ =~= t);
    prefixes_have_the_addresses_that_share_their_bits(ip, 24, x);
    assert(ip.bits() == 3423447040u32);
    lemma_shifted(x, 3423447040);
}

proof fn lemma_built_in_5(x: u32)
    ensures
        stands_for("204.13.169.0/24"@, x) <==> x as int / 256 == 13372841,
{
    reveal(stands_for);
    reveal_strlit("204.13.169.0/24");
    reveal_with_fuel(decimal, 3);
    let ip = Ipv4Addr { a: 204, b: 13, c: 169, d: 0 };
    let t = dotted_text(ip) + seq!['/'] + decimal(24);
    assert("204.13.169.0/24"@ =~= t);
    prefixes_have_the_addresses_that_share_their_bits(ip, 24, x);
    assert(ip.bits() == 3423447296u32);
    lemma_shifted(x, 3423447296);
}

proof fn lemma_built_in_6(x: u32)
    ensures
        stands_for("204.13.170.0/24"@, x) <==> x as int / 256 == 13372842,
{
    reveal(stands_for);
    reveal_strlit("204.13.170.0/24");
    reveal_with_fuel(decimal, 3);
    let ip = Ipv4Addr { a: 204, b: 13, c: 170, d: 0 };
    let t = dotted_text(ip) + seq!['/'] + decimal(24);
    assert("204.13.170.0/24"@ =~= t);
    prefixes_have_the_addresses_that_share_their_bits(ip, 24, x);
    assert(ip.bits() == 3423447552u32);
    lemma_shifted(x, 3423447552);
}

proof fn lemma_built_in_7(x: u32)
    ensures
        stands_for("204.13.171.0/24"@, x) <==> x as int / 256 == 13372843,
{
    reveal(stands_for);
    reveal_strlit("204.13.171.0/24");
    reveal_with_fuel(decimal, 3);
    let ip = Ipv4Addr { a: 204, b: 13, c: 171, d: 0 };
    let t = dotted_text(ip) + seq!['/'] + decimal(24);
    assert("204.13.171.0/24"@ =~= t);
    prefixes_have_the_addresses_that_share_their_bits(ip, 24, x);
    assert(ip.bits() == 3423447808u32);
    lemma_shifted(x, 3423447808);
}

proof fn lemma_built_in_8(x: u32)
    ensures
        stands_for("204.13.172.0/24"@, x) <==> x as int / 256 == 13372844,
{
    reveal(stands_for);
    reveal_strlit("204.13.172.0/24");
    reveal_with_fuel(decimal, 3);
    let ip = Ipv4Addr { a: 204, b: 13, c: 172, d: 0 };
    let t = dotted_text(ip) + seq!['/'] + decimal(24);
    assert("204.13.172.0/24"@ =~= t);
    prefixes_have_the_addresses_that_share_their_bits(ip, 24, x);
    assert(ip.bits() == 3423448064u32);
    lemma_shifted(x, 3423448064);
}

proof fn lemma_built_in_9(x: u32)
    ensures
        stands_for("204.13.173.0/24"@, x) <==> x as int / 256 == 13372845,
{
    reveal(stands_for);
    reveal_strlit("204.13.173.0/24");
    reveal_with_fuel(decimal, 3);
    let ip = Ipv4Addr { a: 204, b: 13, c: 173, d: 0 };
    let t = dotted_text(ip) + seq!['/'] + decimal(24);
    assert("204.13.173.0/24"@ =~= t);
    prefixes_have_the_addresses_that_share_their_bits(ip, 24, x);
    assert(ip.bits() == 3423448320u32);
    lemma_shifted(x, 3423448320);
}

proof fn lemma_built_in_10(x: u32)
    ensures
        stands_for("204.13.174.0/24"@, x) <==> x as int / 256 == 13372846,
{
    reveal(stands_for);
    reveal_strlit("204.13.174.0/24");
    reveal_with_fuel(decimal, 3);
    let ip = Ipv4Addr { a: 204, b: 13, c: 174, d: 0 };
    let t = dotted_text(ip) + seq!['/'] + decimal(24);
    assert("204.13.174.0/24"@ =~= t);
    prefixes_have_the_addresses_that_share_their_bits(ip, 24, x);
    assert(ip.bits() == 3423448576u32);
    lemma_shifted(x, 3423448576);
}

proof fn lemma_built_in_11(x: u32)
    ensures
        stands_for("204.9.184.0/24"@, x) <==> x as int / 256 == 13371832,
{
    reveal(stands_for);
    reveal_strlit("204.9.184.0/24");
    reveal_with_fuel(decimal, 3);
    let ip = Ipv4Addr { a: 204, b: 9, c: 184, d: 0 };
    let t = dotted_text(ip) + seq!['/'] + decimal(24);
    assert("204.9.184.0/24"@ =~= t);
    prefixes_have_the_addresses_that_share_their_bits(ip, 24, x);
    assert(ip.bits() == 3423188992u32);
    lemma_shifted(x, 3423188992);
}

proof fn lemma_built_in_12(x: u32)
    ensures
        stands_for("23.173.192.0/24"@, x) <==> x as int / 256 == 1551808,
{
    reveal(stands_for);
    reveal_strlit("23.173.192.0/24");
    reveal_with_fuel(decimal, 3);
    let ip = Ipv4Addr { a: 23, b: 173, c: 192, d: 0 };
    let t = dotted_text(ip) + seq!['/'] + decimal(24);
    assert("23.173.192.0/24"@ =~= t);
    prefixes_have_the_addresses_that_share_their_bits(ip, 24, x);
    assert(ip.bits() == 397262848u32);
    lemma_shifted(x, 397262848);
}

/// A path is what stands between the white space around it; there is none in white space
/// alone.
pub proof fn paths_are_trimmed(left: Seq<char>, path: Seq<char>, right: Seq<char>)
    requires
        forall|i: int| 0 <= i < left.len() ==> white(#[trigger] left[i]),
        forall|i: int| 0 <= i < right.len() ==> white(#[trigger] right[i]),
        path.len() > 0 ==> !white(path[0]) && !white(path.last()),
    ensures
        path.len() > 0 ==> path_of(Some(left + path + right)) == Some(path),
        path.len() == 0 ==> path_of(Some(left + path + right)) is None,
        path_of(None) is None,
{
    trimming_takes_off_both_ends(left, path, right);
}

/// A report has the policy's mode by name, its lists' lengths, its ports, its notes and its
/// counts, each under its own name.
pub proof fn reports_have_the_policys_figures(r: DestPolicySnapshot, p: DestPolicy)
    requires
        reports_policy(r, p),
    ensures
        mode_of(Some(r.mode@)) == p.mode,
        r.enforce_refused is Some <==> p.enforce_refused is Some,
        r.enforce_refused is Some ==> r.enforce_refused->Some_0@ == p.enforce_refused->Some_0@,
        r.source@ == p.source@,
        r.udp_networks == p.udp.nets@.len() && r.tcp_networks == p.tcp.nets@.len(),
        r.tcp_ports@ == p.tcp_ports@ && texts(r.notes@) == texts(p.notes@),
        r.counters == p.counters && r.sample_every == p.sample_every && r.overflow == p.tally.overflow,
        r.networks@.len() == if p.tally@.networks.dom().len() < 32 {
            p.tally@.networks.dom().len()
        } else {
            32
        },
        r.ports@.len() == if p.tally@.tcp_ports.dom().len() < 32 {
            p.tally@.tcp_ports.dom().len()
        } else {
            32
        },
{
    modes_are_asked_for_by_name(p.mode, r.mode@);
    let a = choose|top: Seq<Sample>| #[trigger]
        is_top(top, p.tally@.networks) && r.networks@.len() == top.len() && forall|i: int|
            0 <= i < r.networks@.len() ==> reports_network(#[trigger] r.networks@[i], top[i]);
    let b = choose|top: Seq<Sample>| #[trigger]
        is_top(top, p.tally@.tcp_ports) && r.ports@.len() == top.len() && forall|i: int|
            0 <= i < r.ports@.len() ==> (#[trigger] r.ports@[i]).port == top[i].key && r.ports@[i].samples
                == top[i].samples;
    the_busiest_are_reported(a, p.tally@.networks, 0, 0, 0);
    the_busiest_are_reported(b, p.tally@.tcp_ports, 0, 0, 0);
}

/// A network is reported by its protocol, its three octets with a zero behind them and
/// the length of its prefix, with its samples.
pub proof fn networks_are_reported_by_their_prefix(
    n: NetworkSample,
    protocol: u8,
    dst: Ipv4Addr,
    samples: u64,
)
    requires
        reports_network(n, Sample { samples, key: network_key(protocol, dst) }),
    ensures
        n.protocol == protocol,
        n.samples == samples,
        n.network@ == dotted_text(Ipv4Addr { a: dst.a, b: dst.b, c: dst.c, d: 0 }) + "/24"@,
{
    networks_are_tallied_by_three_octets(protocol, dst, protocol, dst);
}

} // verus!
