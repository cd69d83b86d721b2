//! Addresses as plain values.

use crate::bytes::{be32, be64};
use vstd::prelude::*;

verus! {

/// An IPv4 address, one field per octet.
#[derive(Clone, Copy, PartialEq, Eq, Structural, Debug, Hash)]
pub struct Ipv4Addr {
    pub a: u8,
    pub b: u8,
    pub c: u8,
    pub d: u8,
}

impl Ipv4Addr {
    /// The four octets in network order.
    pub open spec fn seq(self) -> Seq<u8> {
        seq![self.a, self.b, self.c, self.d]
    }

    /// The address as a 32-bit number in network order.
    pub open spec fn bits(self) -> int {
        self.a as int * 0x100_0000 + self.b as int * 0x1_0000 + self.c as int * 0x100 + self.d as int
    }

    /// The word sum of the two halves of the address.
    pub open spec fn words(self) -> int {
        self.a as int * 256 + self.b as int + self.c as int * 256 + self.d as int
    }

    pub fn new(a: u8, b: u8, c: u8, d: u8) -> (r: Ipv4Addr)
        ensures
            r == (Ipv4Addr { a, b, c, d }),
    {
        Ipv4Addr { a, b, c, d }
    }

    pub fn octets(&self) -> (r: [u8; 4])
        ensures
            r@ == self.seq(),
    {
        let r = [self.a, self.b, self.c, self.d];
        assert(r@ =~= self.seq());
        r
    }

    pub fn to_bits(&self) -> (r: u32)
        ensures
            r == self.bits(),
    {
        self.a as u32 * 0x100_0000 + self.b as u32 * 0x1_0000 + self.c as u32 * 0x100 + self.d as u32
    }

    pub fn from_bits(bits: u32) -> (r: Ipv4Addr)
        ensures
            r == ipv4_of(bits as int),
            r.bits() == bits,
    {
        proof {
            lemma_quad_join(bits as int);
        }
        Ipv4Addr {
            a: (bits / 0x100_0000) as u8,
            b: (bits / 0x1_0000 % 0x100) as u8,
            c: (bits / 0x100 % 0x100) as u8,
            d: (bits % 0x100) as u8,
        }
    }
}

/// The address whose number is `bits`.
pub open spec fn ipv4_of(bits: int) -> Ipv4Addr {
    Ipv4Addr {
        a: (bits / 0x100_0000) as u8,
        b: (bits / 0x1_0000 % 0x100) as u8,
        c: (bits / 0x100 % 0x100) as u8,
        d: (bits % 0x100) as u8,
    }
}

/// Distinct addresses have distinct numbers.
pub proof fn lemma_ipv4_bits_injective(x: Ipv4Addr, y: Ipv4Addr)
    requires
        x.bits() == y.bits(),
    ensures
        x == y,
{
    lemma_quad_split(x.a as int, x.b as int, x.c as int, x.d as int);
    lemma_quad_split(y.a as int, y.b as int, y.c as int, y.d as int);
}

/// Four octets are the base-256 digits of their number.
proof fn lemma_quad_split(a: int, b: int, c: int, d: int)
    requires
        0 <= a < 256,
        0 <= b < 256,
        0 <= c < 256,
        0 <= d < 256,
    ensures
        ({
            let v = a * 0x100_0000 + b * 0x1_0000 + c * 0x100 + d;
            &&& v / 0x100_0000 == a
            &&& v / 0x1_0000 % 0x100 == b
            &&& v / 0x100 % 0x100 == c
            &&& v % 0x100 == d
        }),
{
    let v = a * 0x100_0000 + b * 0x1_0000 + c * 0x100 + d;
    assert(v == (a * 0x1_0000 + b * 0x100 + c) * 0x100 + d);
    assert(v == (a * 0x100 + b) * 0x1_0000 + (c * 0x100 + d));
    assert(v / 0x100 == a * 0x1_0000 + b * 0x100 + c);
    assert(v / 0x1_0000 == a * 0x100 + b);
}

/// A 32-bit number is the sum of its base-256 digits.
proof fn lemma_quad_join(v: int)
    requires
        0 <= v < 0x1_0000_0000,
    ensures
        0 <= v / 0x100_0000 < 256,
        v / 0x100_0000 * 0x100_0000 + v / 0x1_0000 % 0x100 * 0x1_0000 + v / 0x100 % 0x100 * 0x100 + v
            % 0x100 == v,
{
    let x = v / 0x100;
    let y = v / 0x1_0000;
    let z = v / 0x100_0000;
    assert(v == x * 0x100 + v % 0x100);
    assert(x == y * 0x100 + x % 0x100) by {
        assert(y == x / 0x100);
    }
    assert(y == z * 0x100 + y % 0x100) by {
        assert(z == y / 0x100);
    }
}

/// The four octets at offset `i` of `s`.
pub open spec fn ipv4_at(s: Seq<u8>, i: int) -> Ipv4Addr {
    Ipv4Addr { a: s[i], b: s[i + 1], c: s[i + 2], d: s[i + 3] }
}

/// `s` with the octets of `ip` at offset `i`.
pub open spec fn put_ipv4(s: Seq<u8>, i: int, ip: Ipv4Addr) -> Seq<u8> {
    s.update(i, ip.a).update(i + 1, ip.b).update(i + 2, ip.c).update(i + 3, ip.d)
}

pub fn read_ipv4(s: &[u8], i: usize) -> (r: Ipv4Addr)
    requires
        i + 3 < s@.len(),
    ensures
        r == ipv4_at(s@, i as int),
{
    Ipv4Addr { a: s[i], b: s[i + 1], c: s[i + 2], d: s[i + 3] }
}

pub fn write_ipv4(s: &mut [u8], i: usize, ip: Ipv4Addr)
    requires
        i + 3 < old(s)@.len(),
    ensures
        final(s)@ == put_ipv4(old(s)@, i as int, ip),
{
    s[i] = ip.a;
    s[i + 1] = ip.b;
    s[i + 2] = ip.c;
    s[i + 3] = ip.d;
    assert(s@ =~= put_ipv4(old(s)@, i as int, ip));
}

/// An address of either family; an IPv6 address is its 128-bit number.
#[derive(Clone, Copy, PartialEq, Eq, Structural, Debug, Hash)]
pub enum IpAddr {
    V4(Ipv4Addr),
    V6(u128),
}

/// The key of an address in a table: the family, then the number.
pub open spec fn ip_key(ip: IpAddr) -> (u8, u128) {
    match ip {
        IpAddr::V4(v4) => (4u8, v4.bits() as u128),
        IpAddr::V6(bits) => (6u8, bits),
    }
}

pub fn ip_table_key(ip: &IpAddr) -> (r: (u8, u128))
    ensures
        r == ip_key(*ip),
{
    match *ip {
        IpAddr::V4(v4) => (4u8, v4.to_bits() as u128),
        IpAddr::V6(bits) => (6u8, bits),
    }
}

/// Distinct addresses have distinct keys.
pub proof fn lemma_ip_key_injective(x: IpAddr, y: IpAddr)
    requires
        ip_key(x) == ip_key(y),
    ensures
        x == y,
{
    if let IpAddr::V4(p) = x {
        if let IpAddr::V4(q) = y {
            lemma_ipv4_bits_injective(p, q);
        }
    }
}

/// The UDP endpoint of a client or of a server.
#[derive(Clone, Copy, PartialEq, Eq, Structural, Debug, Hash)]
pub struct SocketAddr {
    pub ip: IpAddr,
    pub port: u16,
}

/// The key of a session in a table: its eight bytes as a big-endian number.
pub fn session_key(id: &[u8; 8]) -> (r: u64)
    ensures
        r == be64(id@),
{
    let hi: u64 = id[0] as u64 * 0x100_0000 + id[1] as u64 * 0x1_0000 + id[2] as u64 * 0x100
        + id[3] as u64;
    let lo: u64 = id[4] as u64 * 0x100_0000 + id[5] as u64 * 0x1_0000 + id[6] as u64 * 0x100
        + id[7] as u64;
    hi * 0x1_0000_0000 + lo
}

/// The session id whose key is `key`.
pub fn session_id_of(key: u64) -> (r: [u8; 8])
    ensures
        be64(r@) == key,
{
    let hi: u64 = key / 0x1_0000_0000;
    let lo: u64 = key % 0x1_0000_0000;
    proof {
        lemma_quad_join(hi as int);
        lemma_quad_join(lo as int);
    }
    [
        (hi / 0x100_0000) as u8,
        (hi / 0x1_0000 % 0x100) as u8,
        (hi / 0x100 % 0x100) as u8,
        (hi % 0x100) as u8,
        (lo / 0x100_0000) as u8,
        (lo / 0x1_0000 % 0x100) as u8,
        (lo / 0x100 % 0x100) as u8,
        (lo % 0x100) as u8,
    ]
}

/// Distinct session ids have distinct keys.
pub proof fn lemma_session_key_injective(x: Seq<u8>, y: Seq<u8>)
    requires
        x.len() == 8,
        y.len() == 8,
        be64(x) == be64(y),
    ensures
        x == y,
{
    assert(be32(x, 0) == be32(y, 0) && be32(x, 4) == be32(y, 4));
    lemma_quad_split(x[0] as int, x[1] as int, x[2] as int, x[3] as int);
    lemma_quad_split(y[0] as int, y[1] as int, y[2] as int, y[3] as int);
    lemma_quad_split(x[4] as int, x[5] as int, x[6] as int, x[7] as int);
    lemma_quad_split(y[4] as int, y[5] as int, y[6] as int, y[7] as int);
    assert(x =~= y);
}

/// An address is told by its number.
pub proof fn lemma_ipv4_of_bits(ip: Ipv4Addr)
    ensures
        ipv4_of(ip.bits()) == ip,
{
    lemma_quad_split(ip.a as int, ip.b as int, ip.c as int, ip.d as int);
}

/// A number is told by its address.
pub proof fn lemma_bits_of_ipv4(bits: u32)
    ensures
        ipv4_of(bits as int).bits() == bits,
{
    lemma_quad_join(bits as int);
}

} // verus!
