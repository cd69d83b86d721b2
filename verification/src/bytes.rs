//! Big-endian fields inside byte sequences.

use vstd::prelude::*;

verus! {

/// The big-endian 16-bit number in bytes `i` and `i + 1`.
pub open spec fn be16(s: Seq<u8>, i: int) -> int {
    s[i] as int * 256 + s[i + 1] as int
}

/// `s` with the big-endian 16-bit number `v` in bytes `i` and `i + 1`.
pub open spec fn put16(s: Seq<u8>, i: int, v: int) -> Seq<u8> {
    s.update(i, (v / 256) as u8).update(i + 1, (v % 256) as u8)
}

/// The big-endian 32-bit number in bytes `i .. i + 4`.
pub open spec fn be32(s: Seq<u8>, i: int) -> int {
    s[i] as int * 0x100_0000 + s[i + 1] as int * 0x1_0000 + s[i + 2] as int * 0x100 + s[i + 3] as int
}

/// The big-endian 64-bit number in the first eight bytes.
pub open spec fn be64(s: Seq<u8>) -> int {
    be32(s, 0) * 0x1_0000_0000 + be32(s, 4)
}

pub fn read_be16(s: &[u8], i: usize) -> (v: u16)
    requires
        i + 1 < s@.len(),
    ensures
        v == be16(s@, i as int),
{
    s[i] as u16 * 256 + s[i + 1] as u16
}

pub fn write_be16(s: &mut [u8], i: usize, v: u16)
    requires
        i + 1 < old(s)@.len(),
    ensures
        final(s)@ == put16(old(s)@, i as int, v as int),
{
    s[i] = (v / 256) as u8;
    s[i + 1] = (v % 256) as u8;
    proof {
        assert(s@ =~= put16(old(s)@, i as int, v as int));
    }
}

/// `s` with its bytes from `at` on replaced by those of `src`.
pub open spec fn overwritten(s: Seq<u8>, at: int, src: Seq<u8>) -> Seq<u8> {
    s.subrange(0, at) + src + s.subrange(at + src.len(), s.len() as int)
}

/// Copies `src` over the bytes of `dst` from `at` on.
pub fn copy_into(dst: &mut [u8], at: usize, src: &[u8])
    requires
        at + src@.len() <= old(dst)@.len(),
    ensures
        final(dst)@ == overwritten(old(dst)@, at as int, src@),
{
    let ghost before = dst@;
    let n: usize = dst.len();
    let mut i: usize = 0;
    while i < src.len()
        invariant
            i <= src@.len(),
            at + src@.len() <= dst@.len(),
            dst@.len() == before.len(),
            dst@.len() == n,
            forall|j: int| 0 <= j < at ==> dst@[j] == before[j],
            forall|j: int| at <= j < at + i ==> dst@[j] == src@[j - at],
            forall|j: int| at + i <= j < dst@.len() ==> dst@[j] == before[j],
        decreases src.len() - i,
    {
        dst[at + i] = src[i];
        i = i + 1;
    }
    assert(dst@ =~= overwritten(before, at as int, src@));
}

/// Reading back a number that was written.
pub proof fn lemma_put16_be16(s: Seq<u8>, i: int, v: int)
    requires
        0 <= i,
        i + 1 < s.len(),
        0 <= v < 0x1_0000,
    ensures
        be16(put16(s, i, v), i) == v,
        put16(s, i, v).len() == s.len(),
        forall|j: int| 0 <= j < s.len() && j != i && j != i + 1 ==> put16(s, i, v)[j] == s[j],
{
    assert(0 <= v / 256 < 256);
}

/// Numbers in frames and packets are big-endian: each byte behind another counts 1 where
/// the number before it counts 256.
pub proof fn numbers_are_big_endian(s: Seq<u8>, i: int)
    ensures
        be16(s, i) == s[i] * 256 + s[i + 1],
        be32(s, i) == ((s[i] * 256 + s[i + 1]) * 256 + s[i + 2]) * 256 + s[i + 3],
        be64(s) == ((((((s[0] * 256 + s[1]) * 256 + s[2]) * 256 + s[3]) * 256 + s[4]) * 256 + s[5]) * 256
            + s[6]) * 256 + s[7],
{
}

} // verus!
