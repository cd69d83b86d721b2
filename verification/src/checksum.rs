//! The Internet checksum: the complement of the ones' complement sum of
//! big-endian 16-bit words.

use crate::bytes::{be16, put16, read_be16, lemma_put16_be16};
use vstd::prelude::*;

verus! {

/// The sum of the big-endian 16-bit words of `s`. An odd last byte counts as the
/// high half of a word whose low half is zero.
pub open spec fn word_sum(s: Seq<u8>) -> nat
    decreases s.len(),
{
    if s.len() == 0 {
        0
    } else if s.len() == 1 {
        s[0] as nat * 256
    } else {
        be16(s, 0) as nat + word_sum(s.subrange(2, s.len() as int))
    }
}

/// A sum with its carries added back in: zero stays zero, any other number becomes
/// the one in `1..=0xFFFF` that has the same remainder modulo `0xFFFF`.
pub open spec fn fold(n: int) -> int {
    if n <= 0 {
        0
    } else {
        (n - 1) % 0xFFFF + 1
    }
}

/// The checksum that belongs to a word sum.
pub open spec fn sum_checksum(n: int) -> int {
    0xFFFF - fold(n)
}

/// What [`calculate_ip_checksum`] returns: the words are added modulo 2^32.
pub open spec fn checksum_of(s: Seq<u8>) -> int {
    sum_checksum(word_sum(s) as int % 0x1_0000_0000)
}

pub proof fn lemma_fold_bounds(n: int)
    ensures
        0 <= fold(n) <= 0xFFFF,
        n > 0 ==> fold(n) > 0,
        n >= 0 ==> fold(n) % 0xFFFF == n % 0xFFFF,
{
    if n > 0 {
        vstd::arithmetic::div_mod::lemma_add_mod_noop(n - 1, 1, 0xFFFF);
        vstd::arithmetic::div_mod::lemma_add_mod_noop((n - 1) % 0xFFFF, 1, 0xFFFF);
    }
}

/// Numbers that agree modulo `0xFFFF` fold to the same word, unless exactly one of
/// them is zero.
pub proof fn lemma_fold_congruent(a: int, b: int)
    requires
        0 < a,
        0 < b,
        a % 0xFFFF == b % 0xFFFF,
    ensures
        fold(a) == fold(b),
{
    lemma_fold_bounds(a);
    lemma_fold_bounds(b);
    let x: int = fold(a);
    let y: int = fold(b);
    assert(x % 0xFFFF == y % 0xFFFF && 1 <= x <= 0xFFFF && 1 <= y <= 0xFFFF ==> x == y);
}

/// One end-around carry keeps the folded value.
proof fn lemma_fold_step(n: int)
    requires
        n > 0,
    ensures
        fold(n % 0x1_0000 + n / 0x1_0000) == fold(n),
        n % 0x1_0000 + n / 0x1_0000 > 0,
{
    let q: int = n / 0x1_0000;
    let r: int = n % 0x1_0000;
    assert(n == q * 0x1_0000 + r);
    assert(n - 1 == (r + q - 1) + 0xFFFF * q);
    vstd::arithmetic::div_mod::lemma_mod_multiples_vanish(q, r + q - 1, 0xFFFF);
    assert(0xFFFF * q + (r + q - 1) == n - 1);
}

/// Folds a 32-bit sum to 16 bits.
pub fn fold_carries(total: u32) -> (r: u16)
    ensures
        r == fold(total as int),
{
    let mut sum: u32 = total;
    while sum > 0xFFFF
        invariant
            fold(sum as int) == fold(total as int),
        decreases sum,
    {
        proof {
            lemma_fold_step(sum as int);
        }
        sum = sum % 0x1_0000 + sum / 0x1_0000;
    }
    proof {
        if sum > 0 {
            vstd::arithmetic::div_mod::lemma_small_mod((sum - 1) as nat, 0xFFFF);
        }
    }
    sum as u16
}

/// Word sums of concatenations add up when the first part has an even length.
pub proof fn lemma_word_sum_add(a: Seq<u8>, b: Seq<u8>)
    requires
        a.len() % 2 == 0,
    ensures
        word_sum(a + b) == word_sum(a) + word_sum(b),
    decreases a.len(),
{
    if a.len() == 0 {
        assert(a + b =~= b);
    } else {
        let rest = a.subrange(2, a.len() as int);
        lemma_word_sum_add(rest, b);
        assert((a + b).subrange(2, (a + b).len() as int) =~= rest + b);
    }
}

/// A word sum grows by at most `0xFFFF` per word.
pub proof fn lemma_word_sum_bound(s: Seq<u8>)
    ensures
        word_sum(s) <= 0xFFFF * ((s.len() + 1) / 2),
    decreases s.len(),
{
    if s.len() >= 2 {
        let rest = s.subrange(2, s.len() as int);
        lemma_word_sum_bound(rest);
        assert((s.len() + 1) / 2 == (rest.len() + 1) / 2 + 1);
    }
}

/// One word further.
proof fn lemma_word_sum_next(s: Seq<u8>, i: int)
    requires
        0 <= i < s.len(),
        i % 2 == 0,
    ensures
        i + 1 < s.len() ==> word_sum(s.subrange(0, i + 2)) == word_sum(s.subrange(0, i)) + be16(s, i),
        i + 1 == s.len() ==> word_sum(s) == word_sum(s.subrange(0, i)) + s[i] as int * 256,
{
    let head = s.subrange(0, i);
    if i + 1 < s.len() {
        let w = s.subrange(i, i + 2);
        assert(s.subrange(0, i + 2) =~= head + w);
        lemma_word_sum_add(head, w);
        assert(w.subrange(2, 2) =~= Seq::<u8>::empty());
        assert(word_sum(w.subrange(2, 2)) == 0);
        assert(word_sum(w) == be16(w, 0));
    } else {
        let w = s.subrange(i, i + 1);
        assert(s =~= head + w);
        lemma_word_sum_add(head, w);
        assert(word_sum(w) == w[0] as int * 256);
    }
}

/// The ones' complement checksum over `header`.
pub fn calculate_ip_checksum(header: &[u8]) -> (r: u16)
    ensures
        r == checksum_of(header@),
{
    let mut sum: u32 = 0;
    let n: usize = header.len();
    let mut i: usize = 0;
    proof {
        assert(header@.subrange(0, 0) =~= Seq::<u8>::empty());
    }
    while i < n
        invariant
            n == header@.len(),
            i % 2 == 0 && i <= n || i == n,
            sum as int == word_sum(header@.subrange(0, i as int)) as int % 0x1_0000_0000,
        decreases n - i,
    {
        proof {
            lemma_word_sum_next(header@, i as int);
        }
        let ghost before = word_sum(header@.subrange(0, i as int)) as int;
        if n - i >= 2 {
            let word: u32 = header[i] as u32 * 256 + header[i + 1] as u32;
            proof {
                vstd::arithmetic::div_mod::lemma_add_mod_noop(before, word as int, 0x1_0000_0000);
            }
            sum = sum.wrapping_add(word);
            i = i + 2;
        } else {
            let word: u32 = header[i] as u32 * 256;
            proof {
                vstd::arithmetic::div_mod::lemma_add_mod_noop(before, word as int, 0x1_0000_0000);
                assert(header@.subrange(0, n as int) =~= header@);
            }
            sum = sum.wrapping_add(word);
            i = i + 1;
        }
    }
    proof {
        assert(header@.subrange(0, n as int) =~= header@);
    }
    let folded: u16 = fold_carries(sum);
    0xFFFF - folded
}

/// A checksum completes its sum: with it added, the words sum to all ones.
pub proof fn lemma_checksum_completes(n: int)
    requires
        0 <= n,
    ensures
        fold(n + sum_checksum(n)) == 0xFFFF,
{
    lemma_fold_bounds(n);
    let c: int = sum_checksum(n);
    let t: int = n + c;
    assert(t > 0);
    vstd::arithmetic::div_mod::lemma_add_mod_noop(n, c, 0xFFFF);
    vstd::arithmetic::div_mod::lemma_add_mod_noop(fold(n), c, 0xFFFF);
    assert(t % 0xFFFF == 0xFFFFint % 0xFFFF);
    lemma_fold_congruent(t, 0xFFFF);
}

/// Exchanging one aligned word moves the sum by the difference of the words.
pub proof fn lemma_word_sum_put16(s: Seq<u8>, i: int, v: int)
    requires
        0 <= i,
        i + 1 < s.len(),
        i % 2 == 0,
        0 <= v < 0x1_0000,
    ensures
        word_sum(put16(s, i, v)) == word_sum(s) - be16(s, i) + v,
{
    let t = put16(s, i, v);
    lemma_put16_be16(s, i, v);
    let tail = s.subrange(i + 2, s.len() as int);
    assert(s =~= s.subrange(0, i + 2) + tail);
    assert(t =~= t.subrange(0, i + 2) + tail);
    lemma_word_sum_add(s.subrange(0, i + 2), tail);
    lemma_word_sum_add(t.subrange(0, i + 2), tail);
    lemma_word_sum_next(s, i);
    lemma_word_sum_next(t, i);
    assert(s.subrange(0, i) =~= t.subrange(0, i));
}

/// A header whose checksum field, at the even offset `i`, holds the checksum over
/// the rest verifies: the checksum over all of it is zero.
pub proof fn lemma_checksum_self_check(s: Seq<u8>, i: int)
    requires
        0 <= i,
        i + 1 < s.len() <= 0x2_0000,
        i % 2 == 0,
        s[i] == 0,
        s[i + 1] == 0,
    ensures
        checksum_of(put16(s, i, checksum_of(s))) == 0,
{
    let n: int = word_sum(s) as int;
    lemma_word_sum_small(s);
    lemma_fold_bounds(n);
    let c: int = sum_checksum(n);
    let t = put16(s, i, c);
    assert(be16(s, i) == 0);
    lemma_word_sum_put16(s, i, c);
    assert(word_sum(t) == n + c);
    assert(t.len() == s.len());
    lemma_word_sum_small(t);
    lemma_checksum_completes(n);
}

/// The words of what is not too long sum to less than 2^32.
proof fn lemma_word_sum_small(s: Seq<u8>)
    requires
        s.len() <= 0x2_0000,
    ensures
        word_sum(s) as int % 0x1_0000_0000 == word_sum(s),
{
    lemma_word_sum_bound(s);
    assert(word_sum(s) <= 0xFFFF * 0x1_0000);
}

/// Adds the words of `s` to `start`.
pub fn add_words(start: u32, s: &[u8]) -> (r: u32)
    requires
        start <= 0x10_0000,
        s@.len() <= 0x1_0000,
    ensures
        r == start + word_sum(s@),
{
    let mut sum: u32 = start;
    let n: usize = s.len();
    let mut i: usize = 0;
    proof {
        assert(s@.subrange(0, 0) =~= Seq::<u8>::empty());
    }
    while i + 1 < n
        invariant
            n == s@.len(),
            n <= 0x1_0000,
            start <= 0x10_0000,
            i % 2 == 0,
            i <= n,
            sum == start + word_sum(s@.subrange(0, i as int)),
        decreases n - i,
    {
        proof {
            lemma_word_sum_next(s@, i as int);
            lemma_word_sum_bound(s@.subrange(0, i + 2));
        }
        sum = sum + read_be16(s, i) as u32;
        i = i + 2;
    }
    if n % 2 == 1 {
        proof {
            lemma_word_sum_next(s@, i as int);
            lemma_word_sum_bound(s@);
        }
        sum = sum + s[n - 1] as u32 * 256;
    }
    proof {
        assert(s@.subrange(0, n as int) =~= s@);
    }
    sum
}

/// The sum of the octets of `s`, each with its weight in a 16-bit word: those at even
/// places are high halves, those at odd places low halves.
pub open spec fn octet_sum(s: Seq<u8>) -> int
    decreases s.len(),
{
    if s.len() == 0 {
        0
    } else if s.len() % 2 == 1 {
        octet_sum(s.drop_last()) + s.last() as int * 256
    } else {
        octet_sum(s.drop_last()) + s.last() as int
    }
}

/// Adding words is adding octets with their weights, the last one of an odd number of
/// them included.
pub proof fn every_octet_is_summed(s: Seq<u8>)
    ensures
        word_sum(s) == octet_sum(s),
    decreases s.len(),
{
    let n = s.len() as int;
    if n == 1 {
        assert(s.drop_last() =~= Seq::<u8>::empty());
        assert(octet_sum(s.drop_last()) == 0);
    } else if n > 1 {
        let t = s.drop_last();
        if n % 2 == 1 {
            every_octet_is_summed(t);
            lemma_word_sum_next(s, n - 1);
            assert(s.subrange(0, n - 1) =~= t);
        } else {
            let u = t.drop_last();
            every_octet_is_summed(u);
            lemma_word_sum_next(s, n - 2);
            assert(s.subrange(0, n - 2) =~= u);
            assert(s.subrange(0, n) =~= s);
            assert(octet_sum(t) == octet_sum(u) + t.last() as int * 256);
        }
    }
}

/// A folded sum is a word that has the same remainder modulo all ones, and is zero only
/// for nothing.
pub proof fn folding_keeps_the_remainder(n: int)
    requires
        n >= 0,
    ensures
        0 <= fold(n) < 0x1_0000,
        fold(n) % 0xFFFF == n % 0xFFFF,
        fold(n) == 0 <==> n == 0,
{
    lemma_fold_bounds(n);
}

/// The checksum over bytes is the word that, added to their sum, leaves nothing modulo
/// all ones. Of the two words that do, it is zero, unless the bytes are all zero.
pub proof fn a_checksum_makes_the_sum_vanish(s: Seq<u8>)
    requires
        s.len() <= 0x2_0000,
    ensures
        0 <= checksum_of(s) < 0x1_0000,
        (octet_sum(s) + checksum_of(s)) % 0xFFFF == 0,
        checksum_of(s) == 0xFFFF <==> octet_sum(s) == 0,
{
    every_octet_is_summed(s);
    lemma_word_sum_small(s);
    let n = word_sum(s) as int;
    lemma_fold_bounds(n);
    lemma_checksum_completes(n);
    let c = sum_checksum(n);
    lemma_fold_bounds(n + c);
    assert((n + c) % 0xFFFF == 0xFFFFint % 0xFFFF);
}

} // verus!
