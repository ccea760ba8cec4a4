//! The Internet checksum (RFC 1071).

use vstd::arithmetic::div_mod::{lemma_fundamental_div_mod, lemma_mod_multiples_vanish};
use vstd::prelude::*;

verus! {

/// Sum of the big-endian 16-bit words of `s`, an odd last byte counting as a
/// word's high byte.
pub open spec fn word_sum(s: Seq<u8>) -> nat
    decreases s.len(),
{
    if s.len() == 0 {
        0
    } else if s.len() == 1 {
        (s[0] * 256) as nat
    } else {
        (s[0] * 256 + s[1]) as nat + word_sum(s.skip(2))
    }
}

/// The 16-bit ones' complement value of a sum: what is left after every carry
/// out of the low sixteen bits has been added back in.
pub open spec fn ones_sum(n: nat) -> nat {
    if n == 0 {
        0
    } else {
        ((n - 1) % 65535 + 1) as nat
    }
}

/// The checksum of a sum: the complement of its ones' complement value.
pub open spec fn checksum_of(n: nat) -> nat {
    (0xFFFF - ones_sum(n)) as nat
}

/// A block whose words, checksum included, sum to `n` carries a good checksum.
pub open spec fn checksum_ok(n: nat) -> bool {
    ones_sum(n) == 0xFFFF
}

pub proof fn lemma_ones_sum_bound(n: nat)
    ensures
        ones_sum(n) <= 0xFFFF,
        n <= 0xFFFF ==> ones_sum(n) == n,
{
}

pub proof fn lemma_carry_step(n: nat)
    ensures
        ones_sum(n / 65536 + n % 65536) == ones_sum(n),
{
    let q = (n / 65536) as int;
    let r = (n % 65536) as int;
    if n > 0 {
        assert(n - 1 == 65535 * q + (q + r - 1));
        lemma_mod_multiples_vanish(q, q + r - 1, 65535);
    }
}

/// Adding the checksum to the sum that it was computed from makes it good.
pub proof fn lemma_checksum_completes(n: nat)
    ensures
        checksum_ok(n + checksum_of(n)),
{
    if n > 0 {
        let k = (n - 1) % 65535;
        let m = (n - 1) / 65535;
        lemma_fundamental_div_mod(n - 1, 65535);
        assert(n + checksum_of(n) - 1 == 65535 * m + 65534 + 0) by {
            assert(n - 1 == 65535 * m + k);
            assert(checksum_of(n) == 65534 - k);
        }
        lemma_mod_multiples_vanish(m, 65534, 65535);
    }
}

/// A good checksum turns bad when the sum changes by less than `65535`.
pub proof fn lemma_small_change_spoils(n: nat, m: nat)
    requires
        checksum_ok(n),
        n != m,
        n < m + 65535,
        m < n + 65535,
    ensures
        !checksum_ok(m),
{
    if checksum_ok(m) {
        lemma_fundamental_div_mod(n - 1, 65535);
        lemma_fundamental_div_mod(m - 1, 65535);
        let a = (n - 1) / 65535;
        let b = (m - 1) / 65535;
        assert(n - m == 65535 * (a - b)) by (nonlinear_arith)
            requires
                n - 1 == 65535 * a + 65534,
                m - 1 == 65535 * b + 65534,
        ;
        assert(a == b);
    }
}

/// The words of a concatenation add up, when the first part ends on a word.
pub proof fn lemma_word_sum_concat(a: Seq<u8>, b: Seq<u8>)
    requires
        a.len() % 2 == 0,
    ensures
        word_sum(a + b) == word_sum(a) + word_sum(b),
    decreases a.len(),
{
    if a.len() == 0 {
        assert(a + b =~= b);
    } else {
        assert((a + b).skip(2) =~= a.skip(2) + b);
        lemma_word_sum_concat(a.skip(2), b);
    }
}

/// Replacing one byte changes the sum by the change of that byte, at its weight
/// in its word.
pub proof fn lemma_word_sum_update(s: Seq<u8>, i: int, v: u8)
    requires
        0 <= i < s.len(),
    ensures
        i % 2 == 0 ==> word_sum(s.update(i, v)) == word_sum(s) + (v - s[i]) * 256,
        i % 2 == 1 ==> word_sum(s.update(i, v)) == word_sum(s) + (v - s[i]),
    decreases s.len(),
{
    if i < 2 {
        if s.len() >= 2 {
            assert(s.update(i, v).skip(2) =~= s.skip(2));
        }
    } else {
        assert(s.update(i, v).skip(2) =~= s.skip(2).update(i - 2, v));
        lemma_word_sum_update(s.skip(2), i - 2, v);
    }
}

/// Storing a checksum in two zero bytes on a word boundary makes the whole good.
pub proof fn lemma_store_checksum(s: Seq<u8>, i: int, before: nat, hi: u8, lo: u8)
    requires
        0 <= i,
        i + 1 < s.len(),
        i % 2 == 0,
        s[i] == 0,
        s[i + 1] == 0,
        hi * 256 + lo == checksum_of(before + word_sum(s)),
    ensures
        checksum_ok(before + word_sum(s.update(i, hi).update(i + 1, lo))),
{
    lemma_word_sum_update(s, i, hi);
    lemma_word_sum_update(s.update(i, hi), i + 1, lo);
    lemma_checksum_completes(before + word_sum(s));
}

/// The sum of the words of `b[lo..hi]`, added to `before`.
pub fn sum_words(b: &[u8], lo: usize, hi: usize, before: u64) -> (sum: u64)
    requires
        lo <= hi <= b@.len(),
        hi - lo <= 0x1_0000,
        before <= 0x1_0000_0000,
    ensures
        sum == before + word_sum(b@.subrange(lo as int, hi as int)),
        sum <= before + 0x1_0000_0000,
{
    let mut sum: u64 = before;
    let mut i: usize = lo;
    let ghost all = b@.subrange(lo as int, hi as int);
    assert(all.take(0) =~= Seq::<u8>::empty());
    while i < hi && hi - i >= 2
        invariant
            lo <= i <= hi <= b@.len(),
            hi - lo <= 0x1_0000,
            before <= 0x1_0000_0000,
            all == b@.subrange(lo as int, hi as int),
            (i - lo) % 2 == 0,
            sum == before + word_sum(all.take(i - lo)),
            sum <= before + 65535 * (i - lo),
        decreases hi - i,
    {
        let w: u64 = b[i] as u64 * 256 + b[i + 1] as u64;
        proof {
            let k = i - lo;
            let pair = all.subrange(k, k + 2);
            assert(all.take(k + 2) =~= all.take(k) + pair);
            lemma_word_sum_concat(all.take(k), pair);
            assert(pair.skip(2) =~= Seq::<u8>::empty());
            assert(word_sum(pair) == w + word_sum(pair.skip(2)));
            assert(word_sum(pair.skip(2)) == 0);
        }
        sum = sum + w;
        i = i + 2;
    }
    if i < hi {
        let w: u64 = b[i] as u64 * 256;
        proof {
            let k = i - lo;
            let rest = all.subrange(k, k + 1);
            assert(all =~= all.take(k) + rest);
            lemma_word_sum_concat(all.take(k), rest);
        }
        sum = sum + w;
    } else {
        assert(all.take(i - lo) =~= all);
    }
    sum
}

/// The ones' complement value of `sum`.
pub fn fold(sum: u64) -> (f: u16)
    requires
        sum <= 0x4_0000_0000,
    ensures
        f == ones_sum(sum as nat),
{
    let mut s: u64 = sum;
    while s > 0xFFFF
        invariant
            ones_sum(s as nat) == ones_sum(sum as nat),
        decreases s,
    {
        proof {
            lemma_carry_step(s as nat);
        }
        s = s / 0x1_0000 + s % 0x1_0000;
    }
    proof {
        lemma_ones_sum_bound(s as nat);
    }
    s as u16
}

} // verus!
