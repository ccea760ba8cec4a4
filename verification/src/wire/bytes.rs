//! Big-endian numbers in byte sequences.

use vstd::prelude::*;

verus! {

/// The two bytes of a 16-bit number, high byte first.
pub open spec fn enc16(x: u16) -> Seq<u8> {
    seq![(x / 256) as u8, (x % 256) as u8]
}

/// The four bytes of a 32-bit number, highest first.
pub open spec fn enc32(x: u32) -> Seq<u8> {
    seq![
        (x / 0x100_0000) as u8,
        (x / 0x1_0000 % 256) as u8,
        (x / 256 % 256) as u8,
        (x % 256) as u8,
    ]
}

/// The 16-bit number at offset `i`.
pub open spec fn be16(s: Seq<u8>, i: int) -> u16 {
    (s[i] * 256 + s[i + 1]) as u16
}

/// The 32-bit number at offset `i`.
pub open spec fn be32(s: Seq<u8>, i: int) -> u32 {
    (s[i] * 0x100_0000 + s[i + 1] * 0x1_0000 + s[i + 2] * 256 + s[i + 3]) as u32
}

/// Reading back an encoded number gives the number.
pub proof fn lemma_be16_enc16(s: Seq<u8>, i: int, x: u16)
    requires
        0 <= i,
        i + 2 <= s.len(),
        s.subrange(i, i + 2) == enc16(x),
    ensures
        be16(s, i) == x,
{
    let t = s.subrange(i, i + 2);
    assert(s[i] == t[0] && s[i + 1] == t[1]);
}

/// Reading back an encoded number gives the number.
pub proof fn lemma_be32_enc32(s: Seq<u8>, i: int, x: u32)
    requires
        0 <= i,
        i + 4 <= s.len(),
        s.subrange(i, i + 4) == enc32(x),
    ensures
        be32(s, i) == x,
{
    let t = s.subrange(i, i + 4);
    assert(s[i] == t[0] && s[i + 1] == t[1] && s[i + 2] == t[2] && s[i + 3] == t[3]);
}

pub fn get_u16(b: &[u8], i: usize) -> (x: u16)
    requires
        i + 2 <= b@.len(),
    ensures
        x == be16(b@, i as int),
{
    b[i] as u16 * 256 + b[i + 1] as u16
}

pub fn get_u32(b: &[u8], i: usize) -> (x: u32)
    requires
        i + 4 <= b@.len(),
    ensures
        x == be32(b@, i as int),
{
    b[i] as u32 * 0x100_0000 + b[i + 1] as u32 * 0x1_0000 + b[i + 2] as u32 * 256 + b[i + 3] as u32
}

/// Writes `v` at `at` and returns the offset behind it.
pub fn put_u8(b: &mut [u8], at: usize, v: u8) -> (next: usize)
    requires
        at < old(b)@.len(),
    ensures
        next == at + 1,
        final(b)@.len() == old(b)@.len(),
        final(b)@.take(next as int) == old(b)@.take(at as int).push(v),
        forall|j: int| next <= j < final(b)@.len() ==> #[trigger] final(b)@[j] == old(b)@[j],
{
    b[at] = v;
    assert(b@.take(at + 1) =~= old(b)@.take(at as int).push(v));
    at + 1
}

/// Writes `v` at `at` and returns the offset behind it.
pub fn put_u16(b: &mut [u8], at: usize, v: u16) -> (next: usize)
    requires
        at + 2 <= old(b)@.len(),
    ensures
        next == at + 2,
        final(b)@.len() == old(b)@.len(),
        final(b)@.take(next as int) == old(b)@.take(at as int) + enc16(v),
        forall|j: int| next <= j < final(b)@.len() ==> #[trigger] final(b)@[j] == old(b)@[j],
{
    let a1: usize = put_u8(b, at, (v / 256) as u8);
    let a2: usize = put_u8(b, a1, (v % 256) as u8);
    assert(b@.take(a2 as int) =~= old(b)@.take(at as int) + enc16(v));
    a2
}

/// Writes `v` at `at` and returns the offset behind it.
pub fn put_u32(b: &mut [u8], at: usize, v: u32) -> (next: usize)
    requires
        at + 4 <= old(b)@.len(),
    ensures
        next == at + 4,
        final(b)@.len() == old(b)@.len(),
        final(b)@.take(next as int) == old(b)@.take(at as int) + enc32(v),
        forall|j: int| next <= j < final(b)@.len() ==> #[trigger] final(b)@[j] == old(b)@[j],
{
    let a1: usize = put_u8(b, at, (v / 0x100_0000) as u8);
    let a2: usize = put_u8(b, a1, (v / 0x1_0000 % 256) as u8);
    let a3: usize = put_u8(b, a2, (v / 256 % 256) as u8);
    let a4: usize = put_u8(b, a3, (v % 256) as u8);
    assert(b@.take(a4 as int) =~= old(b)@.take(at as int) + enc32(v));
    a4
}

/// Writes all of `s` at `at` and returns the offset behind it.
pub fn put_slice(b: &mut [u8], at: usize, s: &[u8]) -> (next: usize)
    requires
        at + s@.len() <= old(b)@.len(),
    ensures
        next == at + s@.len(),
        final(b)@.len() == old(b)@.len(),
        final(b)@.take(next as int) == old(b)@.take(at as int) + s@,
        forall|j: int| next <= j < final(b)@.len() ==> #[trigger] final(b)@[j] == old(b)@[j],
{
    let cap: usize = b.len();
    let mut i: usize = 0;
    while i < s.len()
        invariant
            i <= s@.len(),
            at + s@.len() <= b@.len() == cap,
            b@.len() == old(b)@.len(),
            forall|j: int| 0 <= j < at ==> #[trigger] b@[j] == old(b)@[j],
            forall|j: int| at <= j < at + i ==> #[trigger] b@[j] == s@[j - at],
            forall|j: int| at + i <= j < b@.len() ==> #[trigger] b@[j] == old(b)@[j],
        decreases s@.len() - i,
    {
        b[at + i] = s[i];
        i = i + 1;
    }
    assert(b@.take(at + s@.len()) =~= old(b)@.take(at as int) + s@);
    at + s.len()
}

} // verus!
