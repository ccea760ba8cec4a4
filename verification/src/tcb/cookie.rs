//! SYN cookies (RFC 4987): initial sequence numbers that carry a keyed hash of
//! the connection's addresses, so that a listener keeps no state for a SYN.

use crate::wire::bytes::{enc16, enc32, lemma_be16_enc16, lemma_be32_enc32};
use vstd::prelude::*;

verus! {

/// Width of a cookie's time bucket. A cookie is good in its own bucket and the
/// next one.
pub const COOKIE_TIME_BUCKET_MS: u64 = 64_000;

/// Weight of the segment-size index in a cookie: the bits below hold the hash.
pub const COOKIE_INDEX_UNIT: u32 = 0x2000_0000;

/// The segment size that index `idx`, taken modulo eight, stands for.
pub open spec fn cookie_mss(idx: u8) -> u16 {
    match idx % 8 {
        0 => 536,
        1 => 1300,
        2 => 1440,
        3 => 1452,
        4 => 1460,
        5 => 1480,
        6 => 9000,
        _ => 65495,
    }
}

/// Index of the largest segment size in the table that does not exceed
/// `peer_mss`; zero if all do.
pub open spec fn cookie_index(peer_mss: u16) -> u8 {
    if peer_mss >= 65495 {
        7
    } else if peer_mss >= 9000 {
        6
    } else if peer_mss >= 1480 {
        5
    } else if peer_mss >= 1460 {
        4
    } else if peer_mss >= 1452 {
        3
    } else if peer_mss >= 1440 {
        2
    } else if peer_mss >= 1300 {
        1
    } else {
        0
    }
}

/// Index of the largest segment size in the table that does not exceed
/// `peer_mss`.
pub fn cookie_mss_index(peer_mss: u16) -> (idx: u8)
    ensures
        idx == cookie_index(peer_mss),
        idx < 8,
{
    let mut best: u8 = 0;
    let mut i: u8 = 0;
    while i < 8
        invariant
            i <= 8,
            best < 8,
            best == (if cookie_index(peer_mss) < i {
                cookie_index(peer_mss) as int
            } else if i == 0 {
                0int
            } else {
                i - 1
            }),
        decreases 8 - i,
    {
        if cookie_mss_from_index(i) <= peer_mss {
            best = i;
        }
        i = i + 1;
    }
    best
}

/// The segment size that a cookie's index stands for.
pub fn cookie_mss_from_index(idx: u8) -> (mss: u16)
    ensures
        mss == cookie_mss(idx),
{
    match idx % 8 {
        0 => 536,
        1 => 1300,
        2 => 1440,
        3 => 1452,
        4 => 1460,
        5 => 1480,
        6 => 9000,
        _ => 65495,
    }
}

/// The segment size that comes back from a cookie is the one that went in,
/// rounded down to the table, and it never exceeds what the peer offered unless
/// the offer is below the table.
pub proof fn law_cookie_mss_rounds_down(peer_mss: u16)
    ensures
        cookie_index(peer_mss) < 8,
        peer_mss >= 536 ==> cookie_mss(cookie_index(peer_mss)) <= peer_mss,
        forall|i: u8| i < 8 ==> #[trigger] cookie_index(cookie_mss(i)) == i,
{
}

/// `x` rotated left by `k` bits.
pub open spec fn rotl(x: u64, k: u64) -> u64 {
    (x << k) | (x >> ((64 - k) as u64))
}

fn rotate(x: u64, k: u64) -> (r: u64)
    requires
        0 < k < 64,
    ensures
        r == rotl(x, k),
{
    (x << k) | (x >> (64 - k))
}

/// The four words of SipHash state.
#[derive(Copy, Clone)]
pub struct Sip {
    pub v0: u64,
    pub v1: u64,
    pub v2: u64,
    pub v3: u64,
}

/// One SipRound.
pub open spec fn sip_round(s: Sip) -> Sip {
    let a0 = s.v0.wrapping_add(s.v1);
    let a1 = rotl(s.v1, 13) ^ a0;
    let b0 = rotl(a0, 32);
    let a2 = s.v2.wrapping_add(s.v3);
    let a3 = rotl(s.v3, 16) ^ a2;
    let c0 = b0.wrapping_add(a3);
    let b3 = rotl(a3, 21) ^ c0;
    let b2 = a2.wrapping_add(a1);
    let b1 = rotl(a1, 17) ^ b2;
    Sip { v0: c0, v1: b1, v2: rotl(b2, 32), v3: b3 }
}

/// The state after the message word `m` has been mixed in with two rounds.
pub open spec fn sip_mix(s: Sip, m: u64) -> Sip {
    let t = sip_round(sip_round(Sip { v3: s.v3 ^ m, ..s }));
    Sip { v0: t.v0 ^ m, ..t }
}

/// The little-endian 64-bit number at offset `i`.
pub open spec fn le64(s: Seq<u8>, i: int) -> u64 {
    (s[i] + s[i + 1] * 0x100 + s[i + 2] * 0x1_0000 + s[i + 3] * 0x100_0000 + s[i + 4]
        * 0x1_0000_0000 + s[i + 5] * 0x100_0000_0000 + s[i + 6] * 0x1_0000_0000_0000 + s[i + 7]
        * 0x100_0000_0000_0000) as u64
}

/// The initial state for a key.
pub open spec fn sip_start(key: Seq<u8>) -> Sip {
    Sip {
        v0: 0x736f_6d65_7073_6575u64 ^ le64(key, 0),
        v1: 0x646f_7261_6e64_6f6du64 ^ le64(key, 8),
        v2: 0x6c79_6765_6e65_7261u64 ^ le64(key, 0),
        v3: 0x7465_6462_7974_6573u64 ^ le64(key, 8),
    }
}

/// The state after the first `n` whole words of `data`.
pub open spec fn sip_words(key: Seq<u8>, data: Seq<u8>, n: nat) -> Sip
    decreases n,
{
    if n == 0 {
        sip_start(key)
    } else {
        sip_mix(sip_words(key, data, (n - 1) as nat), le64(data, 8 * (n - 1)))
    }
}

/// The last word: the bytes behind the whole words, zeros, and the length modulo
/// 256 in the highest byte.
pub open spec fn sip_tail(data: Seq<u8>) -> Seq<u8> {
    let whole = data.len() / 8 * 8;
    Seq::new(
        8,
        |i: int|
            if i == 7 {
                (data.len() % 256) as u8
            } else if whole + i < data.len() {
                data[whole + i]
            } else {
                0u8
            },
    )
}

/// SipHash-2-4 of `data` under `key`.
pub open spec fn siphash(key: Seq<u8>, data: Seq<u8>) -> u64 {
    let s = sip_mix(sip_words(key, data, data.len() / 8), le64(sip_tail(data), 0));
    let t = sip_round(sip_round(sip_round(sip_round(Sip { v2: s.v2 ^ 0xff, ..s }))));
    t.v0 ^ t.v1 ^ t.v2 ^ t.v3
}

fn get_le64(b: &[u8], i: usize) -> (x: u64)
    requires
        i + 8 <= b@.len(),
    ensures
        x == le64(b@, i as int),
{
    b[i] as u64 + b[i + 1] as u64 * 0x100 + b[i + 2] as u64 * 0x1_0000 + b[i + 3] as u64
        * 0x100_0000 + b[i + 4] as u64 * 0x1_0000_0000 + b[i + 5] as u64 * 0x100_0000_0000 + b[i
        + 6] as u64 * 0x1_0000_0000_0000 + b[i + 7] as u64 * 0x100_0000_0000_0000
}

/// One SipRound.
pub fn sipround(s: Sip) -> (r: Sip)
    ensures
        r == sip_round(s),
{
    let a0: u64 = s.v0.wrapping_add(s.v1);
    let a1: u64 = rotate(s.v1, 13) ^ a0;
    let b0: u64 = rotate(a0, 32);
    let a2: u64 = s.v2.wrapping_add(s.v3);
    let a3: u64 = rotate(s.v3, 16) ^ a2;
    let c0: u64 = b0.wrapping_add(a3);
    let b3: u64 = rotate(a3, 21) ^ c0;
    let b2: u64 = a2.wrapping_add(a1);
    let b1: u64 = rotate(a1, 17) ^ b2;
    Sip { v0: c0, v1: b1, v2: rotate(b2, 32), v3: b3 }
}

fn mix(s: Sip, m: u64) -> (r: Sip)
    ensures
        r == sip_mix(s, m),
{
    let t = sipround(sipround(Sip { v0: s.v0, v1: s.v1, v2: s.v2, v3: s.v3 ^ m }));
    Sip { v0: t.v0 ^ m, v1: t.v1, v2: t.v2, v3: t.v3 }
}

/// SipHash-2-4 of `data` under `key` (Aumasson and Bernstein, 2012).
pub fn siphash24(key: &[u8; 16], data: &[u8]) -> (h: u64)
    ensures
        h == siphash(key@, data@),
{
    let k0: u64 = get_le64(key.as_slice(), 0);
    let k1: u64 = get_le64(key.as_slice(), 8);
    let mut s = Sip {
        v0: 0x736f_6d65_7073_6575u64 ^ k0,
        v1: 0x646f_7261_6e64_6f6du64 ^ k1,
        v2: 0x6c79_6765_6e65_7261u64 ^ k0,
        v3: 0x7465_6462_7974_6573u64 ^ k1,
    };
    let len: usize = data.len();
    let words: usize = len / 8;
    let mut n: usize = 0;
    while n < words
        invariant
            n <= words == len / 8,
            len == data@.len(),
            s == sip_words(key@, data@, n as nat),
        decreases words - n,
    {
        s = mix(s, get_le64(data, 8 * n));
        n = n + 1;
    }
    let mut tail: [u8; 8] = [0, 0, 0, 0, 0, 0, 0, 0];
    let whole: usize = words * 8;
    let mut i: usize = 0;
    while whole + i < data.len()
        invariant
            whole == data@.len() / 8 * 8,
            whole + i <= data@.len(),
            i < 8,
            forall|k: int| 0 <= k < i ==> #[trigger] tail@[k] == data@[whole + k],
            forall|k: int| i <= k < 8 ==> #[trigger] tail@[k] == 0,
        decreases data@.len() - whole - i,
    {
        tail[i] = data[whole + i];
        i = i + 1;
    }
    tail[7] = (data.len() % 256) as u8;
    assert(tail@ =~= sip_tail(data@));
    s = mix(s, get_le64(tail.as_slice(), 0));
    s = Sip { v0: s.v0, v1: s.v1, v2: s.v2 ^ 0xff, v3: s.v3 };
    s = sipround(sipround(sipround(sipround(s))));
    s.v0 ^ s.v1 ^ s.v2 ^ s.v3
}

/// The eight bytes of a 64-bit number, highest first.
pub open spec fn enc64(x: u64) -> Seq<u8> {
    enc32((x / 0x1_0000_0000) as u32) + enc32((x % 0x1_0000_0000) as u32)
}

/// What a cookie's hash covers.
pub open spec fn cookie_message(
    bucket: u64,
    peer_ip: Seq<u8>,
    peer_port: u16,
    local_ip: Seq<u8>,
    local_port: u16,
    peer_seq: u32,
    mss_idx: u8,
) -> Seq<u8> {
    enc64(bucket) + peer_ip + enc16(peer_port) + local_ip + enc16(local_port) + enc32(peer_seq)
        + seq![mss_idx]
}

/// The cookie for a message: the segment-size index in the top three bits, the
/// low bits of the hash below.
pub open spec fn cookie_from(secret: Seq<u8>, message: Seq<u8>, mss_idx: u8) -> u32 {
    (mss_idx % 8 * COOKIE_INDEX_UNIT + siphash(secret, message) % (COOKIE_INDEX_UNIT as u64)) as u32
}

/// Computes the cookie for a SYN.
pub fn make_cookie(
    secret: &[u8; 16],
    bucket: u64,
    peer_ip: &[u8; 4],
    peer_port: u16,
    local_ip: &[u8; 4],
    local_port: u16,
    peer_seq: u32,
    mss_idx: u8,
) -> (cookie: u32)
    ensures
        cookie == cookie_from(
            secret@,
            cookie_message(bucket, peer_ip@, peer_port, local_ip@, local_port, peer_seq, mss_idx),
            mss_idx,
        ),
{
    let hi: u32 = (bucket / 0x1_0000_0000) as u32;
    let lo: u32 = (bucket % 0x1_0000_0000) as u32;
    let m: [u8; 25] = [
        (hi / 0x100_0000) as u8,
        (hi / 0x1_0000 % 256) as u8,
        (hi / 256 % 256) as u8,
        (hi % 256) as u8,
        (lo / 0x100_0000) as u8,
        (lo / 0x1_0000 % 256) as u8,
        (lo / 256 % 256) as u8,
        (lo % 256) as u8,
        peer_ip[0],
        peer_ip[1],
        peer_ip[2],
        peer_ip[3],
        (peer_port / 256) as u8,
        (peer_port % 256) as u8,
        local_ip[0],
        local_ip[1],
        local_ip[2],
        local_ip[3],
        (local_port / 256) as u8,
        (local_port % 256) as u8,
        (peer_seq / 0x100_0000) as u8,
        (peer_seq / 0x1_0000 % 256) as u8,
        (peer_seq / 256 % 256) as u8,
        (peer_seq % 256) as u8,
        mss_idx,
    ];
    assert(m@ =~= cookie_message(
        bucket,
        peer_ip@,
        peer_port,
        local_ip@,
        local_port,
        peer_seq,
        mss_idx,
    ));
    let mac: u64 = siphash24(secret, m.as_slice());
    (mss_idx % 8) as u32 * COOKIE_INDEX_UNIT + (mac % COOKIE_INDEX_UNIT as u64) as u32
}

/// A cookie gives its segment-size index back.
pub proof fn law_cookie_carries_index(secret: Seq<u8>, message: Seq<u8>, mss_idx: u8)
    ensures
        cookie_from(secret, message, mss_idx) / COOKIE_INDEX_UNIT == mss_idx % 8,
{
}

/// Two encodings of 64-bit numbers are the same only for the same number.
proof fn lemma_enc64_tells(x: u64, y: u64)
    requires
        enc64(x) == enc64(y),
    ensures
        x == y,
{
    let a = enc64(x);
    let b = enc64(y);
    assert(a.subrange(0, 4) =~= enc32((x / 0x1_0000_0000) as u32));
    assert(b.subrange(0, 4) =~= enc32((y / 0x1_0000_0000) as u32));
    assert(a.subrange(4, 8) =~= enc32((x % 0x1_0000_0000) as u32));
    assert(b.subrange(4, 8) =~= enc32((y % 0x1_0000_0000) as u32));
    lemma_be32_enc32(a, 0, (x / 0x1_0000_0000) as u32);
    lemma_be32_enc32(b, 0, (y / 0x1_0000_0000) as u32);
    lemma_be32_enc32(a, 4, (x % 0x1_0000_0000) as u32);
    lemma_be32_enc32(b, 4, (y % 0x1_0000_0000) as u32);
}

/// A cookie's hash covers everything that it vouches for: messages are the same only if the
/// time, both addresses, both ports, the peer's sequence number and its segment size are.
pub proof fn law_cookie_covers_everything(
    bucket: (u64, u64),
    peer_ip: (Seq<u8>, Seq<u8>),
    peer_port: (u16, u16),
    local_ip: (Seq<u8>, Seq<u8>),
    local_port: (u16, u16),
    peer_seq: (u32, u32),
    mss_idx: (u8, u8),
)
    requires
        peer_ip.0.len() == 4 && peer_ip.1.len() == 4,
        local_ip.0.len() == 4 && local_ip.1.len() == 4,
        cookie_message(
            bucket.0,
            peer_ip.0,
            peer_port.0,
            local_ip.0,
            local_port.0,
            peer_seq.0,
            mss_idx.0,
        ) == cookie_message(
            bucket.1,
            peer_ip.1,
            peer_port.1,
            local_ip.1,
            local_port.1,
            peer_seq.1,
            mss_idx.1,
        ),
    ensures
        bucket.0 == bucket.1,
        peer_ip.0 == peer_ip.1,
        peer_port.0 == peer_port.1,
        local_ip.0 == local_ip.1,
        local_port.0 == local_port.1,
        peer_seq.0 == peer_seq.1,
        mss_idx.0 == mss_idx.1,
{
    let a = cookie_message(
        bucket.0,
        peer_ip.0,
        peer_port.0,
        local_ip.0,
        local_port.0,
        peer_seq.0,
        mss_idx.0,
    );
    let b = cookie_message(
        bucket.1,
        peer_ip.1,
        peer_port.1,
        local_ip.1,
        local_port.1,
        peer_seq.1,
        mss_idx.1,
    );
    assert(a.subrange(0, 8) =~= enc64(bucket.0) && b.subrange(0, 8) =~= enc64(bucket.1));
    lemma_enc64_tells(bucket.0, bucket.1);
    assert(a.subrange(8, 12) =~= peer_ip.0 && b.subrange(8, 12) =~= peer_ip.1);
    assert(a.subrange(12, 14) =~= enc16(peer_port.0) && b.subrange(12, 14) =~= enc16(peer_port.1));
    lemma_be16_enc16(a, 12, peer_port.0);
    lemma_be16_enc16(b, 12, peer_port.1);
    assert(a.subrange(14, 18) =~= local_ip.0 && b.subrange(14, 18) =~= local_ip.1);
    assert(a.subrange(18, 20) =~= enc16(local_port.0) && b.subrange(18, 20) =~= enc16(
        local_port.1,
    ));
    lemma_be16_enc16(a, 18, local_port.0);
    lemma_be16_enc16(b, 18, local_port.1);
    assert(a.subrange(20, 24) =~= enc32(peer_seq.0) && b.subrange(20, 24) =~= enc32(peer_seq.1));
    lemma_be32_enc32(a, 20, peer_seq.0);
    lemma_be32_enc32(b, 20, peer_seq.1);
    assert(a[24] == mss_idx.0 && b[24] == mss_idx.1);
}

/// Of the sizes in the table none lies between what a cookie restores and what was offered.
pub proof fn law_cookie_loses_little(peer_mss: u16, i: u8)
    requires
        peer_mss >= 536,
    ensures
        cookie_mss(cookie_index(peer_mss)) <= peer_mss,
        cookie_mss(i) <= peer_mss ==> cookie_mss(i) <= cookie_mss(cookie_index(peer_mss)),
{
}

} // verus!
