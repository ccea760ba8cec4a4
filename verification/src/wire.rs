//! The wire format: one TCP segment in one unfragmented IPv4 datagram.

use crate::error::TcpError;
use vstd::prelude::*;

pub mod bytes;
pub mod checksum;
pub mod ecn;
pub mod flags;
pub mod layout;
pub mod options;

pub use options::{SackBlocks, TcpOptions};

use bytes::{
    be16, be32, enc16, enc32, get_u16, get_u32, lemma_be16_enc16, lemma_be32_enc32, put_slice,
    put_u16, put_u32, put_u8,
};
use checksum::{
    checksum_of, checksum_ok, fold, lemma_ones_sum_bound, lemma_small_change_spoils,
    lemma_store_checksum, lemma_word_sum_update, sum_words, word_sum,
};
use options::{
    law_options_round_trip, lemma_option_len, no_options, option_bytes, option_len, options_from,
    raw_option_len, wire_options, OptionsView, MAX_OPTIONS,
};

verus! {

/// Length of an IPv4 header without options.
pub const IPV4_HDR_LEN: usize = 20;

/// Length of a TCP header without options.
pub const TCP_HDR_LEN: usize = 20;

/// IPv4 protocol number of TCP.
pub const IPPROTO_TCP: u8 = 6;

/// A parsed inbound segment; the payload borrows from the datagram.
#[derive(Copy, Clone, Debug)]
pub struct Segment<'a> {
    pub src_ip: [u8; 4],
    pub dst_ip: [u8; 4],
    pub src_port: u16,
    pub dst_port: u16,
    pub seq: u32,
    pub ack: u32,
    pub flags: u8,
    pub window: u16,
    pub options: TcpOptions,
    pub payload: &'a [u8],
    /// Congestion notification codepoint of the datagram.
    pub ecn: u8,
}

/// The mathematical content of a segment.
#[verifier::ext_equal]
pub struct SegmentView {
    pub src_ip: Seq<u8>,
    pub dst_ip: Seq<u8>,
    pub src_port: u16,
    pub dst_port: u16,
    pub seq: u32,
    pub ack: u32,
    pub flags: u8,
    pub window: u16,
    pub options: OptionsView,
    pub payload: Seq<u8>,
    pub ecn: u8,
}

impl<'a> View for Segment<'a> {
    type V = SegmentView;

    open spec fn view(&self) -> SegmentView {
        SegmentView {
            src_ip: self.src_ip@,
            dst_ip: self.dst_ip@,
            src_port: self.src_port,
            dst_port: self.dst_port,
            seq: self.seq,
            ack: self.ack,
            flags: self.flags,
            window: self.window,
            options: self.options@,
            payload: self.payload@,
            ecn: self.ecn,
        }
    }
}

impl SegmentView {
    /// Some bit of `flag` is set.
    pub open spec fn has(self, flag: u8) -> bool {
        self.flags & flag != 0
    }
}

impl<'a> Segment<'a> {
    /// Some bit of `flag` is set.
    pub fn has(&self, flag: u8) -> (b: bool)
        ensures
            b == self@.has(flag),
    {
        self.flags & flag != 0
    }
}

/// The pseudo header that the TCP checksum also covers.
pub open spec fn pseudo_header(src: Seq<u8>, dst: Seq<u8>, len: u16) -> Seq<u8> {
    src + dst + seq![0u8, IPPROTO_TCP] + enc16(len)
}

/// `s` with the big-endian number `c` in place of the two bytes at `i`.
pub open spec fn with_u16(s: Seq<u8>, i: int, c: nat) -> Seq<u8> {
    s.update(i, (c / 256) as u8).update(i + 1, (c % 256) as u8)
}

/// The IPv4 header of a datagram of `total` bytes, its checksum zero: no
/// options, not to be fragmented, time to live 64.
pub open spec fn bare_ip_header(g: SegmentView, total: u16, ip_id: u16) -> Seq<u8> {
    seq![0x45u8, (g.ecn % 4) as u8] + enc16(total) + enc16(ip_id) + seq![
        0x40u8,
        0u8,
        64u8,
        IPPROTO_TCP,
        0u8,
        0u8,
    ] + g.src_ip + g.dst_ip
}

/// The TCP header and payload of `g`, the checksum zero.
pub open spec fn bare_tcp(g: SegmentView) -> Seq<u8> {
    enc16(g.src_port) + enc16(g.dst_port) + enc32(g.seq) + enc32(g.ack) + seq![
        ((20 + option_len(g.options)) / 4 * 16) as u8,
        g.flags,
    ] + enc16(g.window) + seq![0u8, 0u8, 0u8, 0u8] + option_bytes(g.options) + g.payload
}

/// Length of the datagram that carries `g`.
pub open spec fn packet_len(g: SegmentView) -> int {
    40 + option_len(g.options) + g.payload.len()
}

/// The IPv4 header of the datagram that carries `g`.
pub open spec fn ip_header(g: SegmentView, ip_id: u16) -> Seq<u8> {
    let bare = bare_ip_header(g, packet_len(g) as u16, ip_id);
    with_u16(bare, 10, checksum_of(word_sum(bare)))
}

/// The TCP part of the datagram that carries `g`.
pub open spec fn tcp_part(g: SegmentView) -> Seq<u8> {
    let bare = bare_tcp(g);
    let pseudo = pseudo_header(g.src_ip, g.dst_ip, (packet_len(g) - 20) as u16);
    with_u16(bare, 16, checksum_of(word_sum(pseudo) + word_sum(bare)))
}

/// The datagram that carries `g`.
pub open spec fn packet(g: SegmentView, ip_id: u16) -> Seq<u8> {
    ip_header(g, ip_id) + tcp_part(g)
}

/// Length of the IPv4 header that starts `b`.
pub open spec fn ip_header_len(b: Seq<u8>) -> int {
    b[0] % 16 * 4
}

/// `b` starts with a sound IPv4 header of an unfragmented TCP datagram that lies
/// within `b`.
pub open spec fn ip_header_ok(b: Seq<u8>) -> bool {
    let ihl = ip_header_len(b);
    let total = be16(b, 2);
    &&& b.len() >= 40
    &&& b[0] / 16 == 4
    &&& ihl >= 20
    &&& ihl + 20 <= total <= b.len()
    &&& checksum_ok(word_sum(b.subrange(0, ihl)))
    &&& be16(b, 6) % 0x4000 == 0
    &&& b[9] == IPPROTO_TCP
}

/// `t` is a sound TCP segment between the two addresses, up to its options.
pub open spec fn tcp_ok(src: Seq<u8>, dst: Seq<u8>, t: Seq<u8>) -> bool {
    &&& 20 <= t[12] / 16 * 4 <= t.len()
    &&& checksum_ok(word_sum(pseudo_header(src, dst, t.len() as u16)) + word_sum(t))
}

/// The segment in the datagram `b`, or `None` when `b` is malformed. Bytes after
/// the datagram's own length are ignored.
pub open spec fn parse_packet(b: Seq<u8>) -> Option<SegmentView> {
    let src = b.subrange(12, 16);
    let dst = b.subrange(16, 20);
    let t = b.subrange(ip_header_len(b), be16(b, 2) as int);
    let doff = t[12] / 16 * 4;
    if !ip_header_ok(b) || !tcp_ok(src, dst, t) {
        None
    } else {
        match options_from(t.subrange(20, doff), 0, no_options()) {
            None => None,
            Some(o) => Some(
                SegmentView {
                    src_ip: src,
                    dst_ip: dst,
                    src_port: be16(t, 0),
                    dst_port: be16(t, 2),
                    seq: be32(t, 4),
                    ack: be32(t, 8),
                    flags: t[13],
                    window: be16(t, 14),
                    options: o,
                    payload: t.subrange(doff, t.len() as int),
                    ecn: (b[1] % 4) as u8,
                },
            ),
        }
    }
}

/// Parses an IPv4 datagram that carries one TCP segment.
pub fn parse(b: &[u8]) -> (r: Result<Segment<'_>, TcpError>)
    ensures
        match parse_packet(b@) {
            Some(g) => r matches Ok(seg) && seg@ == g && seg.options.sack.wf() && g.payload.len()
                <= 0xFFFF,
            None => r == Err::<Segment<'_>, TcpError>(TcpError::MalformedPacket),
        },
{
    if b.len() < IPV4_HDR_LEN + TCP_HDR_LEN || b[0] / 16 != 4 {
        return Err(TcpError::MalformedPacket);
    }
    let ihl: usize = (b[0] % 16) as usize * 4;
    let total: usize = get_u16(b, 2) as usize;
    if ihl < IPV4_HDR_LEN || total < ihl + TCP_HDR_LEN || total > b.len() {
        return Err(TcpError::MalformedPacket);
    }
    let ip_sum: u64 = sum_words(b, 0, ihl, 0);
    if fold(ip_sum) != 0xFFFF || get_u16(b, 6) % 0x4000 != 0 || b[9] != IPPROTO_TCP {
        return Err(TcpError::MalformedPacket);
    }
    let src_ip: [u8; 4] = [b[12], b[13], b[14], b[15]];
    let dst_ip: [u8; 4] = [b[16], b[17], b[18], b[19]];
    let ghost t = b@.subrange(ihl as int, total as int);
    assert(src_ip@ =~= b@.subrange(12, 16));
    assert(dst_ip@ =~= b@.subrange(16, 20));
    assert(t[12] == b@[ihl + 12]);
    let doff: usize = (b[ihl + 12] / 16) as usize * 4;
    if doff < TCP_HDR_LEN || doff > total - ihl {
        return Err(TcpError::MalformedPacket);
    }
    let pseudo: u64 = pseudo_sum(&src_ip, &dst_ip, (total - ihl) as u16);
    let sum: u64 = sum_words(b, ihl, total, pseudo);
    if fold(sum) != 0xFFFF {
        return Err(TcpError::MalformedPacket);
    }
    assert(b@.subrange(ihl + 20, ihl + doff) =~= t.subrange(20, doff as int));
    let options = match TcpOptions::parse(b, ihl + 20, ihl + doff) {
        Some(o) => o,
        None => {
            return Err(TcpError::MalformedPacket);
        },
    };
    let payload = vstd::slice::slice_subrange(b, ihl + doff, total);
    assert(payload@ =~= t.subrange(doff as int, t.len() as int));
    let seg = Segment {
        src_ip,
        dst_ip,
        src_port: get_u16(b, ihl),
        dst_port: get_u16(b, ihl + 2),
        seq: get_u32(b, ihl + 4),
        ack: get_u32(b, ihl + 8),
        flags: b[ihl + 13],
        window: get_u16(b, ihl + 14),
        options,
        payload,
        ecn: b[1] % 4,
    };
    Ok(seg)
}

/// The word sum of the pseudo header.
fn pseudo_sum(src: &[u8; 4], dst: &[u8; 4], len: u16) -> (sum: u64)
    ensures
        sum == word_sum(pseudo_header(src@, dst@, len)),
        sum <= 0x1_0000_0000,
{
    let p: [u8; 12] = [
        src[0],
        src[1],
        src[2],
        src[3],
        dst[0],
        dst[1],
        dst[2],
        dst[3],
        0,
        IPPROTO_TCP,
        (len / 256) as u8,
        (len % 256) as u8,
    ];
    assert(p@.subrange(0, 12) =~= pseudo_header(src@, dst@, len));
    sum_words(p.as_slice(), 0, 12, 0)
}

pub proof fn lemma_bare_lens(g: SegmentView, total: u16, ip_id: u16)
    requires
        g.src_ip.len() == 4,
        g.dst_ip.len() == 4,
    ensures
        bare_ip_header(g, total, ip_id).len() == 20,
        bare_tcp(g).len() == packet_len(g) - 20,
        bare_ip_header(g, total, ip_id)[10] == 0,
        bare_ip_header(g, total, ip_id)[11] == 0,
        bare_tcp(g)[16] == 0,
        bare_tcp(g)[17] == 0,
        packet(g, ip_id).len() == packet_len(g),
{
    lemma_option_len(g.options);
}

proof fn lemma_layout(b: Seq<u8>, ip: Seq<u8>, tcp: Seq<u8>, rest: Seq<u8>)
    requires
        ip.len() + tcp.len() <= b.len(),
        b.take((ip.len() + tcp.len()) as int) == ip + tcp,
        b.skip((ip.len() + tcp.len()) as int) == rest,
    ensures
        b == ip + tcp + rest,
        b.subrange(0, ip.len() as int) == ip,
        b.subrange(ip.len() as int, (ip.len() + tcp.len()) as int) == tcp,
{
    let n = (ip.len() + tcp.len()) as int;
    assert(b =~= b.take(n) + b.skip(n));
    assert(b.subrange(0, ip.len() as int) =~= ip);
    assert(b.subrange(ip.len() as int, n) =~= tcp);
}

proof fn lemma_patch(ip: Seq<u8>, tcp: Seq<u8>, rest: Seq<u8>, c: nat, d: nat)
    requires
        ip.len() == 20,
        tcp.len() >= 20,
    ensures
        with_u16(with_u16(ip + tcp + rest, 10, c), 36, d) == with_u16(ip, 10, c) + with_u16(
            tcp,
            16,
            d,
        ) + rest,
{
    assert(with_u16(with_u16(ip + tcp + rest, 10, c), 36, d) =~= with_u16(ip, 10, c) + with_u16(
        tcp,
        16,
        d,
    ) + rest);
}

/// The segment that [`emit`] is asked to send.
pub open spec fn outbound(
    src_ip: Seq<u8>,
    dst_ip: Seq<u8>,
    src_port: u16,
    dst_port: u16,
    seq: u32,
    ack: u32,
    flags: u8,
    window: u16,
    options: OptionsView,
    payload: Seq<u8>,
    ecn: u8,
) -> SegmentView {
    SegmentView {
        src_ip,
        dst_ip,
        src_port,
        dst_port,
        seq,
        ack,
        flags,
        window,
        options,
        payload,
        ecn,
    }
}

/// What [`emit`] answers for the segment `g` and a buffer of `room` bytes.
pub open spec fn emit_result(g: SegmentView, room: int) -> Result<int, TcpError> {
    if option_len(g.options) > MAX_OPTIONS || packet_len(g) > 0xFFFF {
        Err(TcpError::Overflow)
    } else if packet_len(g) > room {
        Err(TcpError::BufferTooSmall)
    } else {
        Ok(packet_len(g))
    }
}

/// Writes the datagram that carries the given segment to the front of `b` and
/// returns its length. Options that do not fit in a header, or a datagram that
/// its length field cannot express, give `Overflow`; a buffer that is too short
/// gives `BufferTooSmall`.
pub fn emit(
    b: &mut [u8],
    src_ip: [u8; 4],
    dst_ip: [u8; 4],
    src_port: u16,
    dst_port: u16,
    seq: u32,
    ack: u32,
    flags: u8,
    window: u16,
    options: &TcpOptions,
    payload: &[u8],
    ip_id: u16,
    ecn: u8,
) -> (r: Result<usize, TcpError>)
    requires
        options.sack.wf(),
    ensures
        final(b)@.len() == old(b)@.len(),
        ({
            let g = outbound(
                src_ip@,
                dst_ip@,
                src_port,
                dst_port,
                seq,
                ack,
                flags,
                window,
                options@,
                payload@,
                ecn,
            );
            match emit_result(g, old(b)@.len() as int) {
                Ok(n) => r matches Ok(m) && m == n && final(b)@ == packet(g, ip_id) + old(b)@.skip(
                    n,
                ),
                Err(e) => r == Err::<usize, TcpError>(e) && final(b)@ == old(b)@,
            }
        }),
{
    let ghost g = outbound(
        src_ip@,
        dst_ip@,
        src_port,
        dst_port,
        seq,
        ack,
        flags,
        window,
        options@,
        payload@,
        ecn,
    );
    let opt: usize = options.encoded_len();
    if opt > MAX_OPTIONS || payload.len() > 0xFFFF - 40 - opt {
        return Err(TcpError::Overflow);
    }
    let total: usize = 40 + opt + payload.len();
    if total > b.len() {
        return Err(TcpError::BufferTooSmall);
    }
    proof {
        lemma_option_len(options@);
        lemma_bare_lens(g, total as u16, ip_id);
    }
    put_bare_ip_header(b, &src_ip, &dst_ip, total as u16, ip_id, ecn);
    put_bare_tcp(b, src_port, dst_port, seq, ack, flags, window, options, payload);
    let ghost ip = bare_ip_header(g, total as u16, ip_id);
    let ghost tcp = bare_tcp(g);
    let ghost rest = old(b)@.skip(total as int);
    proof {
        assert(b@.take(total as int) == ip + tcp);
        assert(b@.skip(total as int) =~= rest);
        lemma_layout(b@, ip, tcp, rest);
    }
    let ip_sum: u64 = sum_words(b, 0, 20, 0);
    let pseudo: u64 = pseudo_sum(&src_ip, &dst_ip, (total - 20) as u16);
    let tcp_sum: u64 = sum_words(b, 20, total, pseudo);
    let ip_check: u16 = 0xFFFF - fold(ip_sum);
    let tcp_check: u16 = 0xFFFF - fold(tcp_sum);
    b[10] = (ip_check / 256) as u8;
    b[11] = (ip_check % 256) as u8;
    b[36] = (tcp_check / 256) as u8;
    b[37] = (tcp_check % 256) as u8;
    proof {
        lemma_patch(ip, tcp, rest, ip_check as nat, tcp_check as nat);
    }
    Ok(total)
}

/// Writes the IPv4 header, its checksum zero, to the front of `b`.
fn put_bare_ip_header(
    b: &mut [u8],
    src_ip: &[u8; 4],
    dst_ip: &[u8; 4],
    total: u16,
    ip_id: u16,
    ecn: u8,
)
    requires
        old(b)@.len() >= 20,
    ensures
        final(b)@.len() == old(b)@.len(),
        forall|g: SegmentView|
            g.src_ip == src_ip@ && g.dst_ip == dst_ip@ && g.ecn == ecn ==> final(b)@.take(20)
                == #[trigger] bare_ip_header(g, total, ip_id),
        forall|j: int| 20 <= j < final(b)@.len() ==> #[trigger] final(b)@[j] == old(b)@[j],
{
    let i: usize = put_u8(b, 0, 0x45);
    let i: usize = put_u8(b, i, ecn % 4);
    let i: usize = put_u16(b, i, total);
    let i: usize = put_u16(b, i, ip_id);
    let i: usize = put_u8(b, i, 0x40);
    let i: usize = put_u8(b, i, 0);
    let i: usize = put_u8(b, i, 64);
    let i: usize = put_u8(b, i, IPPROTO_TCP);
    let i: usize = put_u8(b, i, 0);
    let i: usize = put_u8(b, i, 0);
    let i: usize = put_slice(b, i, src_ip.as_slice());
    let i: usize = put_slice(b, i, dst_ip.as_slice());
    assert forall|g: SegmentView|
        g.src_ip == src_ip@ && g.dst_ip == dst_ip@ && g.ecn == ecn implies b@.take(20)
        == #[trigger] bare_ip_header(g, total, ip_id) by {
        assert(b@.take(20) =~= bare_ip_header(g, total, ip_id));
    }
}

/// Writes the TCP header, its checksum zero, and the payload behind an IPv4
/// header.
fn put_bare_tcp(
    b: &mut [u8],
    src_port: u16,
    dst_port: u16,
    seq: u32,
    ack: u32,
    flags: u8,
    window: u16,
    options: &TcpOptions,
    payload: &[u8],
)
    requires
        options.sack.wf(),
        option_len(options@) <= MAX_OPTIONS,
        40 + option_len(options@) + payload@.len() <= old(b)@.len(),
    ensures
        final(b)@.len() == old(b)@.len(),
        final(b)@.take(20) == old(b)@.take(20),
        forall|src: Seq<u8>, dst: Seq<u8>, ecn: u8|
            ({
                let g = #[trigger] outbound(
                    src,
                    dst,
                    src_port,
                    dst_port,
                    seq,
                    ack,
                    flags,
                    window,
                    options@,
                    payload@,
                    ecn,
                );
                final(b)@.take(packet_len(g)) == old(b)@.take(20) + bare_tcp(g)
            }),
        forall|j: int|
            40 + option_len(options@) + payload@.len() <= j < final(b)@.len()
                ==> #[trigger] final(b)@[j] == old(b)@[j],
{
    let ghost start = b@.take(20);
    let i: usize = put_u16(b, 20, src_port);
    let i: usize = put_u16(b, i, dst_port);
    let i: usize = put_u32(b, i, seq);
    let i: usize = put_u32(b, i, ack);
    let i: usize = put_u8(b, i, ((20 + options.encoded_len()) / 4 * 16) as u8);
    let i: usize = put_u8(b, i, flags);
    let i: usize = put_u16(b, i, window);
    let i: usize = put_u16(b, i, 0);
    let i: usize = put_u16(b, i, 0);
    let ghost fixed = enc16(src_port) + enc16(dst_port) + enc32(seq) + enc32(ack) + seq![
        ((20 + option_len(options@)) / 4 * 16) as u8,
        flags,
    ] + enc16(window) + seq![0u8, 0u8, 0u8, 0u8];
    assert(b@.take(40) =~= start + fixed);
    let i: usize = options.emit_at(b, i);
    let i: usize = put_slice(b, i, payload);
    proof {
        assert(start + fixed + option_bytes(options@) + payload@ =~= start + (fixed + option_bytes(
            options@,
        ) + payload@));
        assert(b@.take(20) =~= b@.take(i as int).take(20));
        assert(b@.take(20) =~= start);
    }
}

proof fn lemma_ip_header_fields(g: SegmentView, ip_id: u16)
    requires
        g.src_ip.len() == 4,
        g.dst_ip.len() == 4,
        0 <= packet_len(g) <= 0xFFFF,
    ensures
        ({
            let h = ip_header(g, ip_id);
            &&& h.len() == 20
            &&& h[0] == 0x45
            &&& h[1] == g.ecn % 4
            &&& be16(h, 2) == packet_len(g)
            &&& be16(h, 6) == 0x4000
            &&& h[9] == IPPROTO_TCP
            &&& h.subrange(12, 16) == g.src_ip
            &&& h.subrange(16, 20) == g.dst_ip
            &&& checksum_ok(word_sum(h))
        }),
{
    let h = ip_header(g, ip_id);
    let total = packet_len(g) as u16;
    let bare = bare_ip_header(g, total, ip_id);
    lemma_bare_lens(g, total, ip_id);
    let c = checksum_of(word_sum(bare));
    lemma_ones_sum_bound(word_sum(bare));
    assert((c / 256) * 256 + c % 256 == c);
    lemma_store_checksum(bare, 10, 0, (c / 256) as u8, (c % 256) as u8);
    assert(h.subrange(2, 4) =~= enc16(total));
    lemma_be16_enc16(h, 2, total);
    assert(h.subrange(6, 8) =~= enc16(0x4000));
    lemma_be16_enc16(h, 6, 0x4000);
    assert(h.subrange(12, 16) =~= g.src_ip);
    assert(h.subrange(16, 20) =~= g.dst_ip);
}

#[verifier::rlimit(30)]

proof fn lemma_tcp_part_fields(g: SegmentView)
    requires
        g.src_ip.len() == 4,
        g.dst_ip.len() == 4,
        packet_len(g) <= 0xFFFF,
        option_len(g.options) <= MAX_OPTIONS,
    ensures
        ({
            let t = tcp_part(g);
            let doff = 20 + option_len(g.options);
            &&& t.len() == packet_len(g) - 20
            &&& be16(t, 0) == g.src_port
            &&& be16(t, 2) == g.dst_port
            &&& be32(t, 4) == g.seq
            &&& be32(t, 8) == g.ack
            &&& t[12] / 16 * 4 == doff
            &&& t[13] == g.flags
            &&& be16(t, 14) == g.window
            &&& t.subrange(20, doff) == option_bytes(g.options)
            &&& t.subrange(doff, t.len() as int) == g.payload
            &&& checksum_ok(
                word_sum(pseudo_header(g.src_ip, g.dst_ip, t.len() as u16)) + word_sum(t),
            )
        }),
{
    let t = tcp_part(g);
    let bare = bare_tcp(g);
    let o = option_bytes(g.options);
    lemma_option_len(g.options);
    lemma_bare_lens(g, 0, 0);
    let before = word_sum(pseudo_header(g.src_ip, g.dst_ip, (packet_len(g) - 20) as u16));
    let c = checksum_of(before + word_sum(bare));
    lemma_ones_sum_bound(before + word_sum(bare));
    assert((c / 256) * 256 + c % 256 == c);
    lemma_store_checksum(bare, 16, before, (c / 256) as u8, (c % 256) as u8);
    let fixed = enc16(g.src_port) + enc16(g.dst_port) + enc32(g.seq) + enc32(g.ack) + seq![
        ((20 + option_len(g.options)) / 4 * 16) as u8,
        g.flags,
    ] + enc16(g.window) + seq![0u8, 0u8, 0u8, 0u8];
    assert(bare == fixed + o + g.payload);
    lemma_tail_of_patch(fixed, o, g.payload, c);
    assert(t.take(16) == fixed.take(16));
    assert(t.subrange(0, 2) =~= fixed.take(16).subrange(0, 2));
    assert(fixed.take(16).subrange(0, 2) =~= enc16(g.src_port));
    lemma_be16_enc16(t, 0, g.src_port);
    assert(t.subrange(2, 4) =~= fixed.take(16).subrange(2, 4));
    assert(fixed.take(16).subrange(2, 4) =~= enc16(g.dst_port));
    lemma_be16_enc16(t, 2, g.dst_port);
    assert(t.subrange(4, 8) =~= fixed.take(16).subrange(4, 8));
    assert(fixed.take(16).subrange(4, 8) =~= enc32(g.seq));
    lemma_be32_enc32(t, 4, g.seq);
    assert(t.subrange(8, 12) =~= fixed.take(16).subrange(8, 12));
    assert(fixed.take(16).subrange(8, 12) =~= enc32(g.ack));
    lemma_be32_enc32(t, 8, g.ack);
    assert(t[12] == t.take(16)[12] && t[13] == t.take(16)[13]);
    assert(t.subrange(14, 16) =~= fixed.take(16).subrange(14, 16));
    assert(fixed.take(16).subrange(14, 16) =~= enc16(g.window));
    lemma_be16_enc16(t, 14, g.window);
}

proof fn lemma_tail_of_patch(fixed: Seq<u8>, o: Seq<u8>, payload: Seq<u8>, c: nat)
    requires
        fixed.len() == 20,
    ensures
        ({
            let t = with_u16(fixed + o + payload, 16, c);
            &&& t.len() == 20 + o.len() + payload.len()
            &&& t.take(16) == fixed.take(16)
            &&& t.subrange(20, (20 + o.len()) as int) == o
            &&& t.subrange((20 + o.len()) as int, t.len() as int) == payload
        }),
{
    let t = with_u16(fixed + o + payload, 16, c);
    assert(t.take(16) =~= fixed.take(16));
    assert(t.subrange(20, (20 + o.len()) as int) =~= o);
    assert(t.subrange((20 + o.len()) as int, t.len() as int) =~= payload);
}

/// What a datagram that was emitted for `g` parses to: `g` itself, its window
/// scale and codepoint brought into their ranges.
pub open spec fn on_the_wire(g: SegmentView) -> SegmentView {
    SegmentView { options: wire_options(g.options), ecn: (g.ecn % 4) as u8, ..g }
}

/// Parsing undoes emitting: the datagram that [`emit`] writes for a segment
/// parses back to that segment, whatever follows it in the buffer.
pub proof fn law_emit_then_parse_round_trip(g: SegmentView, ip_id: u16, rest: Seq<u8>)
    requires
        g.src_ip.len() == 4,
        g.dst_ip.len() == 4,
        g.options.sack.len() <= 4,
        emit_result(g, packet_len(g)) is Ok,
    ensures
        parse_packet(packet(g, ip_id) + rest) == Some(on_the_wire(g)),
{
    let h = ip_header(g, ip_id);
    let t = tcp_part(g);
    let b = packet(g, ip_id) + rest;
    let n = packet_len(g);
    lemma_option_len(g.options);
    lemma_ip_header_fields(g, ip_id);
    lemma_tcp_part_fields(g);
    assert(b.subrange(0, 20) =~= h);
    assert(b[0] == h[0] && b[1] == h[1] && b[2] == h[2] && b[3] == h[3] && b[6] == h[6] && b[7]
        == h[7] && b[9] == h[9]);
    assert(b.subrange(12, 16) =~= h.subrange(12, 16));
    assert(b.subrange(16, 20) =~= h.subrange(16, 20));
    assert(b.subrange(20, n) =~= t);
    assert(ip_header_len(b) == 20);
    assert(be16(b, 2) == n);
    assert(ip_header_ok(b));
    assert(tcp_ok(g.src_ip, g.dst_ip, t));
    law_options_round_trip(g.options);
    assert(parse_packet(b)->0 =~= on_the_wire(g));
}

proof fn lemma_parsed_options_fit(s: Seq<u8>, i: int, o: OptionsView)
    requires
        0 <= i,
        o.sack.len() <= 4,
        o.wscale matches Some(w) ==> w <= 14,
    ensures
        options_from(s, i, o) matches Some(r) ==> {
            &&& raw_option_len(r) <= raw_option_len(o) + if i <= s.len() {
                s.len() - i
            } else {
                0
            }
            &&& r.sack.len() <= 4
            &&& r.wscale matches Some(w) ==> w <= 14
        },
    decreases s.len() - i,
{
    if i >= s.len() || s[i] == 0 {
    } else if s[i] == 1 {
        lemma_parsed_options_fit(s, i + 1, o);
    } else if i + 1 >= s.len() || s[i + 1] < 2 || i + s[i + 1] > s.len() {
    } else {
        lemma_parsed_options_fit(
            s,
            i + s[i + 1],
            options::absorb_option(o, s, i, s[i + 1] as int),
        );
    }
}

proof fn lemma_parsed_segment_fits(b: Seq<u8>)
    requires
        parse_packet(b) is Some,
    ensures
        ({
            let g = parse_packet(b)->0;
            &&& g.src_ip.len() == 4
            &&& g.dst_ip.len() == 4
            &&& g.options.sack.len() <= 4
            &&& option_len(g.options) <= MAX_OPTIONS
            &&& packet_len(g) <= be16(b, 2) <= b.len()
            &&& on_the_wire(g) == g
        }),
{
    let g = parse_packet(b)->0;
    let ihl = ip_header_len(b);
    let t = b.subrange(ihl, be16(b, 2) as int);
    let doff = t[12] / 16 * 4;
    assert(ip_header_ok(b));
    let s = t.subrange(20, doff);
    assert(s.len() == doff - 20);
    lemma_parsed_options_fit(s, 0, no_options());
    assert(options_from(s, 0, no_options()) == Some(g.options));
    assert(raw_option_len(no_options()) == 0);
    let r = raw_option_len(g.options);
    assert(r <= doff - 20);
    assert((r + 3) / 4 * 4 <= doff - 20) by {
        assert((doff - 20) % 4 == 0);
    }
    assert(wire_options(g.options) =~= g.options);
    assert(on_the_wire(g) =~= g);
}

/// Every datagram that parses can be emitted again from the segment found in it,
/// and the new datagram parses to the same segment.
pub proof fn law_parse_then_emit_round_trip(b: Seq<u8>, ip_id: u16)
    requires
        parse_packet(b) is Some,
    ensures
        ({
            let g = parse_packet(b)->0;
            &&& emit_result(g, b.len() as int) is Ok
            &&& parse_packet(packet(g, ip_id)) == Some(g)
        }),
{
    let g = parse_packet(b)->0;
    lemma_parsed_segment_fits(b);
    law_emit_then_parse_round_trip(g, ip_id, Seq::empty());
    assert(packet(g, ip_id) + Seq::<u8>::empty() =~= packet(g, ip_id));
}

/// A single flipped bit never goes unnoticed: change any one bit of a datagram
/// that parses, and what is left does not parse. Of bits 0 to 3 of the first byte,
/// which hold the header's length, those are left out that give a length which a header
/// can have, and so move the checksums' ranges: of a header without options bits 1
/// and 3.
#[verifier::rlimit(30)]
pub proof fn law_single_bit_corruption_is_detected(b: Seq<u8>, at: int, bit: u8)
    requires
        parse_packet(b) is Some,
        0 <= at < be16(b, 2),
        bit < 8,
        at == 0 && bit < 4 ==> ip_header_len(b.update(0, b[0] ^ (1u8 << bit))) < 20
            || ip_header_len(b) == 20 && (bit == 0 || bit == 2),
    ensures
        parse_packet(b.update(at, b[at] ^ (1u8 << bit))) is None,
{
    let v = b[at] ^ (1u8 << bit);
    let c = b.update(at, v);
    let old_v = b[at];
    assert(old_v ^ (1u8 << bit) != old_v) by (bit_vector)
        requires
            bit < 8,
    ;
    if at == 0 && bit < 4 {
        if ip_header_len(b) == 20 && (bit == 0 || bit == 2) {
            assert((old_v ^ (1u8 << bit)) % 16 < 5) by (bit_vector)
                requires
                    bit == 0 || bit == 2,
                    old_v % 16 == 5,
            ;
        }
        assert(!ip_header_ok(c));
    } else if at == 0 {
        assert((old_v ^ (1u8 << bit)) / 16 != 4) by (bit_vector)
            requires
                bit < 8,
                bit >= 4,
                old_v / 16 == 4,
        ;
    } else {
        let ihl = ip_header_len(b);
        if at < ihl {
            let h = b.subrange(0, ihl);
            assert(c.subrange(0, ihl) =~= h.update(at, v));
            lemma_word_sum_update(h, at, v);
            lemma_small_change_spoils(word_sum(h), word_sum(h.update(at, v)));
            assert(!ip_header_ok(c));
        } else {
            let total = be16(b, 2) as int;
            let t = b.subrange(ihl, total);
            let src = b.subrange(12, 16);
            let dst = b.subrange(16, 20);
            assert(c.subrange(ihl, total) =~= t.update(at - ihl, v));
            assert(c.subrange(12, 16) =~= src);
            assert(c.subrange(16, 20) =~= dst);
            let before = word_sum(pseudo_header(src, dst, t.len() as u16));
            lemma_word_sum_update(t, at - ihl, v);
            lemma_small_change_spoils(
                before + word_sum(t),
                before + word_sum(t.update(at - ihl, v)),
            );
            assert(!tcp_ok(src, dst, t.update(at - ihl, v)));
        }
    }
}

} // verus!
