//! Laws of where on the wire the parts of a segment stand.

use crate::wire::bytes::{be16, be32};
use crate::wire::checksum::{checksum_ok, word_sum};
use crate::wire::options::{blocks_at, options_from, OptionsView};
use crate::wire::{ip_header_len, ip_header_ok, parse_packet};
use vstd::prelude::*;

verus! {

/// Numbers stand in network order at the places that IPv4 and TCP give them: here for a
/// datagram whose IPv4 header has no options. The payload is what follows the TCP header, up
/// to the datagram's length.
pub proof fn law_fields_stand_in_network_order(b: Seq<u8>)
    requires
        parse_packet(b) is Some,
        b[0] == 0x45,
    ensures
        ({
            let g = parse_packet(b)->0;
            let total = b[2] * 256 + b[3];
            let doff = b[32] / 16 * 4;
            &&& 40 <= 20 + doff <= total <= b.len() && b[9] == 6
            &&& g.ecn == b[1] % 4
            &&& g.src_ip == seq![b[12], b[13], b[14], b[15]]
            &&& g.dst_ip == seq![b[16], b[17], b[18], b[19]]
            &&& g.src_port == b[20] * 256 + b[21]
            &&& g.dst_port == b[22] * 256 + b[23]
            &&& g.seq == b[24] * 0x100_0000 + b[25] * 0x1_0000 + b[26] * 0x100 + b[27]
            &&& g.ack == b[28] * 0x100_0000 + b[29] * 0x1_0000 + b[30] * 0x100 + b[31]
            &&& g.flags == b[33]
            &&& g.window == b[34] * 256 + b[35]
            &&& g.payload == b.subrange(20 + doff, total)
        }),
{
    assert(ip_header_len(b) == 20);
    assert(ip_header_ok(b));
    let t = b.subrange(20, be16(b, 2) as int);
    assert(b.subrange(12, 16) =~= seq![b[12], b[13], b[14], b[15]]);
    assert(b.subrange(16, 20) =~= seq![b[16], b[17], b[18], b[19]]);
    assert(t[0] == b[20] && t[1] == b[21] && t[2] == b[22] && t[3] == b[23]);
    assert(t[4] == b[24] && t[5] == b[25] && t[6] == b[26] && t[7] == b[27]);
    assert(t[8] == b[28] && t[9] == b[29] && t[10] == b[30] && t[11] == b[31]);
    assert(t[12] == b[32] && t[13] == b[33] && t[14] == b[34] && t[15] == b[35]);
    let doff = b[32] / 16 * 4;
    assert(t.subrange(doff, t.len() as int) =~= b.subrange(20 + doff, be16(b, 2) as int));
}

/// The checksum of the IPv4 header is the Internet checksum: the ten words of a header without
/// options add up to a multiple of 65535, and not to zero.
pub proof fn law_header_words_cancel(b: Seq<u8>)
    requires
        parse_packet(b) is Some,
        b[0] == 0x45,
    ensures
        ({
            let sum = (b[0] * 256 + b[1]) + (b[2] * 256 + b[3]) + (b[4] * 256 + b[5]) + (b[6] * 256
                + b[7]) + (b[8] * 256 + b[9]) + (b[10] * 256 + b[11]) + (b[12] * 256 + b[13]) + (
            b[14] * 256 + b[15]) + (b[16] * 256 + b[17]) + (b[18] * 256 + b[19]);
            sum > 0 && sum % 65535 == 0
        }),
{
    assert(ip_header_len(b) == 20);
    assert(ip_header_ok(b));
    lemma_header_sum(b.subrange(0, 20));
    lemma_good_sum(word_sum(b.subrange(0, 20)));
}

proof fn lemma_header_sum(h: Seq<u8>)
    requires
        h.len() == 20,
    ensures
        word_sum(h) == (h[0] * 256 + h[1]) + (h[2] * 256 + h[3]) + (h[4] * 256 + h[5]) + (h[6] * 256
            + h[7]) + (h[8] * 256 + h[9]) + (h[10] * 256 + h[11]) + (h[12] * 256 + h[13]) + (h[14]
            * 256 + h[15]) + (h[16] * 256 + h[17]) + (h[18] * 256 + h[19]),
{
    assert(h.skip(0) =~= h);
    lemma_words_from(h, 0);
    lemma_words_from(h, 2);
    lemma_words_from(h, 4);
    lemma_words_from(h, 6);
    lemma_words_from(h, 8);
    lemma_words_from(h, 10);
    lemma_words_from(h, 12);
    lemma_words_from(h, 14);
    lemma_words_from(h, 16);
    lemma_words_from(h, 18);
    assert(word_sum(h.skip(20)) == 0);
}

proof fn lemma_words_from(h: Seq<u8>, i: int)
    requires
        0 <= i,
        i + 2 <= h.len(),
    ensures
        word_sum(h.skip(i)) == h[i] * 256 + h[i + 1] + word_sum(h.skip(i + 2)),
{
    assert(h.skip(i).skip(2) =~= h.skip(i + 2));
}

proof fn lemma_good_sum(n: nat)
    requires
        checksum_ok(n),
    ensures
        n > 0 && n % 65535 == 0,
{
    assert((n - 1) % 65535 == 65534);
}

/// Options are told apart by their kinds: 2 is the maximum segment size, 3 the window scale,
/// 4 permits selective acknowledgement, 5 holds its blocks, here one, and 8 the timestamps; 1 fills up
/// and 0 ends the list. An option of another kind is passed over by its length.
pub proof fn law_options_are_told_by_their_kinds(s: Seq<u8>, i: int, o: OptionsView)
    requires
        0 <= i < s.len(),
    ensures
        s[i] == 0 ==> options_from(s, i, o) == Some(o),
        s[i] == 1 ==> options_from(s, i, o) == options_from(s, i + 1, o),
        s[i] == 2 && i + 4 <= s.len() && s[i + 1] == 4 ==> options_from(s, i, o) == options_from(
            s,
            i + 4,
            OptionsView { mss: Some((s[i + 2] * 256 + s[i + 3]) as u16), ..o },
        ),
        s[i] == 3 && i + 3 <= s.len() && s[i + 1] == 3 ==> options_from(s, i, o) == options_from(
            s,
            i + 3,
            OptionsView {
                wscale: Some(
                    if s[i + 2] <= 14 {
                        s[i + 2]
                    } else {
                        14
                    },
                ),
                ..o
            },
        ),
        s[i] == 4 && i + 2 <= s.len() && s[i + 1] == 2 ==> options_from(s, i, o) == options_from(
            s,
            i + 2,
            OptionsView { sack_permitted: true, ..o },
        ),
        s[i] == 8 && i + 10 <= s.len() && s[i + 1] == 10 ==> options_from(s, i, o) == options_from(
            s,
            i + 10,
            OptionsView {
                ts: Some(
                    (
                        (s[i + 2] * 0x100_0000 + s[i + 3] * 0x1_0000 + s[i + 4] * 0x100 + s[i
                            + 5]) as u32,
                        (s[i + 6] * 0x100_0000 + s[i + 7] * 0x1_0000 + s[i + 8] * 0x100 + s[i
                            + 9]) as u32,
                    ),
                ),
                ..o
            },
        ),
        s[i] == 5 && i + 10 <= s.len() && s[i + 1] == 10 ==> options_from(s, i, o) == options_from(
            s,
            i + 10,
            OptionsView {
                sack: seq![
                    (
                        (s[i + 2] * 0x100_0000 + s[i + 3] * 0x1_0000 + s[i + 4] * 0x100 + s[i
                            + 5]) as u32,
                        (s[i + 6] * 0x100_0000 + s[i + 7] * 0x1_0000 + s[i + 8] * 0x100 + s[i
                            + 9]) as u32,
                    ),
                ],
                ..o
            },
        ),
        s[i] > 8 && i + 2 <= s.len() && s[i + 1] >= 2 && i + s[i + 1] <= s.len() ==> options_from(
            s,
            i,
            o,
        ) == options_from(s, i + s[i + 1], o),
{
    if s[i] == 5 && i + 10 <= s.len() && s[i + 1] == 10 {
        assert(blocks_at(s, i + 2, 1) =~= seq![(be32(s, i + 2), be32(s, i + 6))]);
    }
}

} // verus!
