//! SYN cookies: a listener keeps nothing of a SYN, and knows its own cookie again.

use crate::tcb::cookie::{
    cookie_from, cookie_index, cookie_message, law_cookie_carries_index, law_cookie_mss_rounds_down,
    COOKIE_INDEX_UNIT,
};
use crate::tcb::model::{
    cookie, cookie_bucket, cookie_restored, cookie_segment, emit_cookie, offered_mss, on_listen,
    returns_cookie, tx_full, TcbView,
};
use crate::tcb::DEFAULT_PEER_MSS;
use crate::wire::{flags, law_emit_then_parse_round_trip, packet, parse_packet, SegmentView};
use vstd::prelude::*;

verus! {

/// Answering a SYN with a cookie changes nothing but the packets that wait and
/// their numbering.
pub proof fn law_cookie_keeps_no_state(s: TcbView, g: SegmentView)
    requires
        s.cookie_secret_set,
        g.has(flags::SYN) && !g.has(flags::ACK),
    ensures
        on_listen(s, g) == (TcbView {
            tx: on_listen(s, g).tx,
            ip_id: on_listen(s, g).ip_id,
            ..s
        }),
{
    reveal(on_listen);
    reveal(emit_cookie);
}

/// A listener accepts the cookie that it made for a SYN, from the same peer, in the
/// same time bucket and in the next. Here `s` is the listener when it answered the
/// SYN `g`, and `t` is the same listener when the acknowledgement `a` comes.
pub proof fn law_cookie_is_accepted(s: TcbView, t: TcbView, g: SegmentView, a: SegmentView)
    requires
        t.cookie_secret == s.cookie_secret,
        t.local == s.local,
        a.src_ip == g.src_ip,
        a.src_port == g.src_port,
        a.seq == g.seq.wrapping_add(1),
        a.ack == cookie_segment(s, g).seq.wrapping_add(1),
        cookie_bucket(t) == cookie_bucket(s) || cookie_bucket(t) == cookie_bucket(s) + 1,
    ensures
        returns_cookie(t, a),
{
    reveal(cookie_segment);
    reveal(returns_cookie);
    reveal(cookie);
    let idx = cookie_index(offered_mss(g, DEFAULT_PEER_MSS));
    let c = cookie(s, cookie_bucket(s), g.src_ip, g.src_port, idx, g.seq);
    law_cookie_mss_rounds_down(offered_mss(g, DEFAULT_PEER_MSS));
    assert(cookie_segment(s, g).seq == c);
    assert(a.ack.wrapping_sub(1) == c);
    assert(a.seq.wrapping_sub(1) == g.seq);
    assert(c / COOKIE_INDEX_UNIT == idx) by {
        law_cookie_carries_index(
            s.cookie_secret,
            crate::tcb::cookie::cookie_message(
                cookie_bucket(s),
                g.src_ip,
                g.src_port,
                s.local.ip,
                s.local.port,
                g.seq,
                idx,
            ),
            idx,
        );
    }
    assert((c / COOKIE_INDEX_UNIT) as u8 == idx);
}

/// The segment size that a returned cookie restores is no more than what the peer
/// had offered, and at least the default.
pub proof fn law_cookie_restores_mss(s: TcbView, g: SegmentView, a: SegmentView)
    requires
        a.ack == cookie_segment(s, g).seq.wrapping_add(1),
    ensures
        DEFAULT_PEER_MSS <= cookie_restored(s, a).peer_mss <= offered_mss(g, DEFAULT_PEER_MSS),
{
    reveal(cookie_segment);
    reveal(cookie_restored);
    reveal(cookie);
    let idx = cookie_index(offered_mss(g, DEFAULT_PEER_MSS));
    let c = cookie(s, cookie_bucket(s), g.src_ip, g.src_port, idx, g.seq);
    law_cookie_mss_rounds_down(offered_mss(g, DEFAULT_PEER_MSS));
    assert(a.ack.wrapping_sub(1) == c);
    assert(c / COOKIE_INDEX_UNIT == idx) by {
        law_cookie_carries_index(
            s.cookie_secret,
            crate::tcb::cookie::cookie_message(
                cookie_bucket(s),
                g.src_ip,
                g.src_port,
                s.local.ip,
                s.local.port,
                g.seq,
                idx,
            ),
            idx,
        );
    }
    assert((c / COOKIE_INDEX_UNIT) as u8 == idx);
}

/// Only a cookie of ours is accepted, one that was made for the same peer and the SYN before
/// the acknowledgement, under the same key and for the segment size that it carries, in this
/// time bucket or the one before.
pub proof fn law_only_our_cookies_are_accepted(t: TcbView, a: SegmentView)
    requires
        t.now_ms >= 64_000,
    ensures
        returns_cookie(t, a) <==> exists|bucket: u64|
            (bucket == t.now_ms / 64_000 || bucket + 1 == t.now_ms / 64_000)
                && #[trigger] vouches(t, a, bucket),
{
    reveal(returns_cookie);
    reveal(cookie);
    let now = t.now_ms / 64_000;
    if returns_cookie(t, a) {
        assert(vouches(t, a, now) || vouches(t, a, (now - 1) as u64));
    }
}

/// The acknowledgement `a` returns the cookie that was made in `bucket` for the SYN before it.
pub open spec fn vouches(t: TcbView, a: SegmentView, bucket: u64) -> bool {
    let c = a.ack.wrapping_sub(1);
    let idx = (c / 0x2000_0000) as u8;
    c == cookie_from(
        t.cookie_secret,
        cookie_message(
            bucket,
            a.src_ip,
            a.src_port,
            t.local.ip,
            t.local.port,
            a.seq.wrapping_sub(1),
            idx,
        ),
        idx,
    )
}

/// A cookie is good for at least 64 seconds and for less than twice that: the time that has
/// passed puts the acknowledgement into the same or the next bucket, or beyond.
pub proof fn law_cookie_lives_a_minute(s: TcbView, t: TcbView)
    requires
        s.now_ms <= t.now_ms,
    ensures
        t.now_ms - s.now_ms <= 64_000 ==> cookie_bucket(t) == cookie_bucket(s) || cookie_bucket(t)
            == cookie_bucket(s) + 1,
        t.now_ms - s.now_ms >= 128_000 ==> cookie_bucket(t) > cookie_bucket(s) + 1,
{
}

/// An acknowledgement that returns no cookie is not answered, and the listener stays as it is.
pub proof fn law_forged_cookie_is_ignored(s: TcbView, g: SegmentView)
    requires
        !g.has(flags::SYN),
        !returns_cookie(s, g),
    ensures
        on_listen(s, g) == s,
{
    reveal(on_listen);
}

/// With cookies a SYN is answered by a SYN-ACK that carries a cookie as its sequence number,
/// and that neither offers scaled windows nor permits selective acknowledgement, since no note
/// of them is kept.
pub proof fn law_syn_is_answered_with_a_cookie(s: TcbView, g: SegmentView)
    requires
        s.cookie_secret_set,
        s.local.ip.len() == 4,
        g.src_ip.len() == 4,
        g.has(flags::SYN) && !g.has(flags::ACK),
        !tx_full(s),
    ensures
        ({
            let t = on_listen(s, g);
            &&& t.tx.len() == s.tx.len() + 1
            &&& parse_packet(t.tx.last()) matches Some(h)
            &&& h.has(flags::SYN) && h.has(flags::ACK) && !h.has(flags::ECE) && !h.has(flags::RST)
            &&& h.ack == g.seq.wrapping_add(1) && h.payload.len() == 0
            &&& h.dst_ip == g.src_ip && h.dst_port == g.src_port
            &&& h.options.mss == Some(s.local_mss)
            &&& h.options.wscale is None && !h.options.sack_permitted
            &&& h.options.ts is Some <==> g.options.ts is Some
            &&& returns_cookie(s, SegmentView { seq: h.ack, ack: h.seq.wrapping_add(1), ..g })
        }),
{
    reveal(on_listen);
    reveal(emit_cookie);
    let c = cookie_segment(s, g);
    let a = SegmentView { seq: g.seq.wrapping_add(1), ack: c.seq.wrapping_add(1), ..g };
    law_cookie_is_accepted(s, s, g, a);
    reveal(cookie_segment);
    lemma_cookie_bits();
    law_emit_then_parse_round_trip(c, s.ip_id, Seq::empty());
    assert(packet(c, s.ip_id) + Seq::<u8>::empty() =~= packet(c, s.ip_id));
}

proof fn lemma_cookie_bits()
    by (bit_vector)
    ensures
        (0x02u8 | 0x10u8) & 0x02u8 != 0 && (0x02u8 | 0x10u8) & 0x10u8 != 0,
        (0x02u8 | 0x10u8) & 0x40u8 == 0 && (0x02u8 | 0x10u8) & 0x04u8 == 0,
{
}

} // verus!
