//! What the application writes goes out unchanged: every packet that waits for the
//! host is a sound datagram from our side, and the bytes in it are the written
//! stream's.

use crate::send_queue::highest_open;
use crate::state::State;
use crate::tcb::laws::sending::{lemma_emit_send, lemma_send_one_sound};
use crate::tcb::laws::soundness::{outstanding, sound};
use crate::tcb::laws::stream::Stream;
use crate::tcb::model::{
    ack_sent, arm_persist, arm_rto, arm_rto_if_idle, arm_tlp, begin_recovery, buffered, bump_max,
    can_retransmit, charged, data_opts, datagram_out, emit, emit_again, emit_fin, emit_new,
    feedback, fin_due, fin_placed, fire_tlp, flight, lost_queued, lost_taken, lost_target,
    may_transmit, nxt_moved, payload_mss, pure_ack, rack_scan, recovering, recovery_left,
    recovery_target, reo_updated, retransmit, ring_bytes, rto_kept, rxt_noted, segment_out,
    send_data, send_fresh, send_lost, send_one, send_recovery, send_some, sendable, syn_opts,
    synack_opts, tlp_disarmed, tlp_spent, tlp_target, tx_full, unsent, TcbView,
};
use crate::tx_ring::TX_RING_CAP;
use crate::wire::options::{no_options, option_len, OptionsView, MAX_OPTIONS};
use crate::wire::{flags, law_emit_then_parse_round_trip, packet, parse_packet};
use crate::MSS;
use vstd::prelude::*;

verus! {

/// The connection has a peer.
pub open spec fn has_peer(st: State) -> bool {
    !(st is Listen || st is Closed)
}

/// `b` is a datagram from our side, to the peer if there is one, that carries a
/// segment of the stream `f`.
pub open spec fn ours(s: TcbView, b: Seq<u8>, f: Stream) -> bool {
    &&& parse_packet(b) matches Some(g)
    &&& g.src_ip == s.local.ip && g.src_port == s.local.port
    &&& has_peer(s.state) ==> g.dst_ip == s.remote.ip && g.dst_port == s.remote.port
    &&& f.carries(g)
}

/// The application has closed its side.
pub open spec fn write_done(st: State) -> bool {
    st is FinWait1 || st is Closing || st is LastAck
}

/// Behind the last byte that the application has written.
pub open spec fn tail(s: TcbView) -> u32 {
    s.snd_una.wrapping_add(s.send_ring.len() as u32)
}

/// The stream `f` starts with the SYN of `s`, if its SYN is known: it is not a cookie.
pub open spec fn starts(s: TcbView, f: Stream) -> bool {
    f.syn matches Some(x) ==> s.iss == x && !s.cookie_secret_set
}

/// What is buffered is the part of the written stream `f` from the oldest
/// unacknowledged byte on, and every packet that waits for the host carries a
/// segment of that stream.
pub open spec fn written(s: TcbView, f: Stream) -> bool {
    &&& s.local.ip.len() == 4
    &&& s.remote.ip.len() == 4
    &&& s.local_mss <= MSS
    &&& starts(s, f)
    &&& f.agrees(s.snd_una, s.send_ring)
    &&& s.fin_sent ==> s.fin_seq == f.end
    &&& write_done(s.state) && !s.fin_sent ==> tail(s) == f.end
    &&& forall|k: int| 0 <= k < s.tx.len() ==> ours(s, #[trigger] s.tx[k], f)
}

/// The options fit a header.
pub open spec fn options_fit(o: OptionsView) -> bool {
    o.sack.len() <= 4 && option_len(o) <= MAX_OPTIONS
}

pub proof fn lemma_options_fit(s: TcbView)
    ensures
        options_fit(data_opts(s)),
        options_fit(syn_opts(s)),
        options_fit(synack_opts(s)),
        options_fit(no_options()),
{
    reveal(data_opts);
    reveal(syn_opts);
    reveal(synack_opts);
}

proof fn lemma_feedback_fin(s: TcbView, bits: u8, payload: Seq<u8>)
    ensures
        feedback(s, bits, payload) & flags::FIN == bits & flags::FIN,
        feedback(s, bits, payload) & flags::SYN == bits & flags::SYN,
{
    reveal(feedback);
    assert((bits | 0x40u8) & 0x02u8 == bits & 0x02u8 && ((bits | 0x40u8) | 0x80u8) & 0x02u8 == bits
        & 0x02u8 && (bits | 0x80u8) & 0x02u8 == bits & 0x02u8) by (bit_vector);
    assert((bits | 0x40u8) & 0x01u8 == bits & 0x01u8 && ((bits | 0x40u8) | 0x80u8) & 0x01u8 == bits
        & 0x01u8 && (bits | 0x80u8) & 0x01u8 == bits & 0x01u8) by (bit_vector);
}

/// Staging a segment of the stream keeps [`written`].
pub proof fn lemma_emit_written(
    s: TcbView,
    bits: u8,
    seq: u32,
    ack: u32,
    opts: OptionsView,
    payload: Seq<u8>,
    f: Stream,
)
    requires
        written(s, f),
        options_fit(opts),
        payload.len() <= MSS,
        f.agrees(seq, payload),
        bits & flags::FIN != 0 ==> seq.wrapping_add(payload.len() as u32) == f.end,
        bits & flags::SYN != 0 ==> seq == s.iss,
    ensures
        written(emit(s, bits, seq, ack, opts, payload), f),
{
    reveal(emit);
    let t = emit(s, bits, seq, ack, opts, payload);
    if !tx_full(s) {
        let g = segment_out(s, bits, seq, ack, opts, payload);
        let b = datagram_out(s, bits, seq, ack, opts, payload);
        reveal(datagram_out);
        reveal(segment_out);
        lemma_feedback_fin(s, bits, payload);
        law_emit_then_parse_round_trip(g, s.ip_id, Seq::empty());
        assert(packet(g, s.ip_id) + Seq::<u8>::empty() =~= packet(g, s.ip_id));
        assert(ours(s, b, f));
        assert forall|k: int| 0 <= k < t.tx.len() implies ours(t, #[trigger] t.tx[k], f) by {
            if k < s.tx.len() {
                assert(t.tx[k] == s.tx[k]);
                assert(ours(s, s.tx[k], f));
            }
        }
    }
}

/// What [`written`] speaks of is the same.
pub open spec fn same_out(s: TcbView, t: TcbView) -> bool {
    &&& t.local == s.local
    &&& t.remote == s.remote
    &&& t.local_mss == s.local_mss
    &&& t.iss == s.iss
    &&& t.cookie_secret_set == s.cookie_secret_set
    &&& t.state == s.state
    &&& t.snd_una == s.snd_una
    &&& t.send_ring == s.send_ring
    &&& t.fin_sent == s.fin_sent
    &&& t.fin_seq == s.fin_seq
    &&& t.tx == s.tx
}

/// A step that leaves alone what [`written`] speaks of keeps it.
pub proof fn lemma_same_out(s: TcbView, t: TcbView, f: Stream)
    requires
        written(s, f),
        same_out(s, t),
    ensures
        written(t, f),
{
    assert forall|k: int| 0 <= k < t.tx.len() implies ours(t, #[trigger] t.tx[k], f) by {
        assert(ours(s, s.tx[k], f));
    }
}

/// A segment without payload and without FIN carries any stream.
pub proof fn lemma_bare_written(
    s: TcbView,
    bits: u8,
    seq: u32,
    ack: u32,
    opts: OptionsView,
    f: Stream,
)
    requires
        written(s, f),
        options_fit(opts),
        bits & flags::FIN == 0,
        bits & flags::SYN != 0 ==> seq == s.iss,
    ensures
        written(emit(s, bits, seq, ack, opts, Seq::empty()), f),
{
    lemma_emit_written(s, bits, seq, ack, opts, Seq::empty(), f);
}

pub proof fn lemma_pure_ack_written(s: TcbView, f: Stream)
    requires
        written(s, f),
    ensures
        written(pure_ack(s), f),
{
    reveal(pure_ack);
    lemma_options_fit(s);
    assert(0x10u8 & 0x01u8 == 0 && 0x10u8 & 0x02u8 == 0) by (bit_vector);
    lemma_bare_written(s, flags::ACK, s.snd_nxt, s.rcv_nxt, data_opts(s), f);
    let t = emit(s, flags::ACK, s.snd_nxt, s.rcv_nxt, data_opts(s), Seq::empty());
    reveal(ack_sent);
    lemma_same_out(t, ack_sent(t), f);
}

/// Buffered bytes are the stream's.
proof fn lemma_ring_bytes(s: TcbView, seq: u32, n: int, f: Stream)
    requires
        written(s, f),
        s.send_ring.len() <= 0x4000_0000,
        0 <= n,
        seq.wrapping_sub(s.snd_una) + n <= s.send_ring.len(),
    ensures
        f.agrees(seq, ring_bytes(s, seq.wrapping_sub(s.snd_una) as int, n)),
{
    let off = seq.wrapping_sub(s.snd_una) as int;
    let b = ring_bytes(s, off, n);
    assert forall|i: int| 0 <= i < b.len() implies (f.byte)(seq.wrapping_add(i as u32)) == Some(
        #[trigger] b[i],
    ) by {
        assert(b[i] == s.send_ring[off + i]);
        assert(seq.wrapping_add(i as u32) == s.snd_una.wrapping_add((off + i) as u32));
    }
}

proof fn lemma_rearm_out(s: TcbView, probe: u32)
    ensures
        same_out(s, arm_rto(s, probe)),
        same_out(s, arm_rto_if_idle(s, probe)),
        same_out(s, arm_tlp(s)),
        same_out(s, ack_sent(s)),
{
    reveal(arm_rto);
    reveal(arm_rto_if_idle);
    reveal(arm_tlp);
    reveal(ack_sent);
}

proof fn lemma_emit_again_written(s: TcbView, seq: u32, n: u32, f: Stream)
    requires
        written(s, f),
        s.send_ring.len() <= 0x4000_0000,
        seq.wrapping_sub(s.snd_una) + n <= s.send_ring.len(),
        n <= MSS,
    ensures
        written(emit_again(s, seq, n), f),
{
    reveal(emit_again);
    lemma_options_fit(s);
    let b = ring_bytes(s, seq.wrapping_sub(s.snd_una) as int, n as int);
    lemma_ring_bytes(s, seq, n as int, f);
    assert((0x10u8 | 0x08u8) & 0x01u8 == 0 && (0x10u8 | 0x08u8) & 0x02u8 == 0) by (bit_vector);
    lemma_emit_written(s, flags::ACK | flags::PSH, seq, s.rcv_nxt, data_opts(s), b, f);
    let t = emit(s, flags::ACK | flags::PSH, seq, s.rcv_nxt, data_opts(s), b);
    let u = rxt_noted(charged(t, seq, n, true), seq, n);
    assert(same_out(t, u)) by {
        reveal(charged);
        reveal(rxt_noted);
    }
    lemma_rearm_out(u, 0);
    let v = ack_sent(u);
    lemma_rearm_out(v, v.snd_max);
    let w = arm_rto_if_idle(v, v.snd_max);
    lemma_rearm_out(w, 0);
    lemma_same_out(t, arm_tlp(w), f);
}

proof fn lemma_retransmit_written(s: TcbView, seq: u32, bytes: int, f: Stream)
    requires
        sound(s),
        written(s, f),
        bytes <= payload_mss(s),
    ensures
        written(retransmit(s, seq, bytes), f),
{
    reveal(retransmit);
    reveal(payload_mss);
    if can_retransmit(s, seq, bytes) {
        lemma_emit_again_written(s, seq, buffered(s, seq, bytes) as u32, f);
    }
}

pub proof fn lemma_fire_tlp_written(s: TcbView, f: Stream)
    requires
        sound(s),
        may_transmit(s.state),
        outstanding(s) > 0,
        written(s, f),
    ensures
        written(fire_tlp(s), f),
{
    reveal(fire_tlp);
    reveal(tlp_disarmed);
    reveal(tlp_spent);
    let t = tlp_disarmed(s);
    lemma_same_out(s, t, f);
    lemma_same_out(t, tlp_spent(t), f);
    if let Some(e) = highest_open(t.sent, t.board.ranges) {
        reveal(tlp_target);
        let (start, bytes) = tlp_target(t, e);
        reveal(payload_mss);
        assert(bytes <= payload_mss(t));
        lemma_retransmit_written(t, start, bytes, f);
        let u = retransmit(t, start, bytes);
        lemma_same_out(u, tlp_spent(u), f);
    }
}

pub proof fn lemma_rack_scan_out(s: TcbView)
    ensures
        same_out(s, rack_scan(s)),
        same_out(s, begin_recovery(s)),
{
    reveal(rack_scan);
    reveal(reo_updated);
    reveal(lost_queued);
    reveal(begin_recovery);
    reveal(recovering);
    reveal(arm_rto);
}

pub proof fn lemma_nxt_moved_out(s: TcbView, n: u32)
    ensures
        same_out(s, nxt_moved(s, n)),
{
    reveal(nxt_moved);
    reveal(bump_max);
}

proof fn lemma_emit_new_written(s: TcbView, n: u32, f: Stream)
    requires
        written(s, f),
        s.send_ring.len() <= 0x4000_0000,
        0 < n <= unsent(s),
        n <= MSS,
    ensures
        written(emit_new(s, n), f),
{
    reveal(emit_new);
    lemma_options_fit(s);
    let b = ring_bytes(s, flight(s) as int, n as int);
    lemma_ring_bytes(s, s.snd_nxt, n as int, f);
    assert((0x10u8 | 0x08u8) & 0x01u8 == 0 && (0x10u8 | 0x08u8) & 0x02u8 == 0) by (bit_vector);
    lemma_emit_written(s, flags::ACK | flags::PSH, s.snd_nxt, s.rcv_nxt, data_opts(s), b, f);
    let t = emit(s, flags::ACK | flags::PSH, s.snd_nxt, s.rcv_nxt, data_opts(s), b);
    lemma_nxt_moved_out(t, n);
    let u = charged(nxt_moved(t, n), s.snd_nxt, n, false);
    assert(same_out(t, u)) by {
        reveal(charged);
    }
    lemma_rearm_out(u, 0);
    let v = ack_sent(u);
    lemma_rearm_out(v, v.snd_nxt);
    let w = arm_rto_if_idle(v, v.snd_nxt);
    lemma_rearm_out(w, 0);
    lemma_same_out(t, arm_tlp(w), f);
}

proof fn lemma_emit_fin_written(s: TcbView, f: Stream)
    requires
        sound(s),
        written(s, f),
        fin_due(s),
        !tx_full(s),
    ensures
        written(emit_fin(s), f),
{
    reveal(emit_fin);
    lemma_options_fit(s);
    assert(s.snd_nxt == f.end);
    assert((0x01u8 | 0x10u8) & 0x02u8 == 0) by (bit_vector);
    lemma_emit_written(
        s,
        flags::FIN | flags::ACK,
        s.snd_nxt,
        s.rcv_nxt,
        data_opts(s),
        Seq::empty(),
        f,
    );
    let t = emit(s, flags::FIN | flags::ACK, s.snd_nxt, s.rcv_nxt, data_opts(s), Seq::empty());
    let u = fin_placed(t);
    assert(written(u, f)) by {
        lemma_emit_send(
            s,
            flags::FIN | flags::ACK,
            s.snd_nxt,
            s.rcv_nxt,
            data_opts(s),
            Seq::empty(),
        );
        reveal(fin_placed);
        assert forall|k: int| 0 <= k < u.tx.len() implies ours(u, #[trigger] u.tx[k], f) by {
            assert(ours(t, t.tx[k], f));
        }
    }
    lemma_nxt_moved_out(u, 1);
    let v = nxt_moved(u, 1);
    lemma_rearm_out(v, 0);
    let w = ack_sent(v);
    lemma_rearm_out(w, w.snd_nxt);
    lemma_same_out(u, arm_rto_if_idle(w, w.snd_nxt), f);
}

proof fn lemma_send_fresh_written(s: TcbView, f: Stream)
    requires
        sound(s),
        may_transmit(s.state),
        written(s, f),
    ensures
        written(send_fresh(s).0, f),
{
    reveal(send_fresh);
    if fin_due(s) && !tx_full(s) {
        lemma_emit_fin_written(s, f);
    } else if s.snd_wnd == 0 {
        reveal(arm_persist);
        reveal(rto_kept);
        lemma_same_out(s, arm_persist(s), f);
    } else if sendable(s) > 0 && !tx_full(s) {
        reveal(sendable);
        reveal(payload_mss);
        lemma_emit_new_written(s, sendable(s) as u32, f);
    }
}

proof fn lemma_send_recovery_written(s: TcbView, f: Stream)
    requires
        sound(s),
        may_transmit(s.state),
        written(s, f),
    ensures
        written(send_recovery(s).0, f),
{
    reveal(send_recovery);
    lemma_send_fresh_written(s, f);
    reveal(recovery_target);
    if let Some((seq, bytes)) = recovery_target(s) {
        lemma_retransmit_written(s, seq, bytes, f);
    }
}

proof fn lemma_send_lost_written(s: TcbView, f: Stream)
    requires
        sound(s),
        may_transmit(s.state),
        written(s, f),
    ensures
        written(send_lost(s).0, f),
{
    reveal(send_lost);
    lemma_send_recovery_written(s, f);
    let t = lost_taken(s);
    assert(same_out(s, t) && sound(t)) by {
        reveal(lost_taken);
    }
    lemma_same_out(s, t, f);
    lemma_send_recovery_written(t, f);
    reveal(lost_target);
    if let Some((seq, bytes)) = lost_target(t, s.lost[0]) {
        lemma_retransmit_written(t, seq, bytes, f);
    }
}

proof fn lemma_send_one_written(s: TcbView, f: Stream)
    requires
        sound(s),
        may_transmit(s.state),
        written(s, f),
    ensures
        written(send_one(s).0, f),
{
    reveal(send_one);
    let t = recovery_left(s);
    assert(same_out(s, t) && sound(t)) by {
        reveal(recovery_left);
    }
    lemma_same_out(s, t, f);
    lemma_send_lost_written(s, f);
    lemma_send_lost_written(t, f);
}

proof fn lemma_send_some_written(s: TcbView, turns: nat, f: Stream)
    requires
        sound(s),
        may_transmit(s.state),
        written(s, f),
    ensures
        written(send_some(s, turns), f),
    decreases turns,
{
    reveal_with_fuel(send_some, 2);
    if turns > 0 {
        lemma_send_one_sound(s);
        lemma_send_one_written(s, f);
        lemma_send_some_written(send_one(s).0, (turns - 1) as nat, f);
    }
}

/// Sending what may be sent stages segments of the written stream.
pub proof fn lemma_send_data_written(s: TcbView, f: Stream)
    requires
        sound(s),
        written(s, f),
    ensures
        written(send_data(s), f),
{
    reveal(send_data);
    if may_transmit(s.state) {
        lemma_send_some_written(s, TX_RING_CAP as nat + 2, f);
    }
}

} // verus!
