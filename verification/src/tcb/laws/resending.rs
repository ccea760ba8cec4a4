//! What a connection owes the peer goes out: what was lost is sent again, and what was
//! received is acknowledged.

use crate::send_queue::highest_open;
use crate::seq::{seq_gt, seq_le};
use crate::state::synchronized;
use crate::tcb::laws::delivery::rx_ok;
use crate::tcb::laws::frame::{
    lemma_emit, lemma_fire_tlp, lemma_rack_scan, lemma_send_data, lemma_send_one, only_sent,
};
use crate::tcb::laws::outbound::lemma_options_fit;
use crate::tcb::laws::progress::{
    gained, law_ack_takes_off_what_it_covers, law_next_data_is_taken,
    law_tick_keeps_what_was_received, lemma_tick_persist_only, looked_at,
};
use crate::tcb::laws::soundness::sound;
use crate::tcb::laws::timers::law_tick_keeps_sound;
use crate::tcb::model::{
    ack_sent, arm_persist, arm_rto, arm_rto_if_idle, arm_tlp, begin_recovery, buffered, bump_max,
    can_retransmit, charged, collapse, count_timeout, data_opts, datagram_out, due, emit,
    emit_again, emit_fin, emit_new, emit_window_probe, feedback, fin_due, fin_placed, fire_tlp,
    flight, given_up, injected, keepalive_counted, lost_queued, lost_taken, lost_target,
    may_transmit, next_output, nxt_moved, payload_mss, persist_backed_off, pure_ack, rack_disarmed,
    rack_scan, recovering, recovery_left, recovery_target, reo_updated, resend_handshake,
    retransmit, ring_bytes, rto_kept, rxt_noted, segment_out, send_data, send_fresh, send_lost,
    send_one, send_recovery, send_some, sendable, takes_data, tick_ack, tick_keepalive,
    tick_persist, tick_rack, tick_rto, tick_time_wait, tick_timers, tick_tlp, tick_user_timeout,
    ticked, tlp_disarmed, tlp_spent, tlp_target, tx_full, unsent, user_timer_set, TcbView,
};
use crate::tcb::DEFAULT_PEER_MSS;
use crate::tx_ring::TX_RING_CAP;
use crate::wire::{flags, law_emit_then_parse_round_trip, packet, parse_packet, SegmentView};
use crate::MSS;
use vstd::prelude::*;

verus! {

/// The endpoints are whole, and so is our segment size.
pub open spec fn addressed(s: TcbView) -> bool {
    &&& s.local.ip.len() == 4
    &&& s.remote.ip.len() == 4
    &&& s.local_mss <= MSS
}

/// `g` goes from our side to the peer.
pub open spec fn to_peer(s: TcbView, g: SegmentView) -> bool {
    &&& g.src_ip == s.local.ip && g.src_port == s.local.port
    &&& g.dst_ip == s.remote.ip && g.dst_port == s.remote.port
    &&& !g.has(flags::RST)
}

/// `b` tells the peer that everything before `ack` has been received.
pub open spec fn acknowledges(s: TcbView, b: Seq<u8>, ack: u32) -> bool {
    parse_packet(b) matches Some(g) && to_peer(s, g) && g.has(flags::ACK) && g.ack == ack
}

/// `b` carries `data` to the peer, from `seq` on.
pub open spec fn delivers(s: TcbView, b: Seq<u8>, seq: u32, data: Seq<u8>) -> bool {
    parse_packet(b) matches Some(g) && to_peer(s, g) && g.seq == seq && g.payload == data
}

/// The endpoints are the same.
pub open spec fn same_ends(s: TcbView, t: TcbView) -> bool {
    t.local == s.local && t.remote == s.remote
}

/// One more packet waits than before.
pub open spec fn one_more(s: TcbView, t: TcbView) -> bool {
    t.tx.len() == s.tx.len() + 1 && t.tx.take(s.tx.len() as int) == s.tx
}

proof fn lemma_feedback_ack(s: TcbView, bits: u8, payload: Seq<u8>)
    requires
        bits & flags::ACK != 0,
        bits & flags::RST == 0,
    ensures
        feedback(s, bits, payload) & flags::ACK != 0,
        feedback(s, bits, payload) & flags::RST == 0,
{
    reveal(feedback);
    assert((bits | 0x40u8) & 0x14u8 == bits & 0x14u8 && ((bits | 0x40u8) | 0x80u8) & 0x14u8 == bits
        & 0x14u8 && (bits | 0x80u8) & 0x14u8 == bits & 0x14u8) by (bit_vector);
    let out = feedback(s, bits, payload);
    assert(out & 0x10u8 == bits & 0x10u8 && out & 0x04u8 == bits & 0x04u8) by (bit_vector)
        requires
            out & 0x14u8 == bits & 0x14u8,
    ;
}

/// A staged segment parses back.
proof fn lemma_emit_stages(
    s: TcbView,
    bits: u8,
    seq: u32,
    payload: Seq<u8>,
)
    requires
        addressed(s),
        !tx_full(s),
        payload.len() <= MSS,
        bits & flags::ACK != 0,
        bits & flags::RST == 0,
    ensures
        one_more(s, emit(s, bits, seq, s.rcv_nxt, data_opts(s), payload)),
        acknowledges(s, emit(s, bits, seq, s.rcv_nxt, data_opts(s), payload).tx.last(), s.rcv_nxt),
        delivers(s, emit(s, bits, seq, s.rcv_nxt, data_opts(s), payload).tx.last(), seq, payload),
{
    reveal(emit);
    reveal(datagram_out);
    reveal(segment_out);
    let g = segment_out(s, bits, seq, s.rcv_nxt, data_opts(s), payload);
    lemma_options_fit(s);
    lemma_feedback_ack(s, bits, payload);
    law_emit_then_parse_round_trip(g, s.ip_id, Seq::empty());
    assert(packet(g, s.ip_id) + Seq::<u8>::empty() =~= packet(g, s.ip_id));
    let t = emit(s, bits, seq, s.rcv_nxt, data_opts(s), payload);
    assert(t.tx.take(s.tx.len() as int) =~= s.tx);
}

proof fn lemma_emit_again_stages(s: TcbView, seq: u32, n: u32)
    requires
        addressed(s),
        !tx_full(s),
        n <= MSS,
        seq.wrapping_sub(s.snd_una) + n <= s.send_ring.len(),
    ensures
        one_more(s, emit_again(s, seq, n)),
        acknowledges(s, emit_again(s, seq, n).tx.last(), s.rcv_nxt),
{
    reveal(emit_again);
    let b = ring_bytes(s, seq.wrapping_sub(s.snd_una) as int, n as int);
    let bits = flags::ACK | flags::PSH;
    assert((0x10u8 | 0x08u8) & 0x10u8 != 0 && (0x10u8 | 0x08u8) & 0x04u8 == 0) by (bit_vector);
    lemma_emit_stages(s, bits, seq, b);
    reveal(charged);
    reveal(rxt_noted);
    reveal(ack_sent);
    reveal(arm_rto_if_idle);
    reveal(arm_rto);
    reveal(arm_tlp);
}

proof fn lemma_emit_new_stages(s: TcbView, n: u32)
    requires
        addressed(s),
        !tx_full(s),
        n <= MSS,
        flight(s) + n <= s.send_ring.len(),
    ensures
        one_more(s, emit_new(s, n)),
        acknowledges(s, emit_new(s, n).tx.last(), s.rcv_nxt),
        delivers(s, emit_new(s, n).tx.last(), s.snd_nxt, ring_bytes(s, flight(s) as int, n as int)),
{
    reveal(emit_new);
    let b = ring_bytes(s, flight(s) as int, n as int);
    let bits = flags::ACK | flags::PSH;
    assert((0x10u8 | 0x08u8) & 0x10u8 != 0 && (0x10u8 | 0x08u8) & 0x04u8 == 0) by (bit_vector);
    lemma_emit_stages(s, bits, s.snd_nxt, b);
    reveal(nxt_moved);
    reveal(bump_max);
    reveal(charged);
    reveal(ack_sent);
    reveal(arm_rto_if_idle);
    reveal(arm_rto);
    reveal(arm_tlp);
}

proof fn lemma_emit_fin_stages(s: TcbView)
    requires
        addressed(s),
        !tx_full(s),
        fin_due(s),
    ensures
        one_more(s, emit_fin(s)),
        acknowledges(s, emit_fin(s).tx.last(), s.rcv_nxt),
{
    reveal(emit_fin);
    let bits = flags::FIN | flags::ACK;
    assert((0x01u8 | 0x10u8) & 0x10u8 != 0 && (0x01u8 | 0x10u8) & 0x04u8 == 0) by (bit_vector);
    lemma_emit_stages(s, bits, s.snd_nxt, Seq::empty());
    reveal(fin_placed);
    reveal(nxt_moved);
    reveal(bump_max);
    reveal(ack_sent);
    reveal(arm_rto_if_idle);
    reveal(arm_rto);
}

/// A turn of sending: it goes on after it has staged a segment that acknowledges what
/// was received; where it stops, nothing was staged and what is owed is still owed.
pub open spec fn turn_ok(s: TcbView, r: (TcbView, bool)) -> bool {
    if r.1 {
        one_more(s, r.0) && acknowledges(s, r.0.tx.last(), s.rcv_nxt)
    } else {
        r.0.tx == s.tx && r.0.pending_ack == s.pending_ack && r.0.ack_deadline == s.ack_deadline
    }
}

proof fn lemma_retransmit_turn(s: TcbView, seq: u32, bytes: int)
    requires
        addressed(s),
        bytes <= MSS,
    ensures
        turn_ok(s, (retransmit(s, seq, bytes), can_retransmit(s, seq, bytes))),
{
    reveal(retransmit);
    if can_retransmit(s, seq, bytes) {
        lemma_emit_again_stages(s, seq, buffered(s, seq, bytes) as u32);
    }
}

proof fn lemma_fresh_turn(s: TcbView)
    requires
        addressed(s),
    ensures
        turn_ok(s, send_fresh(s)),
{
    reveal(send_fresh);
    reveal(arm_persist);
    reveal(rto_kept);
    if fin_due(s) && !tx_full(s) {
        lemma_emit_fin_stages(s);
    } else if s.snd_wnd != 0 && sendable(s) > 0 && !tx_full(s) {
        assert(sendable(s) <= MSS && flight(s) + sendable(s) <= s.send_ring.len()) by {
            reveal(sendable);
            reveal(payload_mss);
        }
        lemma_emit_new_stages(s, sendable(s) as u32);
    }
}

proof fn lemma_recovery_turn(s: TcbView)
    requires
        addressed(s),
    ensures
        turn_ok(s, send_recovery(s)),
{
    reveal(send_recovery);
    lemma_fresh_turn(s);
    if let Some((seq, bytes)) = recovery_target(s) {
        assert(bytes <= MSS) by {
            reveal(recovery_target);
            reveal(payload_mss);
        }
        lemma_retransmit_turn(s, seq, bytes);
    }
}

proof fn lemma_lost_turn(s: TcbView)
    requires
        addressed(s),
    ensures
        turn_ok(s, send_lost(s)),
{
    reveal(send_lost);
    reveal(lost_taken);
    let t = lost_taken(s);
    lemma_recovery_turn(s);
    lemma_recovery_turn(t);
    if s.lost.len() > 0 {
        if let Some((seq, bytes)) = lost_target(t, s.lost[0]) {
            assert(bytes <= MSS) by {
                reveal(lost_target);
                reveal(payload_mss);
            }
            lemma_retransmit_turn(t, seq, bytes);
        }
    }
}

proof fn lemma_one_turn(s: TcbView)
    requires
        addressed(s),
    ensures
        turn_ok(s, send_one(s)),
{
    reveal(send_one);
    reveal(recovery_left);
    lemma_lost_turn(s);
    lemma_lost_turn(recovery_left(s));
}

/// What waits goes on waiting, and what comes behind it acknowledges.
pub open spec fn went_on(s: TcbView, t: TcbView) -> bool {
    &&& s.tx.len() <= t.tx.len()
    &&& t.tx.take(s.tx.len() as int) == s.tx
    &&& t.tx.len() > s.tx.len() ==> acknowledges(s, t.tx.last(), s.rcv_nxt)
    &&& t.tx.len() == s.tx.len() ==> t.pending_ack == s.pending_ack && t.ack_deadline
        == s.ack_deadline
}

proof fn lemma_some_turns(s: TcbView, turns: nat)
    requires
        addressed(s),
    ensures
        went_on(s, send_some(s, turns)),
    decreases turns,
{
    reveal_with_fuel(send_some, 2);
    assert(s.tx.take(s.tx.len() as int) =~= s.tx);
    if turns > 0 && !tx_full(s) {
        lemma_one_turn(s);
        lemma_send_one(s);
        let (t, more) = send_one(s);
        if more {
            lemma_some_turns(t, (turns - 1) as nat);
            let u = send_some(t, (turns - 1) as nat);
            assert(u.tx.take(s.tx.len() as int) =~= u.tx.take(t.tx.len() as int).take(
                s.tx.len() as int,
            ));
            if u.tx.len() == t.tx.len() {
                assert(u.tx =~= t.tx) by {
                    assert(u.tx.take(t.tx.len() as int) =~= u.tx);
                }
            }
        }
    }
}

proof fn lemma_went_on_again(s: TcbView, t: TcbView, u: TcbView)
    requires
        went_on(s, t),
        went_on(t, u),
        same_ends(s, t),
        t.rcv_nxt == s.rcv_nxt,
    ensures
        went_on(s, u),
{
    assert(u.tx.take(s.tx.len() as int) =~= u.tx.take(t.tx.len() as int).take(s.tx.len() as int));
    if u.tx.len() == t.tx.len() {
        assert(u.tx.take(t.tx.len() as int) =~= u.tx);
        assert(u.tx =~= t.tx);
    }
}

/// A step that leaves the packets alone, and what is owed.
proof fn lemma_went_on_same(s: TcbView, t: TcbView)
    requires
        t.tx == s.tx,
        t.pending_ack == s.pending_ack,
        t.ack_deadline == s.ack_deadline,
    ensures
        went_on(s, t),
{
    assert(t.tx.take(s.tx.len() as int) =~= s.tx);
}

proof fn lemma_send_data_went_on(s: TcbView)
    requires
        addressed(s),
    ensures
        went_on(s, send_data(s)),
{
    reveal(send_data);
    lemma_went_on_same(s, s);
    lemma_some_turns(s, TX_RING_CAP as nat + 2);
}

proof fn lemma_pure_ack_stages(s: TcbView)
    requires
        addressed(s),
        !tx_full(s),
    ensures
        one_more(s, pure_ack(s)),
        acknowledges(s, pure_ack(s).tx.last(), s.rcv_nxt),
{
    reveal(pure_ack);
    reveal(ack_sent);
    assert(0x10u8 & 0x10u8 != 0 && 0x10u8 & 0x04u8 == 0) by (bit_vector);
    lemma_emit_stages(s, flags::ACK, s.snd_nxt, Seq::empty());
}

proof fn lemma_tick_ack_went_on(s: TcbView)
    requires
        addressed(s),
    ensures
        went_on(s, tick_ack(s)),
{
    reveal(tick_ack);
    lemma_went_on_same(s, s);
    if tx_full(s) {
        reveal(pure_ack);
    } else {
        lemma_pure_ack_stages(s);
    }
}

proof fn lemma_fire_tlp_went_on(s: TcbView)
    requires
        addressed(s),
    ensures
        went_on(s, fire_tlp(s)),
{
    reveal(fire_tlp);
    reveal(tlp_disarmed);
    reveal(tlp_spent);
    let t = tlp_disarmed(s);
    lemma_went_on_same(s, t);
    lemma_went_on_same(s, tlp_spent(t));
    if let Some(e) = highest_open(t.sent, t.board.ranges) {
        let (start, bytes) = tlp_target(t, e);
        assert(bytes <= MSS) by {
            reveal(tlp_target);
            reveal(payload_mss);
        }
        lemma_retransmit_turn(t, start, bytes);
    }
}

proof fn lemma_window_probe_stages(s: TcbView)
    requires
        addressed(s),
        !tx_full(s),
        flight(s) < s.send_ring.len(),
    ensures
        one_more(s, emit_window_probe(s)),
        acknowledges(s, emit_window_probe(s).tx.last(), s.rcv_nxt),
        delivers(s, emit_window_probe(s).tx.last(), s.snd_nxt, ring_bytes(s, flight(s) as int, 1)),
{
    reveal(emit_window_probe);
    assert((0x10u8 | 0x08u8) & 0x10u8 != 0 && (0x10u8 | 0x08u8) & 0x04u8 == 0) by (bit_vector);
    lemma_emit_stages(s, flags::ACK | flags::PSH, s.snd_nxt, ring_bytes(s, flight(s) as int, 1));
    reveal(nxt_moved);
    reveal(bump_max);
    reveal(arm_rto_if_idle);
    reveal(arm_rto);
}

proof fn lemma_tick_persist_went_on(s: TcbView)
    requires
        addressed(s),
    ensures
        went_on(s, tick_persist(s)),
{
    reveal(tick_persist);
    reveal(persist_backed_off);
    lemma_went_on_same(s, s);
    lemma_went_on_same(s, persist_backed_off(s));
    if !tx_full(s) && unsent(s) > 0 {
        lemma_window_probe_stages(s);
    }
}

/// Unless the connection is given up.
#[verifier::rlimit(30)]
proof fn lemma_tick_limits_went_on(s: TcbView)
    requires
        addressed(s),
    ensures
        ({
            let t = tick_user_timeout(tick_keepalive(s));
            t.state is Closed || went_on(s, t) && addressed(t) && same_ends(s, t) && t.rcv_nxt
                == s.rcv_nxt
        }),
{
    reveal(tick_keepalive);
    reveal(tick_user_timeout);
    reveal(user_timer_set);
    reveal(keepalive_counted);
    reveal(given_up);
    lemma_went_on_same(s, s);
    let p = s.snd_nxt.wrapping_sub(1);
    let k = emit(s, flags::ACK, p, s.rcv_nxt, data_opts(s), Seq::empty());
    lemma_emit(s, flags::ACK, p, s.rcv_nxt, data_opts(s), Seq::empty());
    if !tx_full(s) {
        assert(0x10u8 & 0x10u8 != 0 && 0x10u8 & 0x04u8 == 0) by (bit_vector);
        lemma_emit_stages(s, flags::ACK, p, Seq::empty());
    }
}

/// What is owed is paid: when the time of a delayed acknowledgement has come and there
/// is room, driving the timers stages a packet that acknowledges everything that was
/// received.
pub proof fn law_owed_ack_is_sent(s: TcbView)
    requires
        addressed(s),
        synchronized(s.state),
        !tx_full(s),
        s.pending_ack,
        due(s, s.ack_deadline),
        !(ticked(s).state is Closed),
    ensures
        ticked(s).tx.len() > s.tx.len(),
        acknowledges(s, ticked(s).tx.last(), s.rcv_nxt),
{
    let a = tick_time_wait(s);
    assert(a.tx == s.tx && a.pending_ack == s.pending_ack && a.ack_deadline == s.ack_deadline
        && addressed(a) && same_ends(s, a) && a.rcv_nxt == s.rcv_nxt && a.now_ms == s.now_ms && (a.state == s.state
        || a.state is Closed)) by {
        reveal(tick_time_wait);
    }
    reveal(given_up);
    reveal(tick_timers);
    let b = tick_rto(a);
    assert(b.tx == a.tx && b.pending_ack == a.pending_ack && b.ack_deadline == a.ack_deadline
        && addressed(b) && same_ends(s, b) && b.rcv_nxt == a.rcv_nxt && b.now_ms == a.now_ms) by {
        reveal(tick_rto);
        reveal(count_timeout);
        reveal(collapse);
        reveal(resend_handshake);
    }
    let c = tick_rack(b);
    assert(c.tx == b.tx && c.pending_ack == b.pending_ack && c.ack_deadline == b.ack_deadline
        && addressed(c) && same_ends(s, c) && c.rcv_nxt == b.rcv_nxt && c.now_ms == b.now_ms) by {
        reveal(tick_rack);
        reveal(rack_disarmed);
        lemma_rack_scan(rack_disarmed(b));
        lemma_rack_scan_owed(rack_disarmed(b));
    }
    lemma_went_on_same(s, c);
    let d = tick_tlp(c);
    assert(went_on(c, d) && only_sent(c, d)) by {
        reveal(tick_tlp);
        lemma_went_on_same(c, c);
        lemma_fire_tlp_went_on(c);
        lemma_fire_tlp(c);
    }
    lemma_went_on_again(s, c, d);
    lemma_tick_persist_went_on(d);
    lemma_tick_persist_only(d);
    let e = tick_persist(d);
    lemma_went_on_again(s, d, e);
    lemma_tick_limits_went_on(e);
    let t = tick_timers(a);
    assert(t.now_ms == s.now_ms) by {
        reveal(tick_keepalive);
        reveal(tick_user_timeout);
        reveal(user_timer_set);
        reveal(keepalive_counted);
        reveal(emit);
    }
    lemma_went_on_again(s, e, t);
    lemma_send_data_went_on(t);
    lemma_send_data(t);
    let u = send_data(t);
    lemma_went_on_again(s, t, u);
    lemma_tick_ack_went_on(u);
    let v = tick_ack(u);
    lemma_went_on_again(s, u, v);
    if v.tx.len() == s.tx.len() {
        assert(u.tx.len() == s.tx.len());
        assert(u.pending_ack && u.ack_deadline == s.ack_deadline);
        reveal(tick_ack);
        lemma_pure_ack_stages(u);
    }
}

proof fn lemma_rack_scan_owed(s: TcbView)
    ensures
        rack_scan(s).tx == s.tx,
        rack_scan(s).pending_ack == s.pending_ack,
        rack_scan(s).ack_deadline == s.ack_deadline,
{
    reveal(rack_scan);
    reveal(reo_updated);
    reveal(lost_queued);
    reveal(begin_recovery);
    reveal(recovering);
    reveal(arm_rto);
}

/// The first packet that sending stages, after a collapse, holds the oldest byte that
/// is buffered.
proof fn lemma_first_goes_out(s: TcbView)
    requires
        addressed(s),
        may_transmit(s.state),
        !tx_full(s),
        s.snd_nxt == s.snd_una,
        s.send_ring.len() > 0,
        s.snd_wnd > 0,
        s.lost.len() == 0,
        !s.cc.in_recovery,
        s.cc.cwnd > 0,
        s.peer_mss >= DEFAULT_PEER_MSS,
        s.local_mss == MSS,
    ensures
        ({
            let t = send_data(s);
            let n = sendable(s);
            &&& 0 < n <= s.send_ring.len()
            &&& t.tx.len() > s.tx.len()
            &&& t.tx.take(s.tx.len() as int) == s.tx
            &&& delivers(s, t.tx[s.tx.len() as int], s.snd_una, s.send_ring.take(n))
        }),
{
    let n = sendable(s);
    assert(0 < n <= s.send_ring.len() && n <= MSS) by {
        reveal(sendable);
        reveal(payload_mss);
        lemma_options_fit(s);
    }
    assert(send_one(s) == (emit_new(s, n as u32), true)) by {
        reveal(send_one);
        reveal(send_lost);
        reveal(send_recovery);
        reveal(send_fresh);
    }
    lemma_emit_new_stages(s, n as u32);
    let t = emit_new(s, n as u32);
    assert(ring_bytes(s, 0, n) =~= s.send_ring.take(n));
    assert(addressed(t)) by {
        lemma_send_one(s);
    }
    let turns = (TX_RING_CAP + 1) as nat;
    lemma_some_turns(t, turns);
    let u = send_some(t, turns);
    assert(send_data(s) == u) by {
        reveal(send_data);
        reveal_with_fuel(send_some, 1);
    }
    assert(u.tx.take(s.tx.len() as int) =~= u.tx.take(t.tx.len() as int).take(s.tx.len() as int));
    assert(u.tx.take(t.tx.len() as int)[s.tx.len() as int] == t.tx.last());
}

/// What a collapse leaves behind.
pub open spec fn collapsed(s: TcbView, b: TcbView) -> bool {
    &&& b.tx == s.tx
    &&& same_ends(s, b)
    &&& b.state == s.state
    &&& b.snd_una == s.snd_una
    &&& b.snd_nxt == s.snd_una
    &&& b.send_ring == s.send_ring
    &&& b.snd_wnd == s.snd_wnd
    &&& b.lost.len() == 0
    &&& !b.cc.in_recovery
    &&& b.cc.cwnd > 0
    &&& b.peer_mss == s.peer_mss
    &&& b.local_mss == s.local_mss
}

/// Everything between the retransmission timer and sending either stages the oldest
/// byte as a probe or leaves the collapsed connection to be sent from.
proof fn lemma_timeout_timers(s: TcbView)
    requires
        addressed(s),
        may_transmit(s.state),
        s.send_ring.len() > 0,
        !tx_full(s),
        due(s, s.rto_deadline),
        !(tick_timers(s).state is Closed),
    ensures
        ({
            let t = tick_timers(s);
            &&& same_ends(s, t) && t.local_mss == s.local_mss
            &&& t.tx.len() == s.tx.len() ==> collapsed(s, t)
            &&& t.tx.len() > s.tx.len() ==> delivers(
                s,
                t.tx[s.tx.len() as int],
                s.snd_una,
                s.send_ring.take(1),
            )
            &&& t.tx.len() >= s.tx.len()
        }),
{
    reveal(tick_timers);
    let b = tick_rto(s);
    assert(collapsed(s, b) && b.rack_deadline is None && b.tlp_deadline is None) by {
        reveal(tick_rto);
        reveal(count_timeout);
        reveal(collapse);
        reveal(resend_handshake);
    }
    assert(tick_rack(b) == b) by {
        reveal(tick_rack);
    }
    assert(tick_tlp(b) == b) by {
        reveal(tick_tlp);
    }
    let e = tick_persist(b);
    assert(e.tx.len() == s.tx.len() ==> collapsed(s, e)) by {
        reveal(tick_persist);
        reveal(persist_backed_off);
        if !tx_full(b) && unsent(b) > 0 {
            lemma_window_probe_stages(b);
        }
    }
    assert(e.tx.len() > s.tx.len() ==> delivers(
        s,
        e.tx[s.tx.len() as int],
        s.snd_una,
        s.send_ring.take(1),
    )) by {
        reveal(tick_persist);
        reveal(persist_backed_off);
        if !tx_full(b) && unsent(b) > 0 {
            lemma_window_probe_stages(b);
            assert(ring_bytes(b, 0, 1) =~= s.send_ring.take(1));
        }
    }
    lemma_tick_persist_only(b);
    lemma_tick_persist_went_on(b);
    assert(tick_keepalive(e) == e) by {
        reveal(tick_keepalive);
    }
    reveal(tick_user_timeout);
    reveal(user_timer_set);
    assert(given_up(e).state is Closed) by {
        reveal(given_up);
    }
}

/// What was lost is sent again: when the retransmission timer runs out, patience is left
/// and the peer's window is open, driving the timers stages a packet that carries the
/// oldest unacknowledged bytes.
pub proof fn law_timeout_sends_again(s: TcbView)
    requires
        sound(s),
        addressed(s),
        may_transmit(s.state),
        s.send_ring.len() > 0,
        s.snd_wnd > 0,
        !tx_full(s),
        due(s, s.rto_deadline),
        !(ticked(s).state is Closed),
    ensures
        ticked(s).tx.len() > s.tx.len(),
        exists|n: int|
            0 < n <= s.send_ring.len() && #[trigger] delivers(
                s,
                ticked(s).tx[s.tx.len() as int],
                s.snd_una,
                s.send_ring.take(n),
            ),
{
    let k = s.tx.len() as int;
    assert(tick_time_wait(s) == s) by {
        reveal(tick_time_wait);
    }
    assert(given_up(count_timeout(s)).state is Closed) by {
        reveal(given_up);
    }
    lemma_timeout_timers(s);
    let t = tick_timers(s);
    let u = send_data(t);
    lemma_send_data_went_on(t);
    lemma_send_data(t);
    lemma_tick_ack_went_on(u);
    let v = tick_ack(u);
    if t.tx.len() > k {
        assert(u.tx.take(t.tx.len() as int)[k] == t.tx[k]);
        assert(v.tx.take(u.tx.len() as int)[k] == u.tx[k]);
        assert(delivers(s, v.tx[k], s.snd_una, s.send_ring.take(1)));
    } else {
        lemma_first_goes_out(t);
        assert(v.tx.take(u.tx.len() as int)[k] == u.tx[k]);
        assert(delivers(s, v.tx[k], s.snd_una, s.send_ring.take(sendable(t))));
    }
}

/// Each is the other's peer.
pub open spec fn facing(s: TcbView, r: TcbView) -> bool {
    r.local == s.remote && r.remote == s.local
}

/// A round trip: the retransmission timer of the sender runs out, the first packet that
/// this stages reaches a peer that waits for it and has room, and `back`, with which the
/// peer acknowledges what it then has, reaches the sender. The peer has nothing that
/// was not sent.
pub struct Round {
    pub sender: TcbView,
    pub peer: TcbView,
    pub back: Seq<u8>,
}

impl Round {
    /// The sender after its timeout.
    pub open spec fn resent(self) -> TcbView {
        ticked(self.sender)
    }

    /// The peer with what was sent again.
    pub open spec fn reached(self) -> TcbView {
        injected(self.peer, self.resent().tx[self.sender.tx.len() as int]).0
    }

    /// The sender after the round trip.
    pub open spec fn over(self) -> TcbView {
        injected(self.resent(), self.back).0
    }

    pub open spec fn valid(self) -> bool {
        let s = self.sender;
        let r = self.peer;
        &&& sound(s) && rx_ok(s) && addressed(s)
        &&& may_transmit(s.state)
        &&& s.send_ring.len() > 0
        &&& s.snd_wnd > 0
        &&& !tx_full(s)
        &&& due(s, s.rto_deadline)
        &&& synchronized(self.resent().state)
        &&& sound(r) && rx_ok(r)
        &&& takes_data(r.state)
        &&& facing(s, r)
        &&& r.rcv_nxt == s.snd_una
        &&& s.send_ring.len() <= r.cap - r.recv_ring.len()
        &&& acknowledges(r, self.back, self.reached().rcv_nxt)
        &&& looked_at(self.resent(), parse_packet(self.back)->0)
        &&& seq_le(self.reached().rcv_nxt, self.resent().snd_max)
    }
}

/// A channel that delivers makes every timeout a step forward: after a round trip the
/// sender is done with at least one byte more, and with all that the peer has.
pub proof fn law_round_trip_makes_progress(x: Round)
    requires
        x.valid(),
    ensures
        x.over().snd_una == x.reached().rcv_nxt,
        seq_gt(x.over().snd_una, x.sender.snd_una),
        x.over().send_ring.len() < x.sender.send_ring.len(),
{
    let (s, r, q) = (x.sender, x.peer, x.back);
    law_timeout_sends_again(s);
    law_tick_keeps_sound(s);
    law_tick_keeps_what_was_received(s);
    let t = ticked(s);
    let p = t.tx[s.tx.len() as int];
    let n = choose|n: int|
        0 < n <= s.send_ring.len() && #[trigger] delivers(s, p, s.snd_una, s.send_ring.take(n));
    law_next_data_is_taken(r, p);
    let u = injected(r, p).0;
    assert(seq_gt(u.rcv_nxt, s.snd_una)) by {
        let grown = u.recv_ring.len() - r.recv_ring.len();
        assert(n <= grown <= 0x4000_0000);
        assert(gained(r, u, 0) ==> u.rcv_nxt == r.rcv_nxt.wrapping_add(grown as u32));
        assert(gained(r, u, 1) ==> u.rcv_nxt == r.rcv_nxt.wrapping_add((grown + 1) as u32));
    }
    assert(!t.fin_sent);
    law_ack_takes_off_what_it_covers(t, q);
}

/// A transfer ends: unless more is written, there are no more round trips than bytes
/// that wait to be acknowledged.
pub proof fn law_round_trips_are_bounded(rounds: Seq<Round>)
    requires
        rounds.len() > 0,
        forall|i: int| 0 <= i < rounds.len() ==> (#[trigger] rounds[i]).valid(),
        forall|i: int, j: int|
            0 <= i < rounds.len() && j == i + 1 && j < rounds.len() ==> (
            #[trigger] rounds[j]).sender.send_ring.len() <= (
            #[trigger] rounds[i]).over().send_ring.len(),
    ensures
        rounds.len() <= rounds[0].sender.send_ring.len(),
    decreases rounds.len(),
{
    assert(rounds[0].valid());
    law_round_trip_makes_progress(rounds[0]);
    if rounds.len() > 1 {
        let rest = rounds.skip(1);
        assert(rest[0] == rounds[1]);
        assert forall|i: int| 0 <= i < rest.len() implies (#[trigger] rest[i]).valid() by {
            assert(rest[i] == rounds[i + 1]);
        }
        assert forall|i: int, j: int|
            0 <= i < rest.len() && j == i + 1 && j < rest.len() implies (
        #[trigger] rest[j]).sender.send_ring.len() <= (
        #[trigger] rest[i]).over().send_ring.len() by {
            assert(rest[i] == rounds[i + 1] && rest[j] == rounds[j + 1]);
        }
        law_round_trips_are_bounded(rest);
    }
}

/// The user timeout has no say in what is sent.
proof fn lemma_user_timer_sends_nothing(s: TcbView, deadline: Option<u64>)
    ensures
        send_one(user_timer_set(s, deadline)).1 == send_one(s).1,
{
    let t = user_timer_set(s, deadline);
    reveal(user_timer_set);
    assert(payload_mss(t) == payload_mss(s)) by {
        reveal(payload_mss);
        reveal(data_opts);
    }
    assert(sendable(t) == sendable(s)) by {
        reveal(sendable);
    }
    assert(send_fresh(t).1 == send_fresh(s).1) by {
        reveal(send_fresh);
    }
    reveal(recovery_left);
    reveal(lost_taken);
    reveal(send_one);
    reveal(send_lost);
    reveal(send_recovery);
    reveal(send_fresh);
    reveal(sendable);
    reveal(payload_mss);
    reveal(data_opts);
    reveal(recovery_target);
    reveal(lost_target);
}

/// A host may sleep until the next deadline: as long as none of the deadlines at which
/// something may be sent has come, and nothing can be sent by itself, driving the timers
/// stages nothing.
pub proof fn law_nothing_before_the_next_deadline(s: TcbView)
    requires
        next_output(s) matches Some(d) ==> s.now_ms < d,
        !send_one(s).1,
    ensures
        ticked(s).tx == s.tx,
{
    let a = tick_time_wait(s);
    reveal(tick_time_wait);
    reveal(given_up);
    if a.state is Closed {
        assert(!may_transmit(a.state));
    }
    assert(tick_timers(a) == tick_user_timeout(a)) by {
        reveal(tick_timers);
        reveal(tick_rto);
        reveal(tick_rack);
        reveal(tick_tlp);
        reveal(tick_persist);
        reveal(tick_keepalive);
    }
    let t = tick_user_timeout(a);
    reveal(tick_user_timeout);
    reveal(user_timer_set);
    lemma_user_timer_sends_nothing(s, t.user_timeout_deadline);
    assert(send_data(t).tx == t.tx && send_data(t).ack_deadline == t.ack_deadline && send_data(
        t,
    ).now_ms == t.now_ms) by {
        reveal(send_data);
        reveal_with_fuel(send_some, 1);
        if may_transmit(t.state) {
            lemma_stop_owes_the_same(t);
            lemma_send_one(t);
        }
    }
    reveal(tick_ack);
}

/// Where sending stops, nothing was staged and what is owed is still owed.
spec fn stops_clean(s: TcbView, r: (TcbView, bool)) -> bool {
    !r.1 ==> r.0.tx == s.tx && r.0.ack_deadline == s.ack_deadline
}

proof fn lemma_recovery_stops_clean(s: TcbView)
    ensures
        stops_clean(s, send_recovery(s)),
{
    assert(stops_clean(s, send_fresh(s))) by {
        reveal(send_fresh);
        reveal(arm_persist);
        reveal(rto_kept);
    }
    reveal(send_recovery);
    reveal(retransmit);
}

proof fn lemma_lost_stops_clean(s: TcbView)
    ensures
        stops_clean(s, send_lost(s)),
{
    lemma_recovery_stops_clean(s);
    lemma_recovery_stops_clean(lost_taken(s));
    assert(lost_taken(s).tx == s.tx && lost_taken(s).ack_deadline == s.ack_deadline) by {
        reveal(lost_taken);
    }
    reveal(send_lost);
    reveal(retransmit);
}

proof fn lemma_stop_owes_the_same(s: TcbView)
    ensures
        stops_clean(s, send_one(s)),
{
    lemma_lost_stops_clean(s);
    lemma_lost_stops_clean(recovery_left(s));
    reveal(send_one);
    reveal(recovery_left);
}

/// The next deadline is that of a timer that runs, and no timer comes before it.
pub proof fn law_next_deadline_is_the_earliest(s: TcbView)
    ensures
        ({
            let all = seq![
                s.rto_deadline,
                s.tlp_deadline,
                s.rack_deadline,
                s.persist_deadline,
                s.ack_deadline,
                s.keepalive_deadline,
            ];
            match next_output(s) {
                Some(d) => {
                    &&& s.rto_deadline == Some(d) || s.tlp_deadline == Some(d) || s.rack_deadline
                        == Some(d) || s.persist_deadline == Some(d) || s.ack_deadline == Some(d)
                        || s.keepalive_deadline == Some(d)
                    &&& forall|i: int|
                        0 <= i < 6 ==> (#[trigger] all[i] matches Some(e) ==> d <= e)
                },
                None => forall|i: int| 0 <= i < 6 ==> #[trigger] all[i] is None,
            }
        }),
{
}

} // verus!
