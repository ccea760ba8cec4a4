//! Sending keeps a connection sound.

use crate::send_queue::highest_open;
use crate::tcb::laws::frame::{lemma_arm, only_sent};
use crate::tcb::laws::soundness::{consistent, outstanding, sound};
use crate::tcb::model::{
    ack_sent, arm_persist, arm_rto, arm_rto_if_idle, arm_tlp, begin_recovery, buffered, bump_max,
    can_retransmit, charged, data_opts, emit, emit_again, emit_fin, emit_new, fin_due, fin_placed,
    fire_tlp, flight, later, lost_queued, lost_taken, lost_target, may_transmit, nxt_moved,
    pure_ack, rack_scan, recovering, recovery_left, recovery_target, reo_updated, retransmit,
    ring_bytes, rto_kept, rxt_noted, send_data, send_fresh, send_lost, send_one, send_recovery,
    send_some, sendable, tlp_disarmed, tlp_spent, tlp_target, tx_full, unsent, TcbView,
};
use crate::tx_ring::TX_RING_CAP;
use crate::wire::flags;
use crate::wire::options::OptionsView;
use vstd::prelude::*;

verus! {

/// The variables that [`sound`] speaks of are the same, the timers aside.
pub open spec fn same_send(s: TcbView, t: TcbView) -> bool {
    &&& t.cap == s.cap
    &&& t.state == s.state
    &&& t.snd_una == s.snd_una
    &&& t.snd_nxt == s.snd_nxt
    &&& t.snd_max == s.snd_max
    &&& t.iss == s.iss
    &&& t.send_ring == s.send_ring
    &&& t.fin_sent == s.fin_sent
    &&& t.fin_seq == s.fin_seq
    &&& t.cc == s.cc
    &&& t.sent == s.sent
    &&& t.lost == s.lost
    &&& t.rxt_seq == s.rxt_seq
    &&& t.rack_deadline == s.rack_deadline
    &&& t.rto_deadline == s.rto_deadline
    &&& t.tlp_deadline == s.tlp_deadline
    &&& t.persist_deadline == s.persist_deadline
    &&& t.rto_ms == s.rto_ms
    &&& t.local_mss == s.local_mss
    &&& t.peer_mss == s.peer_mss
    &&& t.time_wait_deadline == s.time_wait_deadline
}

/// A step that leaves alone what [`sound`] speaks of keeps it.
pub proof fn lemma_same_send(s: TcbView, t: TcbView)
    requires
        sound(s),
        same_send(s, t),
    ensures
        sound(t),
{
}

pub proof fn lemma_emit_send(
    s: TcbView,
    bits: u8,
    seq: u32,
    ack: u32,
    opts: OptionsView,
    payload: Seq<u8>,
)
    ensures
        same_send(s, emit(s, bits, seq, ack, opts, payload)),
        same_send(s, ack_sent(s)),
{
    reveal(emit);
    reveal(ack_sent);
}

pub proof fn lemma_pure_ack_send(s: TcbView)
    ensures
        same_send(s, pure_ack(s)),
{
    reveal(pure_ack);
    let t = emit(s, flags::ACK, s.snd_nxt, s.rcv_nxt, data_opts(s), Seq::empty());
    lemma_emit_send(s, flags::ACK, s.snd_nxt, s.rcv_nxt, data_opts(s), Seq::empty());
    reveal(ack_sent);
}

/// Arming a timer keeps a connection sound while something is outstanding.
pub proof fn lemma_arm_sound(s: TcbView, probe: u32)
    requires
        consistent(s),
        outstanding(s) > 0,
    ensures
        sound(arm_rto(s, probe)),
        sound(arm_rto_if_idle(s, probe)),
        sound(s) && may_transmit(s.state) ==> sound(arm_tlp(s)),
{
    reveal(arm_rto);
    reveal(arm_rto_if_idle);
    reveal(arm_tlp);
}

pub proof fn lemma_emit_again_sound(s: TcbView, seq: u32, n: u32)
    requires
        sound(s),
        may_transmit(s.state),
        outstanding(s) > 0,
    ensures
        sound(emit_again(s, seq, n)),
        only_sent(s, emit_again(s, seq, n)),
        emit_again(s, seq, n).rto_deadline is Some,
        emit_again(s, seq, n).snd_max == s.snd_max,
{
    reveal(emit_again);
    let b = ring_bytes(s, seq.wrapping_sub(s.snd_una) as int, n as int);
    let t = emit(s, flags::ACK | flags::PSH, seq, s.rcv_nxt, data_opts(s), b);
    lemma_emit_send(s, flags::ACK | flags::PSH, seq, s.rcv_nxt, data_opts(s), b);
    reveal(charged);
    reveal(rxt_noted);
    let u = rxt_noted(charged(t, seq, n, true), seq, n);
    assert(sound(u));
    lemma_emit_send(u, 0, 0, 0, data_opts(u), b);
    let v = ack_sent(u);
    assert(sound(v) && may_transmit(v.state) && outstanding(v) > 0);
    lemma_arm_sound(v, v.snd_max);
    lemma_arm(v, v.snd_max);
    let w = arm_rto_if_idle(v, v.snd_max);
    assert(w.rto_deadline is Some && w.snd_max == v.snd_max) by {
        reveal(arm_rto_if_idle);
        reveal(arm_rto);
    }
    lemma_arm_sound(w, 0);
    assert(arm_tlp(w).rto_deadline == w.rto_deadline && arm_tlp(w).snd_max == w.snd_max) by {
        reveal(arm_tlp);
    }
    crate::tcb::laws::frame::lemma_emit_again(s, seq, n);
}

pub proof fn lemma_retransmit_sound(s: TcbView, seq: u32, bytes: int)
    requires
        sound(s),
        may_transmit(s.state),
        outstanding(s) > 0,
    ensures
        sound(retransmit(s, seq, bytes)),
        only_sent(s, retransmit(s, seq, bytes)),
        can_retransmit(s, seq, bytes) ==> retransmit(s, seq, bytes).rto_deadline is Some,
        retransmit(s, seq, bytes).snd_max == s.snd_max,
{
    reveal(retransmit);
    if can_retransmit(s, seq, bytes) {
        lemma_emit_again_sound(s, seq, buffered(s, seq, bytes) as u32);
    }
}

pub proof fn lemma_fire_tlp_sound(s: TcbView)
    requires
        sound(s),
        may_transmit(s.state),
        outstanding(s) > 0,
    ensures
        sound(fire_tlp(s)),
        only_sent(s, fire_tlp(s)),
{
    reveal(fire_tlp);
    reveal(tlp_disarmed);
    reveal(tlp_spent);
    let t = tlp_disarmed(s);
    if let Some(e) = highest_open(t.sent, t.board.ranges) {
        let (start, bytes) = tlp_target(t, e);
        lemma_retransmit_sound(t, start, bytes);
    }
}

pub proof fn lemma_begin_recovery_sound(s: TcbView)
    requires
        sound(s),
        may_transmit(s.state),
        outstanding(s) > 0,
    ensures
        sound(begin_recovery(s)),
        only_sent(s, begin_recovery(s)),
        begin_recovery(s).cc.in_recovery,
{
    reveal(begin_recovery);
    reveal(recovering);
    let t = recovering(s, s.snd_max.wrapping_sub(s.snd_una));
    assert(consistent(t));
    lemma_arm_sound(t, s.snd_una);
    lemma_arm(t, s.snd_una);
    assert(arm_rto(t, s.snd_una).cc == t.cc) by {
        reveal(arm_rto);
    }
}

pub proof fn lemma_rack_scan_sound(s: TcbView)
    requires
        sound(s),
        !(s.state is SynSent) && !(s.state is SynRcvd),
    ensures
        sound(rack_scan(s)),
        only_sent(s, rack_scan(s)),
{
    reveal(rack_scan);
    reveal(reo_updated);
    reveal(lost_queued);
    let t = reo_updated(s);
    assert(sound(t) && only_sent(s, t));
    if crate::seq::seq_gt(t.snd_max, t.snd_una) {
        lemma_begin_recovery_sound(t);
    }
}

pub proof fn lemma_nxt_moved_sound(s: TcbView, n: u32)
    requires
        sound(s),
        may_transmit(s.state),
        !s.fin_sent,
        0 < n,
        flight(s) + n <= s.send_ring.len(),
    ensures
        consistent(nxt_moved(s, n)),
        flight(nxt_moved(s, n)) == flight(s) + n,
        outstanding(nxt_moved(s, n)) > 0,
        outstanding(nxt_moved(s, n)) >= outstanding(s),
        only_sent(s, nxt_moved(s, n)),
{
    reveal(nxt_moved);
    reveal(bump_max);
}

pub proof fn lemma_emit_new_sound(s: TcbView, n: u32)
    requires
        sound(s),
        may_transmit(s.state),
        0 < n <= unsent(s),
    ensures
        sound(emit_new(s, n)),
        only_sent(s, emit_new(s, n)),
        emit_new(s, n).rto_deadline is Some,
        flight(emit_new(s, n)) == flight(s) + n,
        outstanding(emit_new(s, n)) >= outstanding(s),
{
    crate::tcb::laws::frame::lemma_emit_new(s, n);
    reveal(emit_new);
    let b = ring_bytes(s, flight(s) as int, n as int);
    let t = emit(s, flags::ACK | flags::PSH, s.snd_nxt, s.rcv_nxt, data_opts(s), b);
    lemma_emit_send(s, flags::ACK | flags::PSH, s.snd_nxt, s.rcv_nxt, data_opts(s), b);
    assert(sound(t));
    lemma_nxt_moved_sound(t, n);
    let u = charged(nxt_moved(t, n), s.snd_nxt, n, false);
    assert(consistent(u) && flight(u) == flight(s) + n && outstanding(u) > 0 && outstanding(u)
        >= outstanding(s)) by {
        reveal(charged);
    }
    assert(may_transmit(u.state)) by {
        reveal(charged);
    }
    lemma_emit_send(u, 0, 0, 0, data_opts(u), b);
    let v = ack_sent(u);
    lemma_arm_sound(v, v.snd_nxt);
    let w = arm_rto_if_idle(v, v.snd_nxt);
    assert(w.rto_deadline is Some && outstanding(w) == outstanding(v) && flight(w) == flight(v)
        && w.state == v.state) by {
        reveal(arm_rto_if_idle);
        reveal(arm_rto);
    }
    lemma_arm_sound(w, 0);
    reveal(arm_tlp);
}

#[verifier::rlimit(30)]
proof fn lemma_fin_moved(s: TcbView)
    requires
        sound(s),
        fin_due(s),
    ensures
        consistent(nxt_moved(fin_placed(s), 1)),
        flight(nxt_moved(fin_placed(s), 1)) == 1,
        outstanding(nxt_moved(fin_placed(s), 1)) > 0,
{
    let u = fin_placed(s);
    assert(s.snd_nxt == s.snd_una);
    assert(s.fin_sent ==> s.snd_max == s.snd_una.wrapping_add(1));
    assert(!s.fin_sent ==> s.snd_max == s.snd_una && !s.cc.in_recovery);
    assert(u.snd_una == s.snd_una && u.snd_nxt == s.snd_nxt && u.snd_max == s.snd_max && u.fin_sent
        && u.fin_seq == s.snd_una && u.state == s.state && u.cap == s.cap && u.send_ring
        == s.send_ring && u.time_wait_deadline == s.time_wait_deadline && u.rto_ms == s.rto_ms
        && u.local_mss == s.local_mss && u.peer_mss == s.peer_mss && u.cc.cwnd == s.cc.cwnd && u.cc.ssthresh == s.cc.ssthresh && u.cc.in_recovery
        == s.cc.in_recovery && u.cc.recovery_point == s.cc.recovery_point) by {
        reveal(fin_placed);
    }
    let v = nxt_moved(u, 1);
    assert(v.snd_nxt == s.snd_una.wrapping_add(1) && v.snd_max == s.snd_una.wrapping_add(1)
        && v.snd_una == u.snd_una && v.fin_sent && v.fin_seq == u.fin_seq && v.state == u.state
        && v.cap == u.cap && v.send_ring == u.send_ring && v.time_wait_deadline
        == u.time_wait_deadline && v.rto_ms == u.rto_ms && v.local_mss == u.local_mss
        && v.peer_mss == u.peer_mss && v.cc == u.cc) by {
        reveal(nxt_moved);
        reveal(bump_max);
    }
}

pub proof fn lemma_emit_fin_sound(s: TcbView)
    requires
        sound(s),
        fin_due(s),
        !tx_full(s),
    ensures
        sound(emit_fin(s)),
        only_sent(s, emit_fin(s)),
        emit_fin(s).rto_deadline is Some,
        flight(emit_fin(s)) == 1,
        outstanding(emit_fin(s)) >= outstanding(s),
{
    crate::tcb::laws::frame::lemma_emit_fin(s);
    reveal(emit_fin);
    let t = emit(s, flags::FIN | flags::ACK, s.snd_nxt, s.rcv_nxt, data_opts(s), Seq::empty());
    lemma_emit_send(s, flags::FIN | flags::ACK, s.snd_nxt, s.rcv_nxt, data_opts(s), Seq::empty());
    lemma_fin_moved(t);
    let v = nxt_moved(fin_placed(t), 1);
    lemma_emit_send(v, 0, 0, 0, data_opts(v), Seq::empty());
    let w = ack_sent(v);
    lemma_arm_sound(w, w.snd_nxt);
    reveal(arm_rto_if_idle);
    reveal(arm_rto);
}

proof fn lemma_rto_kept_sound(s: TcbView)
    requires
        sound(s),
    ensures
        sound(rto_kept(s)),
        only_sent(s, rto_kept(s)),
        outstanding(rto_kept(s)) == outstanding(s),
{
    reveal(rto_kept);
}

proof fn lemma_arm_persist_sound(s: TcbView)
    requires
        sound(s),
        may_transmit(s.state),
    ensures
        sound(arm_persist(s)),
        only_sent(s, arm_persist(s)),
        outstanding(arm_persist(s)) == outstanding(s),
{
    reveal(arm_persist);
    lemma_rto_kept_sound(s);
    let t = TcbView {
        persist_backoff_ms: s.rto_ms,
        persist_deadline: Some(later(s, s.rto_ms as u64)),
        ..s
    };
    assert(sound(t) && only_sent(s, t) && outstanding(t) == outstanding(s));
    lemma_rto_kept_sound(t);
}

pub proof fn lemma_send_fresh_sound(s: TcbView)
    requires
        sound(s),
        may_transmit(s.state),
    ensures
        sound(send_fresh(s).0),
        only_sent(s, send_fresh(s).0),
        send_fresh(s).1 ==> send_fresh(s).0.rto_deadline is Some,
        outstanding(send_fresh(s).0) >= outstanding(s),
{
    reveal(send_fresh);
    if fin_due(s) && !tx_full(s) {
        lemma_emit_fin_sound(s);
    } else if s.snd_wnd == 0 {
        lemma_arm_persist_sound(s);
    } else if sendable(s) > 0 && !tx_full(s) {
        reveal(sendable);
        lemma_emit_new_sound(s, sendable(s) as u32);
    }
}

pub proof fn lemma_send_recovery_sound(s: TcbView)
    requires
        sound(s),
        may_transmit(s.state),
    ensures
        sound(send_recovery(s).0),
        only_sent(s, send_recovery(s).0),
        send_recovery(s).1 ==> send_recovery(s).0.rto_deadline is Some,
        outstanding(send_recovery(s).0) >= outstanding(s),
{
    reveal(send_recovery);
    lemma_send_fresh_sound(s);
    if let Some((seq, bytes)) = recovery_target(s) {
        if s.cc.in_recovery {
            lemma_retransmit_sound(s, seq, bytes);
        }
    }
}

pub proof fn lemma_send_lost_sound(s: TcbView)
    requires
        sound(s),
        may_transmit(s.state),
    ensures
        sound(send_lost(s).0),
        only_sent(s, send_lost(s).0),
        send_lost(s).1 ==> send_lost(s).0.rto_deadline is Some,
        outstanding(send_lost(s).0) >= outstanding(s),
{
    reveal(send_lost);
    reveal(lost_taken);
    lemma_send_recovery_sound(s);
    let t = lost_taken(s);
    assert(sound(t) && only_sent(s, t));
    lemma_send_recovery_sound(t);
    if s.cc.in_recovery {
        if let Some((seq, bytes)) = lost_target(t, s.lost[0]) {
            lemma_retransmit_sound(t, seq, bytes);
        }
    }
}

pub proof fn lemma_send_one_sound(s: TcbView)
    requires
        sound(s),
        may_transmit(s.state),
    ensures
        sound(send_one(s).0),
        only_sent(s, send_one(s).0),
        send_one(s).1 ==> send_one(s).0.rto_deadline is Some,
        outstanding(send_one(s).0) >= outstanding(s),
{
    reveal(send_one);
    reveal(recovery_left);
    let t = recovery_left(s);
    assert(sound(t) && only_sent(s, t));
    lemma_send_lost_sound(s);
    lemma_send_lost_sound(t);
}

pub proof fn lemma_send_some_sound(s: TcbView, turns: nat)
    requires
        sound(s),
        may_transmit(s.state),
    ensures
        sound(send_some(s, turns)),
        only_sent(s, send_some(s, turns)),
    decreases turns,
{
    reveal_with_fuel(send_some, 2);
    if turns > 0 {
        lemma_send_one_sound(s);
        lemma_send_some_sound(send_one(s).0, (turns - 1) as nat);
    }
}

/// Sending what may be sent keeps a connection sound.
pub proof fn lemma_send_data_sound(s: TcbView)
    requires
        sound(s),
    ensures
        sound(send_data(s)),
        only_sent(s, send_data(s)),
{
    reveal(send_data);
    if may_transmit(s.state) {
        lemma_send_some_sound(s, TX_RING_CAP as nat + 2);
    }
}

} // verus!
