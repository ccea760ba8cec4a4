//! What sending leaves alone.

use crate::send_queue::highest_open;
use crate::tcb::model::{
    ack_sent, arm_persist, arm_rto, arm_rto_if_idle, arm_tlp, begin_recovery, bump_max, charged,
    data_opts, emit, emit_again, emit_fin, emit_new, fin_placed, fire_tlp, flight, lost_queued,
    lost_taken, lost_target, nxt_moved, pure_ack, rack_scan, recovering, recovery_left,
    recovery_target, reo_updated, retransmit, ring_bytes, rto_kept, rxt_noted, send_data,
    send_fresh, send_lost, send_one, send_recovery, send_some, sendable, tlp_disarmed, tlp_spent,
    tlp_target, TcbView,
};
use crate::tx_ring::TX_RING_CAP;
use crate::wire::flags;
use crate::wire::options::OptionsView;
use vstd::prelude::*;

verus! {

/// `t` is `s` after some sending: the endpoints, the state, the settings, the
/// buffers and the receive side are the same, and so is what the peer has
/// acknowledged and offered.
pub open spec fn only_sent(s: TcbView, t: TcbView) -> bool {
    &&& t.cap == s.cap
    &&& t.state == s.state
    &&& t.local == s.local
    &&& t.remote == s.remote
    &&& t.snd_una == s.snd_una
    &&& t.snd_wnd == s.snd_wnd
    &&& t.iss == s.iss
    &&& t.rcv_nxt == s.rcv_nxt
    &&& t.rcv_wnd == s.rcv_wnd
    &&& t.irs == s.irs
    &&& t.local_mss == s.local_mss
    &&& t.peer_mss == s.peer_mss
    &&& t.ts_enabled == s.ts_enabled
    &&& t.ts_recent == s.ts_recent
    &&& t.snd_wscale == s.snd_wscale
    &&& t.rcv_wscale == s.rcv_wscale
    &&& t.ws_offered == s.ws_offered
    &&& t.ecn_enabled == s.ecn_enabled
    &&& t.ce_observed == s.ce_observed
    &&& t.sack_enabled == s.sack_enabled
    &&& t.board == s.board
    &&& t.send_ring == s.send_ring
    &&& t.recv_ring == s.recv_ring
    &&& t.reasm == s.reasm
    &&& t.now_ms == s.now_ms
    &&& t.rto_ms == s.rto_ms
    &&& t.srtt_ms == s.srtt_ms
    &&& t.rttvar_ms == s.rttvar_ms
    &&& t.rtt_first_sample == s.rtt_first_sample
    &&& t.time_wait_deadline == s.time_wait_deadline
    &&& t.error == s.error
    &&& t.is_listener == s.is_listener
    &&& t.syn_rcvd_retries == s.syn_rcvd_retries
    &&& t.rtx_count == s.rtx_count
    &&& t.keepalive_idle_ms == s.keepalive_idle_ms
    &&& t.keepalive_intvl_ms == s.keepalive_intvl_ms
    &&& t.keepalive_count == s.keepalive_count
    &&& t.keepalive_probes == s.keepalive_probes
    &&& t.keepalive_deadline == s.keepalive_deadline
    &&& t.user_timeout_ms == s.user_timeout_ms
    &&& t.user_timeout_deadline == s.user_timeout_deadline
    &&& t.cookie_secret == s.cookie_secret
    &&& t.cookie_secret_set == s.cookie_secret_set
}

pub proof fn lemma_emit(
    s: TcbView,
    bits: u8,
    seq: u32,
    ack: u32,
    opts: OptionsView,
    payload: Seq<u8>,
)
    ensures
        only_sent(s, emit(s, bits, seq, ack, opts, payload)),
{
    reveal(emit);
}

pub proof fn lemma_pure_ack(s: TcbView)
    ensures
        only_sent(s, pure_ack(s)),
{
    reveal(pure_ack);
    reveal(ack_sent);
    lemma_emit(
        s,
        flags::ACK,
        s.snd_nxt,
        s.rcv_nxt,
        data_opts(s),
        Seq::empty(),
    );
}

pub proof fn lemma_arm(s: TcbView, probe: u32)
    ensures
        only_sent(s, arm_rto(s, probe)),
        only_sent(s, arm_rto_if_idle(s, probe)),
        only_sent(s, arm_tlp(s)),
        only_sent(s, ack_sent(s)),
        only_sent(s, bump_max(s)),
{
    reveal(arm_rto);
    reveal(arm_rto_if_idle);
    reveal(arm_tlp);
    reveal(ack_sent);
    reveal(bump_max);
}

pub proof fn lemma_begin_recovery(s: TcbView)
    ensures
        only_sent(s, begin_recovery(s)),
{
    reveal(begin_recovery);
    reveal(recovering);
    lemma_arm(recovering(s, s.snd_max.wrapping_sub(s.snd_una)), s.snd_una);
}

pub proof fn lemma_rack_scan(s: TcbView)
    ensures
        only_sent(s, rack_scan(s)),
{
    reveal(rack_scan);
    reveal(reo_updated);
    reveal(lost_queued);
    lemma_begin_recovery(reo_updated(s));
}

pub proof fn lemma_emit_again(s: TcbView, seq: u32, n: u32)
    ensures
        only_sent(s, emit_again(s, seq, n)),
{
    reveal(emit_again);
    let t = emit(
        s,
        flags::ACK | flags::PSH,
        seq,
        s.rcv_nxt,
        data_opts(s),
        ring_bytes(s, seq.wrapping_sub(s.snd_una) as int, n as int),
    );
    lemma_emit(
        s,
        flags::ACK | flags::PSH,
        seq,
        s.rcv_nxt,
        data_opts(s),
        ring_bytes(s, seq.wrapping_sub(s.snd_una) as int, n as int),
    );
    reveal(charged);
    reveal(rxt_noted);
    let u = rxt_noted(charged(t, seq, n, true), seq, n);
    assert(only_sent(s, u));
    lemma_arm(u, 0);
    let v = ack_sent(u);
    lemma_arm(v, v.snd_max);
    lemma_arm(arm_rto_if_idle(v, v.snd_max), 0);
}

pub proof fn lemma_retransmit(s: TcbView, seq: u32, bytes: int)
    ensures
        only_sent(s, retransmit(s, seq, bytes)),
{
    reveal(retransmit);
    lemma_emit_again(s, seq, crate::tcb::model::buffered(s, seq, bytes) as u32);
}

pub proof fn lemma_fire_tlp(s: TcbView)
    ensures
        only_sent(s, fire_tlp(s)),
{
    reveal(fire_tlp);
    reveal(tlp_disarmed);
    reveal(tlp_spent);
    let t = tlp_disarmed(s);
    if let Some(e) = highest_open(t.sent, t.board.ranges) {
        let (start, bytes) = tlp_target(t, e);
        lemma_retransmit(t, start, bytes);
    }
}

pub proof fn lemma_nxt_moved(s: TcbView, n: u32)
    ensures
        only_sent(s, nxt_moved(s, n)),
{
    reveal(nxt_moved);
    lemma_arm(TcbView { snd_nxt: s.snd_nxt.wrapping_add(n), ..s }, 0);
}

pub proof fn lemma_emit_fin(s: TcbView)
    ensures
        only_sent(s, emit_fin(s)),
{
    reveal(emit_fin);
    reveal(fin_placed);
    let t = emit(s, flags::FIN | flags::ACK, s.snd_nxt, s.rcv_nxt, data_opts(s), Seq::empty());
    lemma_emit(s, flags::FIN | flags::ACK, s.snd_nxt, s.rcv_nxt, data_opts(s), Seq::empty());
    let u = fin_placed(t);
    lemma_nxt_moved(u, 1);
    lemma_arm(nxt_moved(u, 1), 0);
    let v = ack_sent(nxt_moved(u, 1));
    lemma_arm(v, v.snd_nxt);
}

pub proof fn lemma_emit_new(s: TcbView, n: u32)
    ensures
        only_sent(s, emit_new(s, n)),
{
    reveal(emit_new);
    reveal(charged);
    let b = ring_bytes(s, flight(s) as int, n as int);
    let t = emit(s, flags::ACK | flags::PSH, s.snd_nxt, s.rcv_nxt, data_opts(s), b);
    lemma_emit(s, flags::ACK | flags::PSH, s.snd_nxt, s.rcv_nxt, data_opts(s), b);
    lemma_nxt_moved(t, n);
    let u = charged(nxt_moved(t, n), s.snd_nxt, n, false);
    lemma_arm(u, 0);
    let v = ack_sent(u);
    lemma_arm(v, v.snd_nxt);
    lemma_arm(arm_rto_if_idle(v, v.snd_nxt), 0);
}

pub proof fn lemma_send_fresh(s: TcbView)
    ensures
        only_sent(s, send_fresh(s).0),
{
    reveal(send_fresh);
    reveal(arm_persist);
    reveal(rto_kept);
    lemma_emit_fin(s);
    lemma_emit_new(s, sendable(s) as u32);
}

pub proof fn lemma_send_recovery(s: TcbView)
    ensures
        only_sent(s, send_recovery(s).0),
{
    reveal(send_recovery);
    lemma_send_fresh(s);
    if let Some((seq, bytes)) = recovery_target(s) {
        lemma_retransmit(s, seq, bytes);
    }
}

pub proof fn lemma_send_lost(s: TcbView)
    ensures
        only_sent(s, send_lost(s).0),
{
    reveal(send_lost);
    reveal(lost_taken);
    lemma_send_recovery(s);
    lemma_send_recovery(lost_taken(s));
    if let Some((seq, bytes)) = lost_target(lost_taken(s), s.lost[0]) {
        lemma_retransmit(lost_taken(s), seq, bytes);
    }
}

pub proof fn lemma_send_one(s: TcbView)
    ensures
        only_sent(s, send_one(s).0),
{
    reveal(send_one);
    reveal(recovery_left);
    lemma_send_lost(s);
    lemma_send_lost(recovery_left(s));
}

pub proof fn lemma_send_some(s: TcbView, turns: nat)
    ensures
        only_sent(s, send_some(s, turns)),
    decreases turns,
{
    reveal_with_fuel(send_some, 2);
    if turns > 0 {
        lemma_send_one(s);
        lemma_send_some(send_one(s).0, (turns - 1) as nat);
    }
}

pub proof fn lemma_send_data(s: TcbView)
    ensures
        only_sent(s, send_data(s)),
{
    reveal(send_data);
    lemma_send_some(s, TX_RING_CAP as nat + 2);
}

} // verus!
