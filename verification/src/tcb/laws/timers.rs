//! Timers keep a connection sound.

use crate::tcb::laws::frame::only_sent;
use crate::tcb::laws::segments::{
    lemma_emit_synack_send, lemma_relisten_sound, lemma_syn_in_flight_sound,
};
use crate::tcb::laws::sending::{
    lemma_arm_sound, lemma_emit_send, lemma_fire_tlp_sound, lemma_nxt_moved_sound,
    lemma_pure_ack_send, lemma_rack_scan_sound, lemma_send_data_sound,
};
use crate::tcb::laws::soundness::{outstanding, sound};
use crate::tcb::model::{
    collapse, count_timeout, data_opts, due, emit, emit_synack, emit_window_probe, flight,
    given_up, keepalive_counted, may_transmit, nxt_moved, persist_backed_off, rack_disarmed,
    resend_handshake, retry_counted, ring_bytes, rto_gives_up, send_data, send_syn, syn_opts,
    tick_ack, tick_keepalive, tick_persist, tick_rack, tick_rto, tick_time_wait, tick_timers,
    tick_tlp, tick_user_timeout, ticked, tx_full, unsent, user_timer_set, TcbView,
};
use crate::tcb::{DEFAULT_PEER_MSS, RTO_MAX_MS, RTO_MIN_MS};
use crate::wire::flags;
use crate::MSS;
use vstd::prelude::*;

verus! {

/// A packet can be staged while the handshake is under way. A host that takes the
/// staged packets after each call keeps to this.
pub open spec fn handshake_has_room(s: TcbView) -> bool {
    s.state is SynSent || s.state is SynRcvd ==> !tx_full(s)
}

/// A connection that was given up is sound.
pub proof fn lemma_given_up_sound(s: TcbView)
    requires
        s.cap <= 0x4000_0000,
        RTO_MIN_MS <= s.rto_ms <= RTO_MAX_MS,
        s.local_mss == MSS && s.peer_mss >= DEFAULT_PEER_MSS,
        s.cc.cwnd > 0 && (s.cc.in_recovery ==> s.cc.ssthresh > 0),
    ensures
        sound(given_up(s)),
        given_up(s).state is Closed,
{
    reveal(given_up);
}

proof fn lemma_resend_handshake_sound(s: TcbView)
    requires
        sound(s) || (s.state is SynSent || s.state is SynRcvd) && s.cap <= 0x4000_0000 && RTO_MIN_MS
            <= s.rto_ms <= RTO_MAX_MS && s.local_mss == MSS && s.peer_mss >= DEFAULT_PEER_MSS
            && s.cc.cwnd > 0 && s.snd_una == s.iss && outstanding(s) <= 1 && s.send_ring.len() == 0 && !s.fin_sent
            && !s.cc.in_recovery && s.tlp_deadline is None && s.rack_deadline is None
            && s.time_wait_deadline is None,
        handshake_has_room(s),
    ensures
        sound(resend_handshake(s)),
        resend_handshake(s).state is SynSent <==> s.state is SynSent,
        s.state is SynRcvd ==> {
            let st = resend_handshake(s).state;
            st is SynRcvd || st is Listen || st is Closed
        },
        !(s.state is SynSent || s.state is SynRcvd) ==> resend_handshake(s) == s,
{
    reveal(resend_handshake);
    if s.state is SynSent {
        reveal(send_syn);
        let bits = flags::SYN | flags::ECE | flags::CWR;
        lemma_emit_send(s, bits, s.iss, 0, syn_opts(s), Seq::empty());
        lemma_syn_in_flight_sound(emit(s, bits, s.iss, 0, syn_opts(s), Seq::empty()));
    } else if s.state is SynRcvd {
        reveal(retry_counted);
        let t = retry_counted(s);
        lemma_relisten_sound(t);
        lemma_emit_synack_send(t);
        lemma_syn_in_flight_sound(emit_synack(t));
    }
}

pub proof fn lemma_tick_rto_sound(s: TcbView)
    requires
        sound(s),
        handshake_has_room(s),
    ensures
        sound(tick_rto(s)),
        !(s.state is SynRcvd) ==> tick_rto(s).state == s.state,
        s.state is SynRcvd ==> {
            let st = tick_rto(s).state;
            st is SynRcvd || st is Listen || st is Closed
        },
        due(s, s.rto_deadline) && may_transmit(s.state) ==> !tick_rto(s).cc.in_recovery,
{
    reveal(tick_rto);
    if due(s, s.rto_deadline) {
        reveal(count_timeout);
        reveal(collapse);
        let t = collapse(count_timeout(s));
        if !(s.state is SynSent || s.state is SynRcvd) {
            assert(sound(t));
        }
        lemma_resend_handshake_sound(t);
    }
}

pub proof fn lemma_tick_rack_sound(s: TcbView)
    requires
        sound(s),
    ensures
        sound(tick_rack(s)),
        tick_rack(s).state == s.state,
        only_sent(s, tick_rack(s)),
{
    reveal(tick_rack);
    reveal(rack_disarmed);
    if due(s, s.rack_deadline) {
        let t = rack_disarmed(s);
        assert(sound(t) && only_sent(s, t));
        lemma_rack_scan_sound(t);
    }
}

pub proof fn lemma_tick_tlp_sound(s: TcbView)
    requires
        sound(s),
    ensures
        sound(tick_tlp(s)),
        tick_tlp(s).state == s.state,
        only_sent(s, tick_tlp(s)),
{
    reveal(tick_tlp);
    if due(s, s.tlp_deadline) {
        lemma_fire_tlp_sound(s);
    }
}

proof fn lemma_window_probe_sound(s: TcbView)
    requires
        sound(s),
        may_transmit(s.state),
        unsent(s) > 0,
    ensures
        sound(emit_window_probe(s)),
        emit_window_probe(s).state == s.state,
{
    reveal(emit_window_probe);
    assert(!s.fin_sent);
    let b = ring_bytes(s, flight(s) as int, 1);
    let t = emit(s, flags::ACK | flags::PSH, s.snd_nxt, s.rcv_nxt, data_opts(s), b);
    lemma_emit_send(s, flags::ACK | flags::PSH, s.snd_nxt, s.rcv_nxt, data_opts(s), b);
    lemma_nxt_moved_sound(t, 1);
    let u = nxt_moved(t, 1);
    lemma_arm_sound(u, u.snd_nxt);
    crate::tcb::laws::frame::lemma_arm(u, u.snd_nxt);
}

pub proof fn lemma_tick_persist_sound(s: TcbView)
    requires
        sound(s),
    ensures
        sound(tick_persist(s)),
        tick_persist(s).state == s.state,
{
    reveal(tick_persist);
    reveal(persist_backed_off);
    if due(s, s.persist_deadline) && unsent(s) > 0 {
        lemma_window_probe_sound(s);
    }
}

pub proof fn lemma_tick_keepalive_sound(s: TcbView)
    requires
        sound(s),
    ensures
        sound(tick_keepalive(s)),
        tick_keepalive(s).state == s.state || tick_keepalive(s).state is Closed,
{
    reveal(tick_keepalive);
    lemma_given_up_sound(s);
    lemma_emit_send(
        s,
        flags::ACK,
        s.snd_nxt.wrapping_sub(1),
        s.rcv_nxt,
        data_opts(s),
        Seq::empty(),
    );
    reveal(keepalive_counted);
}

pub proof fn lemma_tick_user_timeout_sound(s: TcbView)
    requires
        sound(s),
    ensures
        sound(tick_user_timeout(s)),
        tick_user_timeout(s).state == s.state || tick_user_timeout(s).state is Closed,
{
    reveal(tick_user_timeout);
    reveal(user_timer_set);
    lemma_given_up_sound(s);
}

pub proof fn lemma_tick_timers_sound(s: TcbView)
    requires
        sound(s),
        handshake_has_room(s),
    ensures
        sound(tick_timers(s)),
{
    reveal(tick_timers);
    lemma_tick_rto_sound(s);
    let a = tick_rto(s);
    lemma_tick_rack_sound(a);
    let b = tick_rack(a);
    lemma_tick_tlp_sound(b);
    let c = tick_tlp(b);
    lemma_tick_persist_sound(c);
    let d = tick_persist(c);
    lemma_tick_keepalive_sound(d);
    lemma_tick_user_timeout_sound(tick_keepalive(d));
}

/// The timers keep a connection sound, as long as the handshake has room to send.
pub proof fn law_tick_keeps_sound(s: TcbView)
    requires
        sound(s),
        handshake_has_room(s),
    ensures
        sound(ticked(s)),
{
    reveal(tick_time_wait);
    let t = tick_time_wait(s);
    assert(sound(t));
    assert(count_timeout(t).cap == t.cap && count_timeout(t).rto_ms == t.rto_ms && count_timeout(
        t,
    ).local_mss == t.local_mss && count_timeout(t).peer_mss == t.peer_mss && count_timeout(t).cc
        == t.cc) by {
        reveal(count_timeout);
    }
    lemma_given_up_sound(count_timeout(t));
    if !rto_gives_up(t) {
        lemma_tick_timers_sound(t);
        let u = tick_timers(t);
        lemma_send_data_sound(u);
        reveal(tick_ack);
        lemma_pure_ack_send(send_data(u));
    }
}

} // verus!
