//! Acknowledgements keep a connection sound, and never take back what was
//! acknowledged.

use crate::seq::{seq_gt, seq_le};
use crate::state::{synchronized, State};
use crate::tcb::laws::frame::only_sent;
use crate::tcb::laws::outbound::{lemma_rack_scan_out, same_out};
use crate::tcb::laws::sending::{
    lemma_begin_recovery_sound, lemma_pure_ack_send, lemma_rack_scan_sound,
};
use crate::tcb::laws::soundness::{all_buffered, at_rest, outstanding, recovery_ok, sound};
use crate::tcb::model::{
    ack_advance, ack_advanced, ack_fin, ack_prune, ack_recovery, ack_repeated, ack_sample,
    ack_timing, arm_rto, count_repeat, data_acked, delivery_credited, delivery_noted, flight,
    note_echo, note_sacks, nxt_caught_up, patience_restored, probe_dropped, pure_ack, rack_scan,
    records_pruned, recovering, recovery_ended, repeat_counted, rto_stopped, rtt_from_echo,
    rtt_from_probe, rtt_sample, rxt_caught_up, sacks_noted, scaled, take_ack, take_window,
    tlp_reset, una_moved, user_timer_restarted, TcbView,
};
use crate::tcb::{DEFAULT_PEER_MSS, RTO_MAX_MS, RTO_MIN_MS};
use crate::wire::SegmentView;
use crate::MSS;
use vstd::prelude::*;

verus! {

/// `t` is `s` after an acknowledgement: the endpoints, the settings and the receive
/// side are the same.
pub open spec fn only_acked(s: TcbView, t: TcbView) -> bool {
    &&& t.cap == s.cap
    &&& t.local == s.local
    &&& t.remote == s.remote
    &&& t.iss == s.iss
    &&& t.rcv_nxt == s.rcv_nxt
    &&& t.rcv_wnd == s.rcv_wnd
    &&& t.irs == s.irs
    &&& t.local_mss == s.local_mss
    &&& t.peer_mss == s.peer_mss
    &&& t.ts_enabled == s.ts_enabled
    &&& t.ts_recent == s.ts_recent
    &&& t.snd_wscale == s.snd_wscale
    &&& t.rcv_wscale == s.rcv_wscale
    &&& t.ws_offered == s.ws_offered
    &&& t.ecn_enabled == s.ecn_enabled
    &&& t.ce_observed == s.ce_observed
    &&& t.sack_enabled == s.sack_enabled
    &&& t.recv_ring == s.recv_ring
    &&& t.reasm == s.reasm
    &&& t.now_ms == s.now_ms
    &&& t.error == s.error
    &&& t.is_listener == s.is_listener
    &&& t.cookie_secret == s.cookie_secret
    &&& t.cookie_secret_set == s.cookie_secret_set
}

/// `st` or the state that it leads to once our FIN is acknowledged.
pub open spec fn fin_step(st: State) -> State {
    match st {
        State::FinWait1 => State::FinWait2,
        State::Closing => State::TimeWait,
        State::LastAck => State::Closed,
        _ => st,
    }
}

pub proof fn lemma_note_sound(s: TcbView, g: SegmentView)
    requires
        sound(s),
        synchronized(s.state),
    ensures
        ({
            let t = note_sacks(note_echo(patience_restored(s), g), g).0;
            &&& sound(t)
            &&& only_acked(s, t)
            &&& t.state == s.state
            &&& t.snd_una == s.snd_una
            &&& t.snd_max == s.snd_max
            &&& t.send_ring == s.send_ring
            &&& t.snd_nxt == s.snd_nxt
            &&& t.fin_sent == s.fin_sent
            &&& t.fin_seq == s.fin_seq
            &&& t.user_timeout_ms == s.user_timeout_ms
            &&& t.user_timeout_deadline == s.user_timeout_deadline
            &&& t.tx == s.tx
        }),
{
    reveal(patience_restored);
    let a = patience_restored(s);
    assert(sound(a));
    reveal(note_echo);
    reveal(recovering);
    let b = note_echo(a, g);
    assert(sound(b));
    reveal(note_sacks);
    reveal(sacks_noted);
}

proof fn lemma_count_repeat_sound(s: TcbView, g: SegmentView)
    requires
        sound(s),
        synchronized(s.state),
    ensures
        sound(count_repeat(s, g)),
        only_sent(s, count_repeat(s, g)),
        same_out(s, count_repeat(s, g)),
{
    reveal(count_repeat);
    reveal(repeat_counted);
    let t = repeat_counted(s);
    lemma_rack_scan_out(s);
    lemma_rack_scan_out(t);
    assert(sound(t) && only_sent(s, t));
    if outstanding(s) > 0 {
        lemma_begin_recovery_sound(s);
        lemma_begin_recovery_sound(t);
    }
}

proof fn lemma_ack_repeated_sound(s: TcbView, g: SegmentView, newly: u32)
    requires
        sound(s),
        synchronized(s.state),
    ensures
        sound(ack_repeated(s, g, newly)),
        only_acked(s, ack_repeated(s, g, newly)),
        ack_repeated(s, g, newly).state == s.state,
        ack_repeated(s, g, newly).snd_una == s.snd_una,
        ack_repeated(s, g, newly).send_ring == s.send_ring,
        ack_repeated(s, g, newly).fin_sent == s.fin_sent,
        ack_repeated(s, g, newly).fin_seq == s.fin_seq,
        ack_repeated(s, g, newly).tx == s.tx,
{
    reveal(ack_repeated);
    lemma_count_repeat_sound(s, g);
    let t = count_repeat(s, g);
    reveal(delivery_credited);
    let u = if newly > 0 {
        delivery_credited(t, newly)
    } else {
        t
    };
    assert(sound(u) && only_sent(s, u) && same_out(s, u));
    lemma_rack_scan_sound(u);
    lemma_rack_scan_out(u);
    reveal(take_window);
}

/// The oldest unacknowledged byte moves within what is outstanding.
pub proof fn lemma_ack_advance_sound(s: TcbView, ack: u32)
    requires
        sound(s),
        synchronized(s.state),
        !seq_gt(ack, s.snd_max),
        !seq_le(ack, s.snd_una),
    ensures
        ({
            let t = ack_advance(s, ack);
            let n = ack.wrapping_sub(s.snd_una);
            &&& 0 < n <= outstanding(s)
            &&& only_acked(s, t)
            &&& t.state == s.state
            &&& t.snd_una == ack
            &&& t.snd_max == s.snd_max
            &&& outstanding(t) == outstanding(s) - n
            &&& flight(t) <= outstanding(t)
            &&& t.fin_sent == s.fin_sent
            &&& t.fin_seq == s.fin_seq
            &&& t.cc.in_recovery == s.cc.in_recovery
            &&& t.cc.recovery_point == s.cc.recovery_point
            &&& t.cc.cwnd > 0
            &&& t.cc.ssthresh == s.cc.ssthresh
            &&& s.fin_sent ==> t.send_ring.len() == 0
            &&& !s.fin_sent ==> t.send_ring == s.send_ring.skip(n as int) && n
                <= s.send_ring.len()
            &&& t.time_wait_deadline == s.time_wait_deadline
            &&& t.rto_ms == s.rto_ms
            &&& t.tx == s.tx
        }),
{
    reveal(ack_advance);
    reveal(una_moved);
    let a = una_moved(s, ack);
    let n = ack.wrapping_sub(s.snd_una);
    assert(0 < n <= outstanding(s));
    reveal(data_acked);
    if !s.fin_sent {
        assert(data_acked(s, ack) == n);
    }
    reveal(user_timer_restarted);
    reveal(nxt_caught_up);
}

/// What an acknowledgement that advances leaves before its timers are set: as
/// [`sound`], but for the timers, and for a FIN that is acknowledged.
spec fn half_acked(t: TcbView) -> bool {
    &&& t.cap <= 0x4000_0000
    &&& t.send_ring.len() <= t.cap
    &&& flight(t) <= outstanding(t)
    &&& recovery_ok(t)
    &&& t.state is Established || t.state is CloseWait ==> all_buffered(t)
    &&& t.state is FinWait1 || t.state is Closing || t.state is LastAck
    ==> all_buffered(t) || t.fin_sent && at_rest(t)
    &&& !(t.state is FinWait2 || t.state is TimeWait)
    &&& synchronized(t.state)
    &&& t.time_wait_deadline is None
    &&& RTO_MIN_MS <= t.rto_ms <= RTO_MAX_MS
    &&& t.local_mss == MSS && t.peer_mss >= DEFAULT_PEER_MSS
    &&& t.cc.cwnd > 0 && (t.cc.in_recovery ==> t.cc.ssthresh > 0)
}

proof fn lemma_ack_records(s: TcbView, acked: u32)
    requires
        s.cap <= 0x4000_0000,
        s.send_ring.len() <= s.cap,
        flight(s) <= outstanding(s),
        synchronized(s.state),
        !(s.state is FinWait2 || s.state is TimeWait),
        s.time_wait_deadline is None,
        RTO_MIN_MS <= s.rto_ms <= RTO_MAX_MS,
        s.local_mss == MSS && s.peer_mss >= DEFAULT_PEER_MSS,
        s.cc.cwnd > 0 && (s.cc.in_recovery ==> s.cc.ssthresh > 0),
        s.cc.in_recovery ==> s.cc.recovery_point.wrapping_sub(s.snd_una) <= outstanding(s)
            || s.snd_una.wrapping_sub(s.cc.recovery_point) <= 0x4000_0000,
        s.state is Established || s.state is CloseWait ==> !s.fin_sent && outstanding(s)
            <= s.send_ring.len(),
        s.state is FinWait1 || s.state is Closing || s.state is LastAck ==> (!s.fin_sent
            && outstanding(s) <= s.send_ring.len()) || s.fin_sent && at_rest(s),
    ensures
        ({
            let t = ack_recovery(ack_prune(s), acked);
            &&& half_acked(t)
            &&& only_acked(s, t)
            &&& t.state == s.state
            &&& t.snd_una == s.snd_una
            &&& t.snd_max == s.snd_max
            &&& t.snd_nxt == s.snd_nxt
            &&& t.send_ring == s.send_ring
            &&& t.fin_sent == s.fin_sent
            &&& t.fin_seq == s.fin_seq
            &&& t.tx == s.tx
        }),
{
    reveal(ack_prune);
    reveal(delivery_noted);
    reveal(records_pruned);
    let a = ack_prune(s);
    reveal(ack_recovery);
    reveal(rxt_caught_up);
    reveal(delivery_credited);
    let b = delivery_credited(rxt_caught_up(a, acked), acked);
    assert(b.cc.in_recovery == s.cc.in_recovery && b.cc.recovery_point == s.cc.recovery_point
        && b.cc.cwnd == s.cc.cwnd && b.cc.ssthresh == s.cc.ssthresh);
    reveal(recovery_ended);
}

proof fn lemma_rack_scan_half(s: TcbView)
    requires
        half_acked(s),
    ensures
        half_acked(rack_scan(s)),
        only_sent(s, rack_scan(s)),
        rack_scan(s).snd_nxt == s.snd_nxt,
        rack_scan(s).snd_max == s.snd_max,
        rack_scan(s).fin_sent == s.fin_sent,
        rack_scan(s).fin_seq == s.fin_seq,
        rack_scan(s).tx == s.tx,
{
    crate::tcb::laws::frame::lemma_rack_scan(s);
    reveal(rack_scan);
    reveal(crate::tcb::model::reo_updated);
    reveal(crate::tcb::model::lost_queued);
    reveal(crate::tcb::model::begin_recovery);
    reveal(crate::tcb::model::recovering);
    reveal(arm_rto);
}

proof fn lemma_ack_sample(s: TcbView, g: SegmentView)
    requires
        RTO_MIN_MS <= s.rto_ms <= RTO_MAX_MS,
    ensures
        RTO_MIN_MS <= ack_sample(s, g).rto_ms <= RTO_MAX_MS,
        only_acked(s, ack_sample(s, g)),
        ({
            let t = ack_sample(s, g);
            &&& t.state == s.state
            &&& t.snd_una == s.snd_una
            &&& t.snd_nxt == s.snd_nxt
            &&& t.snd_max == s.snd_max
            &&& t.send_ring == s.send_ring
            &&& t.fin_sent == s.fin_sent
            &&& t.fin_seq == s.fin_seq
            &&& t.cc == s.cc
            &&& t.tlp_deadline == s.tlp_deadline
            &&& t.time_wait_deadline == s.time_wait_deadline
            &&& t.tx == s.tx
        }),
{
    reveal(ack_sample);
    reveal(rtt_from_echo);
    reveal(rtt_from_probe);
    reveal(probe_dropped);
    reveal(rtt_sample);
}

proof fn lemma_ack_close(s: TcbView, acked: u32, g: SegmentView)
    requires
        half_acked(s),
    ensures
        ({
            let t = take_window(ack_fin(ack_timing(tlp_reset(s, acked), g)), g.window);
            &&& sound(t)
            &&& only_acked(s, t)
            &&& t.state == s.state || t.state == fin_step(s.state)
            &&& t.snd_una == s.snd_una
            &&& t.send_ring == s.send_ring
            &&& t.fin_sent == s.fin_sent
            &&& t.fin_seq == s.fin_seq
            &&& t.tx == s.tx
        }),
{
    reveal(tlp_reset);
    let a = tlp_reset(s, acked);
    lemma_ack_sample(a, g);
    let b = ack_sample(a, g);
    reveal(ack_timing);
    reveal(rto_stopped);
    reveal(arm_rto);
    let c = ack_timing(a, g);
    assert(half_acked(c) && c.tlp_deadline is None && (c.rto_deadline is Some ==> outstanding(c)
        > 0) && (flight(c) > 0 ==> c.rto_deadline is Some));
    reveal(ack_fin);
    let d = ack_fin(c);
    assert(sound(d));
    reveal(take_window);
}

pub proof fn lemma_ack_advanced_sound(s: TcbView, g: SegmentView)
    requires
        sound(s),
        synchronized(s.state),
        !seq_gt(g.ack, s.snd_max),
        !seq_le(g.ack, s.snd_una),
    ensures
        sound(ack_advanced(s, g)),
        only_acked(s, ack_advanced(s, g)),
        ack_advanced(s, g).state == s.state || ack_advanced(s, g).state == fin_step(s.state),
        ack_advanced(s, g).snd_una == g.ack,
        0 < g.ack.wrapping_sub(s.snd_una) <= outstanding(s),
        s.fin_sent ==> ack_advanced(s, g).send_ring.len() == 0,
        !s.fin_sent ==> ack_advanced(s, g).send_ring == s.send_ring.skip(
            g.ack.wrapping_sub(s.snd_una) as int,
        ) && g.ack.wrapping_sub(s.snd_una) <= s.send_ring.len(),
        ack_advanced(s, g).fin_sent == s.fin_sent,
        ack_advanced(s, g).fin_seq == s.fin_seq,
        ack_advanced(s, g).tx == s.tx,
{
    reveal(ack_advanced);
    let acked = g.ack.wrapping_sub(s.snd_una);
    lemma_ack_advance_sound(s, g.ack);
    let a = ack_advance(s, g.ack);
    lemma_ack_records(a, acked);
    let b = ack_recovery(ack_prune(a), acked);
    lemma_rack_scan_half(b);
    let c = rack_scan(b);
    lemma_ack_close(c, acked, g);
}

/// Processing an acknowledgement keeps a connection sound and moves the oldest
/// unacknowledged byte forward if at all, to what is acknowledged.
pub proof fn lemma_take_ack_sound(s: TcbView, g: SegmentView)
    requires
        sound(s),
        synchronized(s.state),
    ensures
        sound(take_ack(s, g)),
        only_acked(s, take_ack(s, g)),
        take_ack(s, g).state == s.state || take_ack(s, g).state == fin_step(s.state),
        take_ack(s, g).snd_una == s.snd_una && take_ack(s, g).send_ring == s.send_ring || (
        take_ack(s, g).snd_una == g.ack && 0 < g.ack.wrapping_sub(s.snd_una) <= outstanding(s) && (
        if s.fin_sent {
            take_ack(s, g).send_ring.len() == 0
        } else {
            g.ack.wrapping_sub(s.snd_una) <= s.send_ring.len() && take_ack(s, g).send_ring
                == s.send_ring.skip(g.ack.wrapping_sub(s.snd_una) as int)
        })),
        take_ack(s, g).fin_sent == s.fin_sent,
        take_ack(s, g).fin_seq == s.fin_seq,
        seq_gt(g.ack, s.snd_max) ==> take_ack(s, g) == pure_ack(s),
        !seq_gt(g.ack, s.snd_max) ==> take_ack(s, g).tx == s.tx,
{
    reveal(take_ack);
    if seq_gt(g.ack, s.snd_max) {
        lemma_pure_ack_send(s);
        crate::tcb::laws::frame::lemma_pure_ack(s);
    } else {
        lemma_note_sound(s, g);
        let (t, newly) = note_sacks(note_echo(patience_restored(s), g), g);
        if seq_le(g.ack, t.snd_una) {
            lemma_ack_repeated_sound(t, g, newly);
        } else {
            lemma_ack_advanced_sound(t, g);
        }
    }
}

/// An acknowledgement of nothing new, or of what was never sent, moves nothing.
pub proof fn lemma_take_ack_stays(s: TcbView, g: SegmentView)
    requires
        sound(s),
        synchronized(s.state),
        seq_gt(g.ack, s.snd_max) || seq_le(g.ack, s.snd_una),
    ensures
        take_ack(s, g).snd_una == s.snd_una,
        take_ack(s, g).send_ring == s.send_ring,
        take_ack(s, g).state == s.state,
        take_ack(s, g).user_timeout_ms == s.user_timeout_ms,
        take_ack(s, g).user_timeout_deadline == s.user_timeout_deadline,
        seq_gt(g.ack, s.snd_max) ==> take_ack(s, g).snd_wnd == s.snd_wnd,
        !seq_gt(g.ack, s.snd_max) ==> take_ack(s, g).snd_wnd == scaled(s, g.window),
{
    reveal(take_ack);
    if seq_gt(g.ack, s.snd_max) {
        crate::tcb::laws::frame::lemma_pure_ack(s);
    } else {
        lemma_note_sound(s, g);
        let (t, newly) = note_sacks(note_echo(patience_restored(s), g), g);
        lemma_ack_repeated_sound(t, g, newly);
        reveal(ack_repeated);
        reveal(take_window);
        let u = count_repeat(t, g);
        lemma_count_repeat_sound(t, g);
        let v = if newly > 0 {
            delivery_credited(u, newly)
        } else {
            u
        };
        assert(v.snd_wscale == u.snd_wscale && v.user_timeout_ms == u.user_timeout_ms
            && v.user_timeout_deadline == u.user_timeout_deadline) by {
            reveal(delivery_credited);
        }
        crate::tcb::laws::frame::lemma_rack_scan(v);
    }
}

} // verus!
