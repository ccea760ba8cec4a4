//! A connection at rest is alive: work that is left always has a timer behind it.

use crate::congestion::credit;
use crate::send_queue::highest_open;
use crate::tcb::laws::frame::{lemma_pure_ack, lemma_send_data};
use crate::tcb::laws::outbound::{lemma_options_fit, lemma_rack_scan_out};
use crate::tcb::laws::records::{
    cursor_ok, lemma_lost_target_within, lemma_next_of_between, on_record, within,
};
use crate::tcb::laws::sending::{lemma_pure_ack_send, lemma_send_data_sound, lemma_send_one_sound};
use crate::tcb::laws::soundness::{consistent, outstanding, sound};
use crate::tcb::laws::timers::{law_tick_keeps_sound, lemma_tick_timers_sound};
use crate::tcb::laws::upkeep::lemma_tick_timers_recorded;
use crate::tcb::model::{
    ack_clock_dead, ack_sent, arm_persist, arm_rto, arm_rto_if_idle, arm_tlp, buffered,
    bump_max, can_retransmit, charged, collapse, count_timeout, data_opts, due, emit,
    emit_again, emit_synack, emit_window_probe, fin_due, fire_tlp, flight, given_up,
    keepalive_counted, lost_taken, lost_target, may_transmit, nxt_moved, payload_mss,
    persist_backed_off, persist_stalled, rack_disarmed, recovery_left, recovery_target,
    relisten, resend_handshake, reset, retransmit, retry_counted, ring_bytes, rto_gives_up,
    rto_kept, rxt_noted, send_data, send_fresh, send_lost, send_one, send_recovery, send_some,
    send_syn, sendable, stall, syn_counted, syn_in_flight, syn_opts, synack_opts, tick_ack,
    tick_keepalive, tick_persist, tick_rack, tick_rto, tick_time_wait, tick_timers, tick_tlp,
    tick_user_timeout, ticked, tlp_disarmed, tlp_spent, tlp_target, tx_full, unpinned,
    user_timer_set, TcbView,
};
use crate::tx_ring::TX_RING_CAP;
use crate::wire::flags;
use vstd::prelude::*;

verus! {

/// A segment has room for payload beside its options.
proof fn lemma_payload_room(s: TcbView)
    requires
        consistent(s),
    ensures
        payload_mss(s) > 0,
{
    reveal(payload_mss);
    lemma_options_fit(s);
}

/// Sending makes progress, or waits for the peer's window with the retransmission
/// timer running.
pub open spec fn moves_on(r: (TcbView, bool)) -> bool {
    r.1 || r.0.rto_deadline is Some
}

/// Everything outstanding has to be sent again, and no timer runs.
pub open spec fn stopped(s: TcbView) -> bool {
    &&& sound(s)
    &&& may_transmit(s.state)
    &&& flight(s) == 0
    &&& outstanding(s) > 0
    &&& !tx_full(s)
}

proof fn lemma_fresh_moves_on(s: TcbView)
    requires
        stopped(s),
        credit(s.cc) > 0,
    ensures
        moves_on(send_fresh(s)),
{
    reveal(send_fresh);
    lemma_payload_room(s);
    if !fin_due(s) {
        assert(!s.fin_sent);
        if s.snd_wnd == 0 {
            reveal(arm_persist);
            reveal(rto_kept);
        } else {
            reveal(sendable);
            assert(sendable(s) > 0);
        }
    }
}

proof fn lemma_recovery_moves_on(s: TcbView)
    requires
        stopped(s),
        cursor_ok(s),
        credit(s.cc) > 0,
        s.cc.in_recovery ==> !s.fin_sent,
    ensures
        moves_on(send_recovery(s)),
{
    reveal(send_recovery);
    lemma_fresh_moves_on(s);
    if s.cc.in_recovery {
        reveal(recovery_target);
        lemma_next_of_between(s.board, s.rxt_seq, s.snd_max, payload_mss(s) as u32);
        if let Some((seq, bytes)) = recovery_target(s) {
            assert(seq.wrapping_sub(s.snd_una) < outstanding(s));
            assert(bytes > 0 ==> buffered(s, seq, bytes) > 0);
        }
    }
}

proof fn lemma_lost_moves_on(s: TcbView)
    requires
        stopped(s),
        on_record(s),
        credit(s.cc) > 0,
        s.cc.in_recovery ==> !s.fin_sent,
    ensures
        moves_on(send_lost(s)),
{
    reveal(send_lost);
    if s.lost.len() == 0 || !s.cc.in_recovery {
        lemma_recovery_moves_on(s);
    } else {
        let t = lost_taken(s);
        assert(stopped(t) && cursor_ok(t) && t.cc == s.cc && t.fin_sent == s.fin_sent && t.snd_wnd
            == s.snd_wnd && t.snd_una == s.snd_una && outstanding(t) == outstanding(s)) by {
            reveal(lost_taken);
        }
        lemma_recovery_moves_on(t);
        assert(within(s.lost[0].1, s.snd_una, outstanding(s)));
        lemma_lost_target_within(t, s.lost[0]);
        if let Some((seq, bytes)) = lost_target(t, s.lost[0]) {
            assert(bytes > 0 ==> buffered(t, seq, bytes) > 0);
        }
    }
}

proof fn lemma_one_moves_on(s: TcbView)
    requires
        stopped(s),
        on_record(s),
        s.rto_deadline is None,
    ensures
        moves_on(send_one(s)),
{
    reveal(send_one);
    assert(s.cc.in_recovery ==> !s.fin_sent);
    if s.cc.in_recovery && s.snd_nxt == s.snd_una && credit(s.cc) == 0 {
        let t = recovery_left(s);
        assert(stopped(t) && on_record(t) && !t.cc.in_recovery && t.snd_wnd == s.snd_wnd) by {
            reveal(recovery_left);
        }
        lemma_lost_moves_on(t);
    } else {
        lemma_lost_moves_on(s);
    }
}

/// Where sending stops, what is outstanding is as before, and a retransmission
/// timer that ran still runs.
proof fn lemma_stop_changes_little(s: TcbView)
    ensures
        !send_one(s).1 ==> {
            let t = send_one(s).0;
            &&& s.rto_deadline is Some ==> t.rto_deadline is Some
            &&& t.snd_max == s.snd_max
            &&& t.snd_una == s.snd_una
        },
{
    reveal(send_one);
    reveal(recovery_left);
    reveal(send_lost);
    reveal(lost_taken);
    reveal(send_recovery);
    reveal(send_fresh);
    reveal(arm_persist);
    reveal(rto_kept);
    reveal(retransmit);
}

/// Once the retransmission timer runs, sending keeps it running.
proof fn lemma_some_keeps_rto(s: TcbView, turns: nat)
    requires
        sound(s),
        may_transmit(s.state),
        s.rto_deadline is Some,
    ensures
        send_some(s, turns).rto_deadline is Some,
    decreases turns,
{
    reveal_with_fuel(send_some, 2);
    if turns > 0 && !tx_full(s) {
        lemma_send_one_sound(s);
        lemma_stop_changes_little(s);
        if send_one(s).1 {
            lemma_some_keeps_rto(send_one(s).0, (turns - 1) as nat);
        }
    }
}

/// After sending as much as may be sent, either nothing is outstanding or the
/// retransmission timer runs.
proof fn lemma_send_data_alive(s: TcbView)
    requires
        sound(s),
        on_record(s),
        may_transmit(s.state),
        !tx_full(s),
    ensures
        ({
            let t = send_data(s);
            ||| t.rto_deadline is Some
            ||| outstanding(t) == 0
        }),
{
    reveal(send_data);
    let turns = TX_RING_CAP as nat + 2;
    reveal_with_fuel(send_some, 2);
    lemma_send_one_sound(s);
    lemma_stop_changes_little(s);
    let (t, more) = send_one(s);
    if s.rto_deadline is Some {
        lemma_some_keeps_rto(s, turns);
    } else if more {
        lemma_some_keeps_rto(t, (turns - 1) as nat);
    } else if outstanding(s) > 0 {
        lemma_one_moves_on(s);
    }
}

/// A data-less established connection under a closed window has its persist timer
/// running after sending.
proof fn lemma_send_data_persists(s: TcbView)
    requires
        sound(s),
        s.state is Established || s.state is CloseWait,
        !tx_full(s),
        s.snd_wnd == 0,
        outstanding(s) == 0,
        s.send_ring.len() > 0,
    ensures
        send_data(s).persist_deadline is Some,
{
    reveal(send_data);
    reveal_with_fuel(send_some, 2);
    reveal(send_one);
    reveal(send_lost);
    reveal(send_recovery);
    reveal(send_fresh);
    reveal(arm_persist);
    reveal(rto_kept);
    assert(!s.cc.in_recovery);
}

/// At most `n` more packets are staged.
pub open spec fn few_staged(s: TcbView, t: TcbView, n: int) -> bool {
    t.tx.len() <= s.tx.len() + n
}

proof fn lemma_emit_stages(
    s: TcbView,
    bits: u8,
    seq: u32,
    ack: u32,
    opts: crate::wire::options::OptionsView,
    payload: Seq<u8>,
)
    ensures
        few_staged(s, emit(s, bits, seq, ack, opts, payload), 1),
{
    reveal(emit);
}

proof fn lemma_tick_rto_stages(s: TcbView)
    ensures
        few_staged(s, tick_rto(s), 1),
{
    reveal(tick_rto);
    if due(s, s.rto_deadline) {
        let t = collapse(count_timeout(s));
        assert(t.tx == s.tx) by {
            reveal(count_timeout);
            reveal(collapse);
        }
        reveal(resend_handshake);
        reveal(retry_counted);
        let u = retry_counted(t);
        reveal(relisten);
        reveal(unpinned);
        reveal(reset);
        reveal(send_syn);
        let bits = flags::SYN | flags::ECE | flags::CWR;
        lemma_emit_stages(t, bits, t.iss, 0, syn_opts(t), Seq::empty());
        reveal(emit_synack);
        let sa = flags::SYN | flags::ACK | (if u.ecn_enabled {
            flags::ECE
        } else {
            0u8
        });
        lemma_emit_stages(u, sa, u.iss, u.rcv_nxt, synack_opts(u), Seq::empty());
        reveal(syn_in_flight);
        reveal(syn_counted);
        reveal(bump_max);
        reveal(arm_rto);
    }
}

proof fn lemma_tick_tlp_stages(s: TcbView)
    ensures
        few_staged(s, tick_tlp(s), 1),
{
    reveal(tick_tlp);
    reveal(fire_tlp);
    reveal(tlp_disarmed);
    reveal(tlp_spent);
    let t = tlp_disarmed(s);
    if let Some(e) = highest_open(t.sent, t.board.ranges) {
        let (start, bytes) = tlp_target(t, e);
        reveal(retransmit);
        if can_retransmit(t, start, bytes) {
            let n = buffered(t, start, bytes) as u32;
            let b = ring_bytes(t, start.wrapping_sub(t.snd_una) as int, n as int);
            lemma_emit_stages(t, flags::ACK | flags::PSH, start, t.rcv_nxt, data_opts(t), b);
            reveal(emit_again);
            reveal(charged);
            reveal(rxt_noted);
            reveal(ack_sent);
            reveal(arm_rto_if_idle);
            reveal(arm_rto);
            reveal(arm_tlp);
        }
    }
}

proof fn lemma_tick_persist_stages(s: TcbView)
    ensures
        few_staged(s, tick_persist(s), 1),
{
    reveal(tick_persist);
    reveal(persist_backed_off);
    reveal(emit_window_probe);
    let b = ring_bytes(s, flight(s) as int, 1);
    lemma_emit_stages(s, flags::ACK | flags::PSH, s.snd_nxt, s.rcv_nxt, data_opts(s), b);
    reveal(nxt_moved);
    reveal(bump_max);
    reveal(arm_rto_if_idle);
    reveal(arm_rto);
}

proof fn lemma_tick_limits_stage(s: TcbView)
    ensures
        few_staged(s, tick_user_timeout(tick_keepalive(s)), 1),
{
    reveal(tick_keepalive);
    reveal(tick_user_timeout);
    reveal(keepalive_counted);
    reveal(user_timer_set);
    reveal(given_up);
    let p = s.snd_nxt.wrapping_sub(1);
    lemma_emit_stages(s, flags::ACK, p, s.rcv_nxt, data_opts(s), Seq::empty());
}

/// The timers leave room to send.
proof fn lemma_tick_timers_leave_room(s: TcbView)
    requires
        s.tx.len() == 0,
    ensures
        !tx_full(tick_timers(s)),
{
    reveal(tick_timers);
    lemma_tick_rto_stages(s);
    let b = tick_rto(s);
    let c = tick_rack(b);
    let d = tick_tlp(c);
    let e = tick_persist(d);
    assert(few_staged(b, c, 0)) by {
        reveal(tick_rack);
        reveal(rack_disarmed);
        lemma_rack_scan_out(rack_disarmed(b));
    }
    lemma_tick_tlp_stages(c);
    lemma_tick_persist_stages(d);
    lemma_tick_limits_stage(e);
}

/// No dead acknowledgement clock: once a host has taken what was staged and driven
/// the timers, what is outstanding has a timer that will send it again.
pub proof fn law_outstanding_data_has_a_timer(s: TcbView)
    requires
        sound(s),
        on_record(s),
        s.tx.len() == 0,
    ensures
        !ack_clock_dead(ticked(s)),
{
    law_tick_keeps_sound(s);
    let a = tick_time_wait(s);
    assert(sound(a) && on_record(a) && a.tx == s.tx) by {
        reveal(tick_time_wait);
    }
    if rto_gives_up(a) {
        reveal(given_up);
    } else {
        lemma_tick_timers_sound(a);
        lemma_tick_timers_recorded(a);
        lemma_tick_timers_leave_room(a);
        let t = tick_timers(a);
        if may_transmit(t.state) {
            lemma_send_data_alive(t);
            let u = send_data(t);
            lemma_send_data(t);
            lemma_pure_ack_send(u);
            lemma_pure_ack(u);
            reveal(tick_ack);
        } else if !(t.state is Closed) {
            lemma_send_data(t);
            reveal(send_data);
            lemma_pure_ack_send(t);
            reveal(tick_ack);
        }
    }
}

/// No stalled persist: once a host has taken what was staged and driven the timers,
/// data that waits under a closed window, with nothing in flight, has the persist
/// timer running.
pub proof fn law_closed_window_has_a_timer(s: TcbView)
    requires
        sound(s),
        on_record(s),
        s.tx.len() == 0,
    ensures
        !persist_stalled(ticked(s)),
{
    law_tick_keeps_sound(s);
    let a = tick_time_wait(s);
    assert(sound(a) && on_record(a) && a.tx == s.tx) by {
        reveal(tick_time_wait);
    }
    if rto_gives_up(a) {
        reveal(given_up);
    } else {
        lemma_tick_timers_sound(a);
        lemma_tick_timers_leave_room(a);
        let t = tick_timers(a);
        if !(t.state is Closed) {
            lemma_send_data_sound(t);
            lemma_send_data(t);
            let u = send_data(t);
            lemma_pure_ack_send(u);
            lemma_pure_ack(u);
            reveal(tick_ack);
            if persist_stalled(ticked(s)) {
                assert(outstanding(u) == 0);
                if outstanding(t) == 0 {
                    lemma_send_data_persists(t);
                } else {
                    lemma_outstanding_stays(t);
                }
            }
        }
    }
}

/// Sending acknowledges nothing.
proof fn lemma_outstanding_stays(s: TcbView)
    requires
        sound(s),
    ensures
        outstanding(send_data(s)) >= outstanding(s),
{
    reveal(send_data);
    if may_transmit(s.state) {
        lemma_some_grows(s, TX_RING_CAP as nat + 2);
    }
}

proof fn lemma_some_grows(s: TcbView, turns: nat)
    requires
        sound(s),
        may_transmit(s.state),
    ensures
        outstanding(send_some(s, turns)) >= outstanding(s),
    decreases turns,
{
    reveal_with_fuel(send_some, 2);
    if turns > 0 {
        lemma_send_one_sound(s);
        lemma_some_grows(send_one(s).0, (turns - 1) as nat);
    }
}

/// A connection at rest is not stalled: its host has taken what was staged and
/// driven the timers, and nothing is staged.
pub proof fn law_connection_at_rest_is_alive(s: TcbView)
    requires
        sound(s),
        on_record(s),
        s.tx.len() == 0,
    ensures
        stall(ticked(s)) is None,
{
    law_outstanding_data_has_a_timer(s);
    law_closed_window_has_a_timer(s);
}

} // verus!
