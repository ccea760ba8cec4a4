//! How long a connection waits for a silent peer: keepalive probes and the user
//! timeout.

use crate::error::TcpError;
use crate::num::{max, min};
use crate::reassembly::{first_starting, MAX_HOLES};
use crate::send_queue::highest_open;
use crate::seq::{seq_gt, seq_le};
use crate::state::synchronized;
use crate::tcb::laws::acking::{lemma_ack_advanced_sound, lemma_note_sound, lemma_take_ack_stays};
use crate::tcb::laws::calls::{
    law_recv_keeps_sound, law_send_keeps_sound, law_settings_keep_sound,
};
use crate::tcb::laws::frame::{lemma_pure_ack, lemma_send_data};
use crate::tcb::laws::outbound::{lemma_options_fit, lemma_rack_scan_out, options_fit};
use crate::tcb::laws::segments::{
    law_inbound_keeps_sound, lemma_answer_send, lemma_take_payload_send,
};
use crate::tcb::laws::sending::lemma_same_send;
use crate::tcb::laws::soundness::{outstanding, sound};
use crate::tcb::laws::timers::{
    law_tick_keeps_sound, lemma_tick_persist_sound, lemma_tick_rack_sound, lemma_tick_rto_sound,
    lemma_tick_tlp_sound,
};
use crate::tcb::model::{
    accept, ack_advance, ack_sent, answer, app_recv, app_recv_len, app_send, arm_persist, arm_rto,
    arm_rto_if_idle, arm_tlp, begin_recovery, buffered, bump_max, can_retransmit, charged, collapse,
    count_timeout, data_buffered, data_opts, data_read, datagram_out, drain, drain_runs, due, emit,
    emit_again, emit_window_probe, feedback, fin_due, fin_received, fire_tlp, flight, for_us,
    given_up, has_work, injected, is_idle, keepalive_counted, keepalive_set, lost_queued,
    may_transmit, note_echo, note_marks, note_sacks, nxt_caught_up, nxt_moved, on_reset, on_segment,
    on_synchronised, patience_restored, payload_mss, peer_alive, persist_backed_off, rack_disarmed,
    rack_scan, received, recovering, refuse, reo_updated, resend_handshake, reset_by_peer,
    retransmit, ring_bytes, rto_gives_up, rto_kept, run_drained, rxt_noted, segment_out, send_data,
    send_fresh, send_lost, send_one, send_recovery, send_some, send_syn, sendable, set_aside,
    syn_counted, syn_in_flight, syn_opts, take_ack, take_fin, take_in_order, take_payload, tick_ack,
    tick_keepalive, tick_persist, tick_rack, tick_rto, tick_time_wait, tick_timers, tick_tlp,
    tick_user_timeout, ticked, tlp_disarmed, tlp_spent, tlp_target, tx_full, una_moved, unsent,
    user_timeout_set, user_timer_restarted, user_timer_set, window_updated, TcbView,
};
use crate::wire::options::OptionsView;
use crate::wire::{flags, law_emit_then_parse_round_trip, packet, parse_packet, SegmentView};
use crate::MSS;
use vstd::prelude::*;

verus! {

/// The connection is established, has nothing to send and owes no acknowledgement.
pub open spec fn quiet(s: TcbView) -> bool {
    &&& sound(s)
    &&& is_idle(s)
    &&& s.rack_deadline is None
    &&& s.persist_deadline is None
    &&& !s.pending_ack
}

/// A quiet connection sends nothing.
proof fn lemma_quiet_sends_nothing(s: TcbView)
    requires
        quiet(s),
    ensures
        send_data(s) == s,
{
    reveal(send_data);
    reveal_with_fuel(send_some, 2);
    reveal(send_one);
    reveal(send_lost);
    reveal(send_recovery);
    reveal(send_fresh);
    reveal(arm_persist);
    reveal(rto_kept);
    reveal(sendable);
    assert(outstanding(s) == 0 && flight(s) == 0 && unsent(s) == 0);
    assert(!s.cc.in_recovery);
    assert(!fin_due(s));
}

/// Of the timers only the keepalive timer does anything to a quiet connection.
proof fn lemma_quiet_tick(s: TcbView)
    requires
        quiet(s),
    ensures
        ticked(s) == user_timer_set(tick_keepalive(s), None),
        tick_keepalive(s).state is Closed || quiet(ticked(s)),
{
    assert(outstanding(s) == 0);
    reveal(tick_time_wait);
    reveal(tick_timers);
    reveal(tick_rto);
    reveal(tick_rack);
    reveal(tick_tlp);
    reveal(tick_persist);
    let k = tick_keepalive(s);
    assert(tick_timers(s) == user_timer_set(k, None) && (k.state is Closed || quiet(k))) by {
        crate::tcb::laws::timers::lemma_tick_keepalive_sound(s);
        reveal(tick_keepalive);
        reveal(keepalive_counted);
        reveal(emit);
        reveal(given_up);
        reveal(tick_user_timeout);
    }
    let t = user_timer_set(k, None);
    assert(t.state == k.state && (quiet(k) ==> quiet(t))) by {
        reveal(user_timer_set);
    }
    if !(k.state is Closed) {
        lemma_quiet_sends_nothing(t);
        reveal(tick_ack);
    }
}

/// Before its time no probe is sent: a quiet connection stays as it is, whatever the
/// clock says.
pub proof fn law_no_probe_before_its_time(s: TcbView)
    requires
        quiet(s),
        !due(s, s.keepalive_deadline),
    ensures
        quiet(ticked(s)),
        ticked(s).tx == s.tx,
        ticked(s).keepalive_probes == s.keepalive_probes,
        ticked(s).keepalive_deadline == s.keepalive_deadline,
{
    lemma_quiet_tick(s);
    reveal(tick_keepalive);
    reveal(user_timer_set);
}

/// Without an idle time there is no keepalive timer and never a probe.
pub proof fn law_keepalive_can_be_off(s: TcbView, intvl_ms: u32, count: u8)
    ensures
        keepalive_set(s, 0, intvl_ms, count).keepalive_idle_ms == 0,
        keepalive_set(s, 0, intvl_ms, count).keepalive_deadline is None,
        s.keepalive_idle_ms == 0 ==> tick_keepalive(s) == s,
        s.keepalive_idle_ms == 0 && quiet(s) ==> {
            let t = ticked(s);
            &&& quiet(t)
            &&& t.tx == s.tx
            &&& t.keepalive_idle_ms == 0
            &&& t.keepalive_deadline == s.keepalive_deadline
        },
{
    reveal(keepalive_set);
    reveal(tick_keepalive);
    if s.keepalive_idle_ms == 0 && quiet(s) {
        lemma_quiet_tick(s);
        reveal(user_timer_set);
    }
}

/// The connection at its next keepalive deadline, its host having taken what was
/// staged.
pub open spec fn at_deadline(s: TcbView) -> TcbView {
    TcbView { now_ms: s.keepalive_deadline->0, tx: Seq::empty(), ..s }
}

/// The connection after the timers were driven at `k` keepalive deadlines, one after
/// the other, while the peer was silent.
pub open spec fn probed(s: TcbView, k: nat) -> TcbView
    decreases k,
{
    if k == 0 {
        s
    } else {
        ticked(at_deadline(probed(s, (k - 1) as nat)))
    }
}

/// The keepalive probe: no data, at the last sequence number that was acknowledged.
pub open spec fn probe_of(s: TcbView) -> Seq<u8> {
    datagram_out(
        s,
        flags::ACK,
        s.snd_nxt.wrapping_sub(1),
        s.rcv_nxt,
        data_opts(s),
        Seq::empty(),
    )
}

/// One keepalive deadline of a silent peer: another probe, or the end.
proof fn lemma_probe(s: TcbView)
    requires
        quiet(s),
        s.keepalive_idle_ms != 0,
        due(s, s.keepalive_deadline),
        !tx_full(s),
    ensures
        s.keepalive_probes < s.keepalive_count ==> {
            let t = ticked(s);
            &&& quiet(t)
            &&& t.tx == s.tx.push(probe_of(s))
            &&& t.keepalive_probes == s.keepalive_probes + 1
            &&& t.keepalive_deadline == Some(s.now_ms.wrapping_add(s.keepalive_intvl_ms as u64))
            &&& t.keepalive_idle_ms == s.keepalive_idle_ms
            &&& t.keepalive_intvl_ms == s.keepalive_intvl_ms
            &&& t.keepalive_count == s.keepalive_count
            &&& t.snd_nxt == s.snd_nxt
        },
        s.keepalive_probes >= s.keepalive_count ==> {
            let t = ticked(s);
            &&& t.state is Closed
            &&& t.error == Some(TcpError::ConnectionReset)
            &&& t.tx == s.tx
        },
{
    lemma_quiet_tick(s);
    reveal(tick_keepalive);
    reveal(keepalive_counted);
    reveal(emit);
    reveal(given_up);
    reveal(user_timer_set);
}

/// The keepalive schedule of a connection that falls quiet at its setting up: the first
/// deadline comes after the idle time, each later one after the interval. At each of
/// the first `count` of them one probe is sent, and nothing else; at the next one the
/// connection is closed and has failed, and the peer is not told.
pub proof fn law_keepalive_schedule(s: TcbView, idle_ms: u32, intvl_ms: u32, count: u8, k: nat)
    requires
        quiet(s),
        idle_ms != 0,
        s.now_ms + idle_ms + (count + 1) * max(intvl_ms as int, 1) <= u64::MAX,
        k <= count + 1,
    ensures
        ({
            let start = keepalive_set(s, idle_ms, intvl_ms, count);
            let t = probed(start, k);
            &&& start.keepalive_deadline == Some((s.now_ms + idle_ms) as u64)
            &&& k <= count ==> {
                &&& t.state is Established
                &&& t.error == s.error
                &&& t.keepalive_deadline == Some(
                    (s.now_ms + idle_ms + k * max(intvl_ms as int, 1)) as u64,
                )
            }
            &&& 0 < k <= count ==> t.tx == seq![
                probe_of(at_deadline(probed(start, (k - 1) as nat))),
            ] && t.snd_nxt == s.snd_nxt
            &&& k == count + 1 ==> {
                &&& t.state is Closed
                &&& t.error == Some(TcpError::ConnectionReset)
                &&& t.tx.len() == 0
            }
        }),
{
    lemma_schedule(s, idle_ms, intvl_ms, count, k);
}

/// What [`law_keepalive_schedule`] states, with what the next deadline needs.
proof fn lemma_schedule(s: TcbView, idle_ms: u32, intvl_ms: u32, count: u8, k: nat)
    requires
        quiet(s),
        idle_ms != 0,
        s.now_ms + idle_ms + (count + 1) * max(intvl_ms as int, 1) <= u64::MAX,
        k <= count + 1,
    ensures
        ({
            let start = keepalive_set(s, idle_ms, intvl_ms, count);
            let t = probed(start, k);
            let gap = max(intvl_ms as int, 1);
            &&& start.keepalive_deadline == Some((s.now_ms + idle_ms) as u64)
            &&& k <= count ==> {
                &&& quiet(t)
                &&& t.error == s.error
                &&& t.snd_nxt == s.snd_nxt
                &&& t.keepalive_idle_ms == idle_ms
                &&& t.keepalive_intvl_ms == gap
                &&& t.keepalive_count == count
                &&& t.keepalive_probes == k
                &&& t.keepalive_deadline == Some((s.now_ms + idle_ms + k * gap) as u64)
            }
            &&& 0 < k <= count ==> t.tx == seq![
                probe_of(at_deadline(probed(start, (k - 1) as nat))),
            ]
            &&& k == count + 1 ==> {
                &&& t.state is Closed
                &&& t.error == Some(TcpError::ConnectionReset)
                &&& t.tx.len() == 0
            }
        }),
    decreases k,
{
    let start = keepalive_set(s, idle_ms, intvl_ms, count);
    let gap = max(intvl_ms as int, 1);
    law_settings_keep_sound(s, idle_ms, intvl_ms, count, 0, 0);
    reveal(keepalive_set);
    assert(quiet(start));
    assert(k * gap <= (count + 1) * gap) by (nonlinear_arith)
        requires
            k <= count + 1,
            gap >= 1,
    ;
    if k == 0 {
        assert(0 * gap == 0);
        assert(s.now_ms + idle_ms <= u64::MAX);
    } else {
        lemma_schedule(s, idle_ms, intvl_ms, count, (k - 1) as nat);
        let p = probed(start, (k - 1) as nat);
        let a = at_deadline(p);
        assert(quiet(a));
        assert((k - 1) * gap + gap == k * gap) by (nonlinear_arith);
        lemma_probe(a);
        assert(a.tx.push(probe_of(a)) =~= seq![probe_of(a)]);
        assert(probed(start, k) == ticked(a));
        assert(a.error == s.error);
        if k <= count {
            assert(ticked(a).error == a.error) by {
                lemma_quiet_tick(a);
                reveal(tick_keepalive);
                reveal(keepalive_counted);
                reveal(emit);
                reveal(user_timer_set);
            }
        }
    }
}

/// The datagram carries no reset.
pub open spec fn no_reset(b: Seq<u8>) -> bool {
    parse_packet(b) matches Some(g) ==> !g.has(flags::RST)
}

/// What `s` has staged `t` has staged too, and nothing beyond it is a reset.
pub open spec fn adds_no_reset(s: TcbView, t: TcbView) -> bool {
    &&& s.tx.len() <= t.tx.len()
    &&& forall|i: int| 0 <= i < s.tx.len() ==> #[trigger] t.tx[i] == s.tx[i]
    &&& forall|i: int| s.tx.len() <= i < t.tx.len() ==> no_reset(#[trigger] t.tx[i])
}

/// The addresses are addresses, and the segment size is one that packets have room for.
pub open spec fn addressed(s: TcbView) -> bool {
    s.local.ip.len() == 4 && s.remote.ip.len() == 4 && s.local_mss <= MSS
}

proof fn lemma_emit_adds_no_reset(
    s: TcbView,
    bits: u8,
    seq: u32,
    ack: u32,
    opts: OptionsView,
    payload: Seq<u8>,
)
    requires
        addressed(s),
        options_fit(opts),
        payload.len() <= MSS,
        bits & flags::RST == 0,
    ensures
        adds_no_reset(s, emit(s, bits, seq, ack, opts, payload)),
{
    reveal(emit);
    if !tx_full(s) {
        let g = segment_out(s, bits, seq, ack, opts, payload);
        reveal(datagram_out);
        reveal(segment_out);
        reveal(feedback);
        assert((bits | 0x40u8) & 0x04u8 == bits & 0x04u8 && ((bits | 0x40u8) | 0x80u8) & 0x04u8
            == bits & 0x04u8 && (bits | 0x80u8) & 0x04u8 == bits & 0x04u8) by (bit_vector);
        law_emit_then_parse_round_trip(g, s.ip_id, Seq::empty());
        assert(packet(g, s.ip_id) + Seq::<u8>::empty() =~= packet(g, s.ip_id));
    }
}

proof fn lemma_tlp_adds_no_reset(s: TcbView)
    requires
        addressed(s),
    ensures
        adds_no_reset(s, tick_tlp(s)),
        tick_tlp(s).snd_max == s.snd_max,
{
    reveal(tick_tlp);
    reveal(fire_tlp);
    reveal(tlp_disarmed);
    reveal(tlp_spent);
    let t = tlp_disarmed(s);
    if let Some(e) = highest_open(t.sent, t.board.ranges) {
        let (start, bytes) = tlp_target(t, e);
        assert(bytes <= MSS) by {
            reveal(tlp_target);
            reveal(payload_mss);
        }
        reveal(retransmit);
        if can_retransmit(t, start, bytes) {
            let n = buffered(t, start, bytes) as u32;
            let b = ring_bytes(t, start.wrapping_sub(t.snd_una) as int, n as int);
            lemma_options_fit(t);
            assert((0x10u8 | 0x08u8) & 0x04u8 == 0) by (bit_vector);
            lemma_emit_adds_no_reset(
                t,
                flags::ACK | flags::PSH,
                start,
                t.rcv_nxt,
                data_opts(t),
                b,
            );
            reveal(emit_again);
            reveal(emit);
            reveal(charged);
            reveal(rxt_noted);
            reveal(ack_sent);
            reveal(arm_rto_if_idle);
            reveal(arm_rto);
            reveal(arm_tlp);
        }
    }
}

proof fn lemma_persist_adds_no_reset(s: TcbView)
    requires
        addressed(s),
    ensures
        adds_no_reset(s, tick_persist(s)),
{
    reveal(tick_persist);
    reveal(persist_backed_off);
    reveal(emit_window_probe);
    if unsent(s) > 0 {
        lemma_options_fit(s);
        assert((0x10u8 | 0x08u8) & 0x04u8 == 0) by (bit_vector);
        lemma_emit_adds_no_reset(
            s,
            flags::ACK | flags::PSH,
            s.snd_nxt,
            s.rcv_nxt,
            data_opts(s),
            ring_bytes(s, flight(s) as int, 1),
        );
        reveal(nxt_moved);
        reveal(bump_max);
        reveal(arm_rto_if_idle);
        reveal(arm_rto);
    }
}

/// What the user timeout goes by is the same, and nothing staged is a reset.
spec fn undecided(s: TcbView, t: TcbView) -> bool {
    &&& t.state == s.state
    &&& t.now_ms == s.now_ms
    &&& t.user_timeout_ms == s.user_timeout_ms
    &&& t.user_timeout_deadline == s.user_timeout_deadline
    &&& t.local == s.local
    &&& t.remote == s.remote
    &&& t.local_mss == s.local_mss
    &&& has_work(s) ==> has_work(t)
    &&& adds_no_reset(s, t)
}

/// Something may be left to do for the connection, and the timers do not take its place
/// away: a half-open connection gives it back when its own retries are spent.
pub open spec fn may_be_stuck(s: TcbView) -> bool {
    ||| may_transmit(s.state)
    ||| s.state is SynSent && !tx_full(s)
    ||| s.state is SynRcvd && !tx_full(s) && !due(s, s.rto_deadline)
}

/// A retransmission timeout decides nothing about the user timeout.
proof fn lemma_rto_undecided(s: TcbView)
    requires
        sound(s),
        may_be_stuck(s),
        addressed(s),
    ensures
        undecided(s, tick_rto(s)),
{
    reveal(tick_rto);
    if due(s, s.rto_deadline) {
        reveal(resend_handshake);
        reveal(count_timeout);
        reveal(collapse);
        let t = collapse(count_timeout(s));
        if s.state is SynSent {
            lemma_options_fit(t);
            assert((0x02u8 | 0x40u8 | 0x80u8) & 0x04u8 == 0) by (bit_vector);
            let bits = flags::SYN | flags::ECE | flags::CWR;
            lemma_emit_adds_no_reset(t, bits, t.iss, 0, syn_opts(t), Seq::empty());
            reveal(send_syn);
            reveal(emit);
            reveal(syn_in_flight);
            reveal(syn_counted);
            reveal(bump_max);
            reveal(arm_rto);
        }
    }
}

/// The timers before the user timeout decide nothing about it.
proof fn lemma_timers_undecided(s: TcbView)
    requires
        sound(s),
        may_be_stuck(s),
        addressed(s),
    ensures
        undecided(s, tick_persist(tick_tlp(tick_rack(tick_rto(s))))),
{
    let b = tick_rto(s);
    lemma_tick_rto_sound(s);
    lemma_rto_undecided(s);
    let c = tick_rack(b);
    lemma_tick_rack_sound(b);
    assert(undecided(b, c)) by {
        reveal(tick_rack);
        reveal(rack_disarmed);
        lemma_rack_scan_out(rack_disarmed(b));
        reveal(rack_scan);
        reveal(reo_updated);
        reveal(begin_recovery);
        reveal(recovering);
        reveal(arm_rto);
        reveal(lost_queued);
    }
    let d = tick_tlp(c);
    lemma_tick_tlp_sound(c);
    lemma_tlp_adds_no_reset(c);
    assert(undecided(c, d));
    let e = tick_persist(d);
    lemma_tick_persist_sound(d);
    lemma_persist_adds_no_reset(d);
    assert(undecided(d, e)) by {
        reveal(tick_persist);
        reveal(persist_backed_off);
        reveal(emit_window_probe);
        reveal(emit);
        reveal(nxt_moved);
        reveal(bump_max);
        reveal(arm_rto_if_idle);
        reveal(arm_rto);
    }
    lemma_undecided_joins(s, b, c);
    lemma_undecided_joins(s, c, d);
    lemma_undecided_joins(s, d, e);
}

proof fn lemma_undecided_joins(s: TcbView, t: TcbView, u: TcbView)
    requires
        undecided(s, t),
        undecided(t, u),
    ensures
        undecided(s, u),
{
    assert forall|i: int| s.tx.len() <= i < u.tx.len() implies no_reset(#[trigger] u.tx[i]) by {
        if i < t.tx.len() {
            assert(u.tx[i] == t.tx[i]);
        }
    }
    assert forall|i: int| 0 <= i < s.tx.len() implies #[trigger] u.tx[i] == s.tx[i] by {
        assert(u.tx[i] == t.tx[i] && t.tx[i] == s.tx[i]);
    }
}

/// Setting the user timeout arms it from now on if there is work, and stops it if there
/// is none or the time is zero.
pub proof fn law_user_timeout_is_armed_for_work(s: TcbView, ms: u32)
    ensures
        ms != 0 && has_work(s) ==> user_timeout_set(s, ms).user_timeout_deadline == Some(
            s.now_ms.wrapping_add(ms as u64),
        ),
        ms == 0 || !has_work(s) ==> user_timeout_set(s, ms).user_timeout_deadline is None,
        s.user_timeout_ms == 0 || !has_work(s) ==> tick_user_timeout(s).user_timeout_deadline is None
            && tick_user_timeout(s).state == s.state,
{
    reveal(user_timeout_set);
    reveal(tick_user_timeout);
    reveal(user_timer_set);
}

/// The user timeout of a connection with work to do: before its deadline it gives
/// nothing up, and goes on; the first time the timers are driven at the deadline or
/// after it, the connection is closed and has failed. The peer is not told: whatever
/// else the timers stage, they stage no reset. (The retransmission timer may give up
/// before.)
pub proof fn law_stuck_connection_is_given_up(s: TcbView)
    requires
        sound(s),
        may_be_stuck(s),
        addressed(s),
        has_work(s),
        s.user_timeout_ms != 0,
        s.user_timeout_deadline is Some,
    ensures
        due(s, s.user_timeout_deadline) ==> {
            &&& ticked(s).state is Closed
            &&& ticked(s).error == Some(TcpError::ConnectionReset)
            &&& adds_no_reset(s, ticked(s))
        },
        !due(s, s.user_timeout_deadline) && !rto_gives_up(s) ==> {
            &&& ticked(s).state == s.state
            &&& ticked(s).user_timeout_ms == s.user_timeout_ms
            &&& ticked(s).user_timeout_deadline == s.user_timeout_deadline
        },
{
    assert(tick_time_wait(s) == s) by {
        reveal(tick_time_wait);
    }
    if rto_gives_up(s) {
        reveal(given_up);
        reveal(count_timeout);
    } else {
        lemma_timers_undecided(s);
        let e = tick_persist(tick_tlp(tick_rack(tick_rto(s))));
        let t = tick_timers(s);
        assert(t == tick_user_timeout(e)) by {
            reveal(tick_timers);
            reveal(tick_keepalive);
        }
        reveal(tick_user_timeout);
        if due(s, s.user_timeout_deadline) {
            reveal(given_up);
        } else {
            assert(t == e);
            lemma_send_data(e);
            lemma_pure_ack(send_data(e));
            reveal(tick_ack);
        }
    }
}

/// The user timeout is the same.
spec fn same_wait(s: TcbView, t: TcbView) -> bool {
    t.user_timeout_ms == s.user_timeout_ms && t.user_timeout_deadline == s.user_timeout_deadline
}

proof fn lemma_drain_runs_wait(s: TcbView, turns: nat)
    ensures
        same_wait(s, drain_runs(s, turns)),
    decreases turns,
{
    reveal_with_fuel(drain_runs, 2);
    reveal(run_drained);
    let i = first_starting(s.reasm.runs, s.rcv_nxt, 0);
    if turns > 0 && i < s.reasm.runs.len() {
        let n = min(s.reasm.runs[i].data.len() as int, s.cap - s.recv_ring.len());
        lemma_drain_runs_wait(run_drained(s, i, n), (turns - 1) as nat);
    }
}

proof fn lemma_take_payload_wait(s: TcbView, g: SegmentView)
    ensures
        same_wait(s, take_payload(s, g).0),
{
    reveal(take_payload);
    reveal(take_in_order);
    reveal(received);
    reveal(set_aside);
    reveal(drain);
    reveal(window_updated);
    lemma_drain_runs_wait(received(s, g.payload), MAX_HOLES as nat + 2);
}

/// An acknowledgement that takes nothing off what is outstanding keeps the user timeout.
proof fn lemma_take_ack_wait(s: TcbView, g: SegmentView)
    requires
        sound(s),
        synchronized(s.state),
    ensures
        take_ack(s, g).snd_una == s.snd_una ==> same_wait(s, take_ack(s, g)),
{
    if seq_gt(g.ack, s.snd_max) || seq_le(g.ack, s.snd_una) {
        lemma_take_ack_stays(s, g);
    } else {
        reveal(take_ack);
        lemma_note_sound(s, g);
        let t = note_sacks(note_echo(patience_restored(s), g), g).0;
        lemma_ack_advanced_sound(t, g);
    }
}

/// Only progress restarts the user timeout: whatever arrives, an acknowledgement that
/// repeats the last one or that reports a closed window among it, the deadline stays as
/// long as the oldest unacknowledged byte does and the connection is not over.
pub proof fn law_only_progress_restarts_the_user_timeout(s: TcbView, b: Seq<u8>)
    requires
        sound(s),
        synchronized(s.state),
        injected(s, b).0.snd_una == s.snd_una,
    ensures
        injected(s, b).0.user_timeout_ms == s.user_timeout_ms,
        injected(s, b).0.user_timeout_deadline == s.user_timeout_deadline,
{
    if let Some(g) = parse_packet(b) {
        if for_us(s, g) {
            reveal(peer_alive);
            reveal(on_segment);
            reveal(on_reset);
            reveal(reset_by_peer);
            lemma_on_synchronised_wait(s, g);
        }
    }
}

proof fn lemma_on_synchronised_wait(s: TcbView, g: SegmentView)
    requires
        sound(s),
        synchronized(s.state),
    ensures
        on_synchronised(s, g).snd_una == s.snd_una ==> same_wait(s, on_synchronised(s, g)),
{
    reveal(on_synchronised);
    let t = note_marks(s, g);
    assert(sound(t) && t.state == s.state && t.snd_una == s.snd_una && same_wait(s, t)) by {
        reveal(note_marks);
    }
    lemma_take_ack_wait(t, g);
    let k = take_ack(t, g);
    lemma_pure_ack(t);
    lemma_pure_ack(k);
    reveal(refuse);
    reveal(accept);
    let a = if g.has(flags::ACK) {
        k
    } else {
        t
    };
    lemma_take_payload_wait(a, g);
    lemma_take_payload_send(a, g);
    let (p, filled) = take_payload(a, g);
    let c = take_fin(p, g);
    assert(same_wait(p, c) && c.snd_una == p.snd_una) by {
        reveal(take_fin);
        reveal(fin_received);
    }
    let advanced = c.rcv_nxt != t.rcv_nxt;
    lemma_answer_send(c, g, advanced, filled);
    lemma_send_data(answer(c, g, advanced, filled));
}

/// What may happen to a connection while it waits for its peer.
pub enum Wait {
    /// The clock is set.
    Clock(u64),
    /// The timers are driven.
    Tick,
    /// A datagram arrives.
    Arrive(Seq<u8>),
    /// The application writes.
    Write(Seq<u8>),
    /// The application asks for that many bytes.
    Read(int),
    /// The host takes the first packet that waits.
    Take,
}

/// The connection after `ev`.
pub open spec fn waited(s: TcbView, ev: Wait) -> TcbView {
    match ev {
        Wait::Clock(now) => TcbView { now_ms: now, ..s },
        Wait::Tick => ticked(s),
        Wait::Arrive(b) => injected(s, b).0,
        Wait::Write(data) => app_send(s, data).0,
        Wait::Read(room) => app_recv(s, room).0,
        Wait::Take => TcbView {
            tx: if s.tx.len() > 0 {
                s.tx.skip(1)
            } else {
                s.tx
            },
            ..s
        },
    }
}

/// The connection after the first `k` of `evs`.
pub open spec fn after_waits(s: TcbView, evs: Seq<Wait>, k: int) -> TcbView
    decreases k,
{
    if k <= 0 {
        s
    } else {
        waited(after_waits(s, evs, k - 1), evs[k - 1])
    }
}

/// The connection is synchronised and has work, of which nothing before `una` is left and
/// nothing behind it has been acknowledged.
pub open spec fn stuck_at(s: TcbView, una: u32) -> bool {
    synchronized(s.state) && has_work(s) && s.snd_una == una && addressed(s)
}

proof fn lemma_waited_keeps_timeout(s: TcbView, ev: Wait, una: u32)
    requires
        sound(s),
        stuck_at(s, una),
        stuck_at(waited(s, ev), una),
        s.user_timeout_ms != 0,
        s.user_timeout_deadline is Some,
        ev matches Wait::Read(room) ==> room >= 0,
    ensures
        sound(waited(s, ev)),
        same_wait(s, waited(s, ev)),
{
    match ev {
        Wait::Clock(now) => law_settings_keep_sound(s, 0, 0, 0, 0, now),
        Wait::Tick => {
            law_tick_keeps_sound(s);
            law_stuck_connection_is_given_up(s);
            if rto_gives_up(s) {
                assert(tick_time_wait(s) == s) by {
                    reveal(tick_time_wait);
                }
                reveal(given_up);
            }
        },
        Wait::Arrive(b) => {
            law_inbound_keeps_sound(s, b);
            law_only_progress_restarts_the_user_timeout(s, b);
        },
        Wait::Write(data) => {
            law_send_keeps_sound(s, data);
            reveal(data_buffered);
        },
        Wait::Read(room) => {
            law_recv_keeps_sound(s, room);
            let n = app_recv_len(s, room);
            reveal(data_read);
            reveal(drain);
            reveal(window_updated);
            lemma_drain_runs_wait(data_read(s, n), MAX_HOLES as nat + 2);
        },
        Wait::Take => lemma_same_send(s, waited(s, ev)),
    }
}

proof fn lemma_waits_keep_timeout(s: TcbView, evs: Seq<Wait>, k: int, una: u32)
    requires
        sound(s),
        s.user_timeout_ms != 0,
        s.user_timeout_deadline is Some,
        0 <= k <= evs.len(),
        forall|i: int| 0 <= i < evs.len() ==> (#[trigger] evs[i] matches Wait::Read(r) ==> r >= 0),
        forall|i: int| 0 <= i <= evs.len() ==> stuck_at(#[trigger] after_waits(s, evs, i), una),
    ensures
        sound(after_waits(s, evs, k)),
        same_wait(s, after_waits(s, evs, k)),
    decreases k,
{
    if k > 0 {
        lemma_waits_keep_timeout(s, evs, k - 1, una);
        let t = after_waits(s, evs, k - 1);
        assert(stuck_at(t, una) && stuck_at(after_waits(s, evs, k), una));
        lemma_waited_keeps_timeout(t, evs[k - 1], una);
    }
}

/// The user timeout from its setting to its end. Set on a synchronised connection with
/// work, it runs for `ms` from then on, whatever happens meanwhile: datagrams, repeated
/// acknowledgements and closed windows among them, timers, writes and reads. As long as
/// nothing more is acknowledged, no driving of the timers before its time gives the
/// connection up for it, and the first one at its time or after it closes the connection,
/// which has failed; the peer is sent no reset. (The retransmission timer may give up
/// before.)
pub proof fn law_user_timeout_runs_out(s: TcbView, ms: u32, evs: Seq<Wait>)
    requires
        sound(s),
        ms != 0,
        forall|i: int| 0 <= i < evs.len() ==> (#[trigger] evs[i] matches Wait::Read(r) ==> r >= 0),
        forall|i: int|
            0 <= i <= evs.len() ==> stuck_at(
                #[trigger] after_waits(user_timeout_set(s, ms), evs, i),
                s.snd_una,
            ),
    ensures
        ({
            let t = after_waits(user_timeout_set(s, ms), evs, evs.len() as int);
            let end = s.now_ms.wrapping_add(ms as u64);
            &&& t.user_timeout_deadline == Some(end)
            &&& t.now_ms >= end ==> {
                &&& ticked(t).state is Closed
                &&& ticked(t).error == Some(TcpError::ConnectionReset)
                &&& adds_no_reset(t, ticked(t))
            }
            &&& t.now_ms < end ==> ticked(t).state == t.state || rto_gives_up(t)
        }),
{
    let u = user_timeout_set(s, ms);
    assert(u == after_waits(u, evs, 0));
    assert(has_work(s) && u.user_timeout_ms == ms && u.user_timeout_deadline == Some(
        s.now_ms.wrapping_add(ms as u64),
    )) by {
        reveal(user_timeout_set);
    }
    law_settings_keep_sound(s, 0, 0, 0, ms, 0);
    lemma_waits_keep_timeout(u, evs, evs.len() as int, s.snd_una);
    let t = after_waits(u, evs, evs.len() as int);
    assert(stuck_at(t, s.snd_una));
    law_stuck_connection_is_given_up(t);
}

/// Progress restarts the user timeout: it runs in full from now on if anything is left to be
/// sent or acknowledged, and stops if nothing is.
pub proof fn law_progress_restarts_the_user_timeout(s: TcbView, ack: u32)
    requires
        s.user_timeout_ms != 0,
        seq_gt(ack, s.snd_una),
    ensures
        ({
            let t = ack_advance(s, ack);
            &&& ack != s.snd_max ==> t.user_timeout_deadline == Some(
                s.now_ms.wrapping_add(s.user_timeout_ms as u64),
            )
            &&& t.send_ring.len() > 0 ==> t.user_timeout_deadline == Some(
                s.now_ms.wrapping_add(s.user_timeout_ms as u64),
            )
            &&& ack == s.snd_max && t.send_ring.len() == 0 ==> t.user_timeout_deadline is None
        }),
{
    reveal(ack_advance);
    reveal(una_moved);
    reveal(user_timer_restarted);
    reveal(nxt_caught_up);
}

} // verus!
