//! Round trips: the estimates follow what is measured, the timeout covers it, and a silent
//! peer is waited for twice as long each time.

use crate::MSS;
use crate::num::{max, min};
use crate::reassembly::{first_starting, MAX_HOLES};
use crate::seq::{seq_ge, seq_gt, seq_le};
use crate::state::{synchronized, State};
use crate::tcb::laws::frame::{
    lemma_emit, lemma_fire_tlp, lemma_pure_ack, lemma_rack_scan, lemma_send_data,
};
use crate::tcb::laws::offers::answers_syn;
use crate::tcb::laws::progress::{lemma_tick_persist_only, looked_at};
use crate::tcb::laws::segments::lemma_answer_send;
use crate::tcb::model::{
    accept, acceptable, ack_advance, ack_advanced, ack_fin, ack_prune, ack_recovery, ack_sample,
    ack_sent, ack_timing, agreed, answer, arm_persist, arm_rto, arm_rto_if_idle, arm_tlp,
    begin_recovery, bump_max, charged, collapse, count_timeout, data_opts, delivery_credited,
    delivery_noted, drain, drain_runs, emit, emit_again, emit_fin, emit_new, emit_synack,
    emit_window_probe, fin_placed, fin_received, fire_tlp, for_us, given_up, has_work, in_state,
    injected, keepalive_counted, lost_queued, note_echo, note_marks, note_sacks, nxt_caught_up,
    nxt_moved, on_segment, on_syn_sent, on_synchronised, patience_restored, peer_alive,
    persist_backed_off, probe_dropped, pure_ack, rack_disarmed, rack_scan, received, records_pruned,
    recovering, recovery_ended, refuse, relisten, reo_updated, resend_handshake, reset, retransmit,
    retry_counted, rto_kept, rto_stopped, rtt_from_echo, rtt_from_probe, rtt_sample, run_drained,
    rxt_caught_up, rxt_noted, sacks_noted, send_data, send_fresh, send_lost, send_one,
    send_recovery, send_some, send_syn, set_aside, syn_acked, syn_counted, syn_in_flight,
    synack_accepted, take_ack, take_fin, take_in_order, take_offer, take_payload,
    take_synack_options, take_window, tick_ack, tick_keepalive, tick_persist, tick_rack, tick_rto,
    tick_time_wait, tick_timers, tick_tlp, tick_user_timeout, ticked, tlp_disarmed, tlp_reset,
    tlp_spent, ts_agreed, tx_full, una_moved, unpinned, user_timer_restarted, user_timer_set,
    window_updated, TcbView,
};
use crate::tx_ring::TX_RING_CAP;
use crate::wire::{flags, parse_packet, SegmentView};
use crate::wire::flags::{ACK, RST};
use vstd::prelude::*;

verus! {

/// How far `x` and `y` are apart.
pub open spec fn apart_by(x: u32, y: u32) -> int {
    if x >= y {
        x - y
    } else {
        y - x
    }
}

/// `t` is `s` with the round trip `r` taken into account. A first one is believed. A later
/// one moves the smoothed round trip an eighth of the way towards it, and the variation a
/// quarter of the way towards how far it is from the smoothed one, rounding down. The
/// timeout is the smoothed round trip and four times the variation, between 200 milliseconds
/// and a minute.
pub open spec fn learned(s: TcbView, t: TcbView, r: u32) -> bool {
    let d = apart_by(s.srtt_ms, r);
    &&& t.rtt_first_sample
    &&& !s.rtt_first_sample && r >= 2 ==> t.srtt_ms == r && r - 1 <= 2 * t.rttvar_ms <= r
    &&& !s.rtt_first_sample && r < 2 ==> t.srtt_ms == 1 && t.rttvar_ms == 1
    &&& s.rtt_first_sample && 7 * s.srtt_ms + r <= u32::MAX ==> {
        &&& t.srtt_ms <= s.srtt_ms || t.srtt_ms <= r
        &&& t.srtt_ms >= s.srtt_ms || t.srtt_ms >= r
        &&& 0 <= (r - s.srtt_ms) - 8 * (t.srtt_ms - s.srtt_ms) <= 7
    }
    &&& s.rtt_first_sample && 3 * s.rttvar_ms + d <= u32::MAX ==> 0 <= (d - s.rttvar_ms) - 4 * (
    t.rttvar_ms - s.rttvar_ms) <= 3
    &&& 200 <= t.rto_ms <= 60_000
    &&& 200 <= t.srtt_ms + 4 * t.rttvar_ms <= 60_000 && t.rttvar_ms > 0 ==> t.rto_ms == t.srtt_ms
        + 4 * t.rttvar_ms
    &&& t.srtt_ms + 4 * t.rttvar_ms > 60_000 ==> t.rto_ms == 60_000
    &&& t.srtt_ms + 4 * t.rttvar_ms < 200 ==> t.rto_ms == 200
    &&& t.rttvar_ms == 0 && 199 <= t.srtt_ms < 60_000 ==> t.rto_ms == t.srtt_ms + 1
    &&& t.srtt_ms >= 60_000 ==> t.rto_ms == 60_000
}

/// The estimates follow the samples.
pub proof fn law_estimate_follows_samples(s: TcbView, r: u32)
    ensures
        learned(s, rtt_sample(s, r), r),
{
    reveal(rtt_sample);
}

/// The timeout covers the round trip that was just measured, up to a minute: one that keeps
/// being measured does not run into it.
pub proof fn law_timeout_covers_what_was_measured(s: TcbView, r: u32)
    requires
        s.rttvar_ms <= 0x1000_0000,
        s.srtt_ms <= 0x1000_0000,
        r <= 0x1000_0000,
    ensures
        s.rttvar_ms > 0 || !s.rtt_first_sample ==> rtt_sample(s, r).rto_ms >= min(r as int, 60_000),
        rtt_sample(s, r).rto_ms + 3 >= min(r as int, 60_000),
        rtt_sample(s, r).rto_ms >= min(
            rtt_sample(s, r).srtt_ms + rtt_sample(s, r).rttvar_ms,
            60_000,
        ),
{
    law_estimate_follows_samples(s, r);
}

/// The connection after `n` samples of `r`.
pub open spec fn sampled(s: TcbView, r: u32, n: nat) -> TcbView
    decreases n,
{
    if n == 0 {
        s
    } else {
        rtt_sample(sampled(s, r, (n - 1) as nat), r)
    }
}

/// A path that keeps its round trip `r` is learned: the smoothed round trip comes ever
/// closer, and stays within rounding of it. The variation fades, and the timeout settles
/// just above the round trip.
pub proof fn law_steady_path_is_learned(s: TcbView, r: u32, n: nat)
    requires
        s.rtt_first_sample,
        s.srtt_ms <= 0x1000_0000,
        s.rttvar_ms <= 0x1000_0000,
        r <= 60_000,
    ensures
        ({
            let t = sampled(s, r, n);
            let d = apart_by(s.srtt_ms, r);
            &&& apart_by(t.srtt_ms, r) <= d
            &&& n >= d ==> apart_by(t.srtt_ms, r) <= 7
            &&& n >= 2 * d + s.rttvar_ms ==> t.rttvar_ms <= 7
            &&& n >= 1 ==> t.rto_ms + 3 >= r
            &&& n >= 1 && n >= 2 * d + s.rttvar_ms ==> t.rto_ms <= max(200, r + 35)
        }),
    decreases n,
{
    lemma_steady(s, r, n);
    if n > 0 {
        let p = sampled(s, r, (n - 1) as nat);
        lemma_steady(s, r, (n - 1) as nat);
        law_timeout_covers_what_was_measured(p, r);
        law_estimate_follows_samples(p, r);
    }
}

/// How [`law_steady_path_is_learned`] goes on from sample to sample.
proof fn lemma_steady(s: TcbView, r: u32, n: nat)
    requires
        s.rtt_first_sample,
        s.srtt_ms <= 0x1000_0000,
        s.rttvar_ms <= 0x1000_0000,
        r <= 60_000,
    ensures
        ({
            let t = sampled(s, r, n);
            let d = apart_by(s.srtt_ms, r);
            &&& t.rtt_first_sample
            &&& apart_by(t.srtt_ms, r) <= max(d - n, min(d, 7))
            &&& t.rttvar_ms <= max(d, s.rttvar_ms as int)
            &&& n >= d ==> t.rttvar_ms <= max(max(d, s.rttvar_ms as int) - (n - d), 7)
        }),
    decreases n,
{
    if n > 0 {
        let p = sampled(s, r, (n - 1) as nat);
        lemma_steady(s, r, (n - 1) as nat);
        law_estimate_follows_samples(p, r);
    }
}

/// The estimates are the same.
pub open spec fn same_estimate(s: TcbView, t: TcbView) -> bool {
    &&& t.srtt_ms == s.srtt_ms
    &&& t.rttvar_ms == s.rttvar_ms
    &&& t.rtt_first_sample == s.rtt_first_sample
    &&& t.rto_ms == s.rto_ms
}

/// The estimates, the clock and whether there are timestamps are the same.
spec fn same_timing(s: TcbView, t: TcbView) -> bool {
    same_estimate(s, t) && t.now_ms == s.now_ms && t.ts_enabled == s.ts_enabled
}

/// Where an acknowledgement that advances takes its sample.
spec fn before_sample(s: TcbView, g: SegmentView) -> TcbView {
    let t = note_sacks(note_echo(patience_restored(s), g), g).0;
    let acked = g.ack.wrapping_sub(t.snd_una);
    tlp_reset(rack_scan(ack_recovery(ack_prune(ack_advance(t, g.ack)), acked)), acked)
}

proof fn lemma_before_sample(s: TcbView, g: SegmentView)
    ensures
        same_timing(s, before_sample(s, g)),
{
    let t = note_sacks(note_echo(patience_restored(s), g), g).0;
    assert(same_timing(s, t)) by {
        reveal(patience_restored);
        reveal(note_echo);
        reveal(recovering);
        reveal(note_sacks);
        reveal(sacks_noted);
    }
    let acked = g.ack.wrapping_sub(t.snd_una);
    let a = ack_advance(t, g.ack);
    assert(same_timing(t, a)) by {
        reveal(ack_advance);
        reveal(una_moved);
        reveal(user_timer_restarted);
        reveal(nxt_caught_up);
    }
    let b = ack_recovery(ack_prune(a), acked);
    assert(same_timing(a, b)) by {
        reveal(ack_prune);
        reveal(delivery_noted);
        reveal(records_pruned);
        reveal(ack_recovery);
        reveal(rxt_caught_up);
        reveal(delivery_credited);
        reveal(recovery_ended);
    }
    lemma_rack_scan(b);
    reveal(tlp_reset);
}

/// What comes after the sample leaves the estimates alone.
proof fn lemma_after_sample(s: TcbView, g: SegmentView)
    ensures
        same_timing(ack_sample(s, g), take_window(ack_fin(ack_timing(s, g)), g.window)),
{
    reveal(ack_timing);
    reveal(rto_stopped);
    reveal(arm_rto);
    reveal(ack_fin);
    reveal(take_window);
}

proof fn lemma_drain_runs_timing(s: TcbView, turns: nat)
    ensures
        same_timing(s, drain_runs(s, turns)),
    decreases turns,
{
    reveal_with_fuel(drain_runs, 2);
    reveal(run_drained);
    let i = first_starting(s.reasm.runs, s.rcv_nxt, 0);
    if turns > 0 && i < s.reasm.runs.len() {
        let n = min(s.reasm.runs[i].data.len() as int, s.cap - s.recv_ring.len());
        lemma_drain_runs_timing(run_drained(s, i, n), (turns - 1) as nat);
    }
}

/// Taking data and a FIN in, answering and sending leave the estimates alone.
proof fn lemma_rest_timing(s: TcbView, g: SegmentView, advanced: bool)
    ensures
        ({
            let (p, filled) = take_payload(s, g);
            let c = take_fin(p, g);
            same_timing(s, send_data(answer(c, g, advanced, filled)))
        }),
{
    reveal(take_payload);
    reveal(take_in_order);
    reveal(received);
    reveal(set_aside);
    reveal(window_updated);
    reveal(drain);
    lemma_drain_runs_timing(received(s, g.payload), MAX_HOLES as nat + 2);
    let (p, filled) = take_payload(s, g);
    assert(same_timing(s, p));
    let c = take_fin(p, g);
    assert(same_timing(p, c)) by {
        reveal(take_fin);
        reveal(fin_received);
    }
    lemma_answer_send(c, g, advanced, filled);
    lemma_send_data(answer(c, g, advanced, filled));
}

/// `b` holds an acknowledgement for the connection of something that is outstanding.
pub open spec fn acks_something(s: TcbView, b: Seq<u8>) -> bool {
    &&& parse_packet(b) matches Some(g)
    &&& for_us(s, g)
    &&& g.has(flags::ACK) && !g.has(flags::RST)
    &&& looked_at(s, g)
    &&& seq_gt(g.ack, s.snd_una) && seq_le(g.ack, s.snd_max)
}

/// What such an acknowledgement makes of the estimates is what its sample does.
proof fn lemma_ack_is_sampled(s: TcbView, b: Seq<u8>)
    requires
        synchronized(s.state),
        acks_something(s, b),
    ensures
        ({
            let g = parse_packet(b)->0;
            let u = before_sample(note_marks(s, g), g);
            &&& same_timing(s, u)
            &&& same_timing(ack_sample(u, g), injected(s, b).0)
        }),
{
    let g = parse_packet(b)->0;
    reveal(on_segment);
    reveal(peer_alive);
    reveal(on_synchronised);
    reveal(acceptable);
    let t = note_marks(s, g);
    assert(same_timing(s, t) && t.snd_una == s.snd_una && t.snd_max == s.snd_max && t.rcv_nxt
        == s.rcv_nxt && t.rcv_wnd == s.rcv_wnd) by {
        reveal(note_marks);
    }
    lemma_before_sample(t, g);
    let u = before_sample(t, g);
    lemma_after_sample(u, g);
    let a = take_ack(t, g);
    assert(same_timing(ack_sample(u, g), a)) by {
        reveal(take_ack);
        reveal(ack_advanced);
        reveal(patience_restored);
        reveal(note_echo);
        reveal(recovering);
        reveal(note_sacks);
        reveal(sacks_noted);
    }
    reveal(refuse);
    lemma_pure_ack(a);
    reveal(accept);
    let (p, filled) = take_payload(a, g);
    let c = take_fin(p, g);
    lemma_rest_timing(a, g, c.rcv_nxt != t.rcv_nxt);
}

/// With timestamps every acknowledgement of something outstanding is a measurement: the
/// round trip is the age of the timestamp that it echoes, at least a millisecond. An echo
/// that is no timestamp of ours, or older than a minute, changes nothing.
pub proof fn law_echo_is_measured(s: TcbView, b: Seq<u8>)
    requires
        synchronized(s.state),
        acks_something(s, b),
        s.ts_enabled,
    ensures
        ({
            let t = injected(s, b).0;
            match parse_packet(b)->0.options.ts {
                Some((_, echo)) => {
                    let age = (s.now_ms as u32).wrapping_sub(echo);
                    &&& echo != 0 && 1 <= age <= 60_000 ==> learned(s, t, age)
                    &&& echo != 0 && age == 0 ==> learned(s, t, 1)
                    &&& echo == 0 || age > 60_000 ==> same_estimate(s, t)
                },
                None => same_estimate(s, t),
            }
        }),
{
    let g = parse_packet(b)->0;
    lemma_ack_is_sampled(s, b);
    let u = before_sample(note_marks(s, g), g);
    reveal(ack_sample);
    if let Some((_, echo)) = g.options.ts {
        let age = (s.now_ms as u32).wrapping_sub(echo);
        reveal(rtt_from_echo);
        law_estimate_follows_samples(u, age);
        law_estimate_follows_samples(u, 1);
    }
}

/// Without timestamps one round trip is measured at a time, by the clock: the sample that
/// an acknowledgement completes is the time since it was started. A measurement of
/// something that was sent again does not count, and neither does one that is not complete.
pub proof fn law_measurement_is_by_the_clock(s: TcbView, ack: u32)
    ensures
        ({
            let t = rtt_from_probe(s, ack);
            match s.rtt_probe {
                Some(p) => {
                    let r = s.now_ms - p.sent_at;
                    &&& p.valid && seq_ge(ack, p.seq) && 0 < r <= u32::MAX ==> learned(
                        s,
                        t,
                        r as u32,
                    ) && t.rtt_probe is None
                    &&& !p.valid ==> same_estimate(s, t) && t.rtt_probe is None
                    &&& p.valid && !seq_ge(ack, p.seq) ==> t == s
                    &&& r <= 0 ==> same_estimate(s, t)
                },
                None => t == s,
            }
        }),
{
    reveal(rtt_from_probe);
    reveal(probe_dropped);
    if let Some(p) = s.rtt_probe {
        let r = s.now_ms - p.sent_at;
        reveal(rtt_sample);
        law_estimate_follows_samples(probe_dropped(s), r as u32);
        law_estimate_follows_samples(probe_dropped(s), 0);
    }
}

/// A measurement starts when the retransmission timer does and none is under way, and only
/// without timestamps.
pub proof fn law_measurement_starts_with_the_timer(s: TcbView, seq: u32)
    ensures
        ({
            let t = arm_rto(s, seq);
            &&& t.rto_deadline == Some(s.now_ms.wrapping_add(s.rto_ms as u64))
            &&& s.ts_enabled ==> t.rtt_probe == s.rtt_probe
            &&& s.rtt_probe is Some ==> t.rtt_probe == s.rtt_probe
            &&& !s.ts_enabled && s.rtt_probe is None ==> {
                &&& t.rtt_probe matches Some(p)
                &&& p.seq == seq && p.sent_at == s.now_ms && p.valid
            }
        }),
{
    reveal(arm_rto);
}

/// What a retransmission timeout counts and sets is the same.
spec fn same_patience(s: TcbView, t: TcbView) -> bool {
    same_estimate(s, t) && t.rtx_count == s.rtx_count
}

/// What the timers after the retransmission timer, and sending, leave alone.
proof fn lemma_tick_rest(s: TcbView)
    ensures
        ({
            let t = tick_user_timeout(tick_keepalive(tick_persist(tick_tlp(tick_rack(s)))));
            &&& same_patience(s, t)
            &&& same_patience(s, tick_ack(send_data(t)))
        }),
{
    reveal(tick_rack);
    reveal(rack_disarmed);
    lemma_rack_scan(rack_disarmed(s));
    let a = tick_rack(s);
    reveal(tick_tlp);
    lemma_fire_tlp(a);
    let b = tick_tlp(a);
    lemma_tick_persist_only(b);
    let c = tick_persist(b);
    let d = tick_keepalive(c);
    assert(same_patience(c, d)) by {
        reveal(tick_keepalive);
        reveal(keepalive_counted);
        reveal(given_up);
        let p = c.snd_nxt.wrapping_sub(1);
        lemma_emit(c, flags::ACK, p, c.rcv_nxt, data_opts(c), Seq::empty());
    }
    let e = tick_user_timeout(d);
    assert(same_patience(d, e)) by {
        reveal(tick_user_timeout);
        reveal(user_timer_set);
        reveal(given_up);
    }
    lemma_send_data(e);
    reveal(tick_ack);
    lemma_pure_ack(send_data(e));
}

/// The handshake is sent again without touching the estimates.
proof fn lemma_resend_patience(s: TcbView)
    ensures
        !(s.state is SynRcvd) ==> same_patience(s, resend_handshake(s)),
        resend_handshake(s).rto_ms == s.rto_ms,
{
    reveal(resend_handshake);
    reveal(send_syn);
    reveal(syn_in_flight);
    reveal(syn_counted);
    reveal(bump_max);
    reveal(arm_rto);
    reveal(emit);
    reveal(retry_counted);
    reveal(relisten);
    reveal(unpinned);
    reveal(reset);
    reveal(emit_synack);
}

/// The retransmission timer runs, and its time has come.
pub open spec fn timed_out(s: TcbView) -> bool {
    s.rto_deadline is Some && s.rto_deadline->0 <= s.now_ms
}

/// Each retransmission timeout in a row doubles the next one, up to a minute, and is
/// counted. The estimates stay as they are. Without a timeout nothing of this changes.
pub proof fn law_timeouts_back_off(s: TcbView)
    requires
        s.rto_ms <= 60_000,
        s.rtx_count < 10,
    ensures
        ({
            let t = ticked(s);
            &&& timed_out(s) ==> t.rto_ms == min(2 * s.rto_ms, 60_000)
            &&& timed_out(s) && !(s.state is SynRcvd) ==> t.rtx_count == s.rtx_count + 1
                && t.srtt_ms == s.srtt_ms && t.rttvar_ms == s.rttvar_ms
            &&& !timed_out(s) ==> same_estimate(s, t) && t.rtx_count == s.rtx_count
        }),
{
    reveal(tick_time_wait);
    let a = tick_time_wait(s);
    reveal(count_timeout);
    reveal(tick_timers);
    reveal(tick_rto);
    reveal(collapse);
    let k = collapse(count_timeout(a));
    lemma_resend_patience(k);
    lemma_tick_rest(tick_rto(a));
}

/// While patience is left a timeout does not end a connection: one that waits for its data
/// to be acknowledged, and has no user timeout, stays in its state.
pub proof fn law_timeout_is_borne(s: TcbView)
    requires
        s.rtx_count < 10,
        has_work(s),
        s.user_timeout_ms == 0,
        synchronized(s.state) && !(s.state is TimeWait),
        s.time_wait_deadline is None,
    ensures
        ticked(s).state == s.state,
{
    reveal(tick_time_wait);
    reveal(count_timeout);
    reveal(tick_timers);
    reveal(tick_rto);
    reveal(collapse);
    reveal(resend_handshake);
    let b = tick_rto(s);
    assert(b.state == s.state && has_work(b) && b.user_timeout_ms == 0);
    reveal(tick_rack);
    reveal(rack_disarmed);
    lemma_rack_scan(rack_disarmed(b));
    lemma_rack_scan_max(rack_disarmed(b));
    let c = tick_rack(b);
    reveal(tick_tlp);
    lemma_fire_tlp(c);
    lemma_fire_tlp_max(c);
    let d = tick_tlp(c);
    lemma_tick_persist_only(d);
    let e = tick_persist(d);
    assert(has_work(e)) by {
        reveal(tick_persist);
        reveal(persist_backed_off);
        reveal(emit_window_probe);
        reveal(emit);
        reveal(nxt_moved);
        reveal(bump_max);
        reveal(arm_rto_if_idle);
        reveal(arm_rto);
    }
    reveal(tick_keepalive);
    reveal(tick_user_timeout);
    reveal(user_timer_set);
    let f = tick_timers(s);
    lemma_send_data(f);
    reveal(tick_ack);
    lemma_pure_ack(send_data(f));
}

proof fn lemma_rack_scan_max(s: TcbView)
    ensures
        rack_scan(s).snd_max == s.snd_max,
{
    reveal(rack_scan);
    reveal(reo_updated);
    reveal(lost_queued);
    reveal(begin_recovery);
    reveal(recovering);
    reveal(arm_rto);
}

proof fn lemma_fire_tlp_max(s: TcbView)
    ensures
        fire_tlp(s).snd_max == s.snd_max,
{
    reveal(fire_tlp);
    reveal(tlp_disarmed);
    reveal(tlp_spent);
    reveal(retransmit);
    reveal(emit_again);
    reveal(emit);
    reveal(charged);
    reveal(rxt_noted);
    reveal(ack_sent);
    reveal(arm_rto_if_idle);
    reveal(arm_rto);
    reveal(arm_tlp);
}

/// A sign of life restores patience: after an acknowledgement of something outstanding the
/// timeouts are counted from the start.
pub proof fn law_progress_restores_patience(s: TcbView, b: Seq<u8>)
    requires
        synchronized(s.state),
        acks_something(s, b),
    ensures
        injected(s, b).0.rtx_count == 0,
{
    let g = parse_packet(b)->0;
    reveal(on_segment);
    reveal(peer_alive);
    reveal(on_synchronised);
    reveal(acceptable);
    let t = note_marks(s, g);
    assert(t.snd_una == s.snd_una && t.snd_max == s.snd_max && t.rcv_nxt == s.rcv_nxt && t.rcv_wnd
        == s.rcv_wnd) by {
        reveal(note_marks);
    }
    let a = take_ack(t, g);
    assert(a.rtx_count == 0) by {
        reveal(take_ack);
        reveal(patience_restored);
        reveal(note_echo);
        reveal(recovering);
        reveal(note_sacks);
        reveal(sacks_noted);
        let k = note_sacks(note_echo(patience_restored(t), g), g).0;
        let acked = g.ack.wrapping_sub(k.snd_una);
        reveal(ack_advanced);
        let c = ack_recovery(ack_prune(ack_advance(k, g.ack)), acked);
        assert(c.rtx_count == 0) by {
            reveal(ack_advance);
            reveal(una_moved);
            reveal(user_timer_restarted);
            reveal(nxt_caught_up);
            reveal(ack_prune);
            reveal(delivery_noted);
            reveal(records_pruned);
            reveal(ack_recovery);
            reveal(rxt_caught_up);
            reveal(delivery_credited);
            reveal(recovery_ended);
        }
        lemma_rack_scan(c);
        reveal(tlp_reset);
        reveal(ack_timing);
        reveal(ack_sample);
        reveal(rtt_from_echo);
        reveal(rtt_from_probe);
        reveal(probe_dropped);
        reveal(rtt_sample);
        reveal(rto_stopped);
        reveal(arm_rto);
        reveal(ack_fin);
        reveal(take_window);
    }
    reveal(refuse);
    lemma_pure_ack(a);
    reveal(accept);
    let (p, filled) = take_payload(a, g);
    assert(p.rtx_count == a.rtx_count) by {
        reveal(take_payload);
        reveal(take_in_order);
        reveal(received);
        reveal(set_aside);
        reveal(window_updated);
        reveal(drain);
        lemma_drain_runs_count(received(a, g.payload), MAX_HOLES as nat + 2);
    }
    let c = take_fin(p, g);
    assert(c.rtx_count == p.rtx_count) by {
        reveal(take_fin);
        reveal(fin_received);
    }
    lemma_answer_send(c, g, c.rcv_nxt != t.rcv_nxt, filled);
    lemma_send_data(answer(c, g, c.rcv_nxt != t.rcv_nxt, filled));
}

proof fn lemma_drain_runs_count(s: TcbView, turns: nat)
    ensures
        drain_runs(s, turns).rtx_count == s.rtx_count,
    decreases turns,
{
    reveal_with_fuel(drain_runs, 2);
    reveal(run_drained);
    let i = first_starting(s.reasm.runs, s.rcv_nxt, 0);
    if turns > 0 && i < s.reasm.runs.len() {
        let n = min(s.reasm.runs[i].data.len() as int, s.cap - s.recv_ring.len());
        lemma_drain_runs_count(run_drained(s, i, n), (turns - 1) as nat);
    }
}

/// A retransmission timeout collapses the congestion window to one segment, sets the
/// slow-start threshold to half of what was in flight, but two segments at least, and
/// spoils a measurement under way.
pub proof fn law_timeout_collapses_the_window(s: TcbView)
    requires
        timed_out(s),
        s.rtx_count < 10,
        !(s.state is SynRcvd),
    ensures
        ({
            let t = ticked(s);
            let in_flight = s.snd_nxt.wrapping_sub(s.snd_una);
            &&& t.cc.cwnd == MSS
            &&& !t.cc.in_recovery
            &&& t.cc.ssthresh == max(in_flight as int / 2, 2 * MSS)
            &&& s.rtt_probe is Some ==> t.rtt_probe is Some && !t.rtt_probe->0.valid
        }),
{
    reveal(tick_time_wait);
    let a = tick_time_wait(s);
    reveal(count_timeout);
    reveal(tick_timers);
    reveal(tick_rto);
    reveal(collapse);
    let k = collapse(count_timeout(a));
    let b = tick_rto(a);
    assert(collapsed(k, b)) by {
        reveal(resend_handshake);
        reveal(send_syn);
        reveal(syn_in_flight);
        reveal(syn_counted);
        reveal(bump_max);
        reveal(arm_rto);
        reveal(emit);
    }
    reveal(tick_rack);
    reveal(tick_tlp);
    let e = tick_persist(b);
    assert(collapsed(b, e)) by {
        reveal(tick_persist);
        reveal(persist_backed_off);
        reveal(emit_window_probe);
        reveal(emit);
        reveal(nxt_moved);
        reveal(bump_max);
        reveal(arm_rto_if_idle);
        reveal(arm_rto);
    }
    let f = tick_user_timeout(tick_keepalive(e));
    assert(collapsed(e, f)) by {
        reveal(tick_keepalive);
        reveal(keepalive_counted);
        reveal(given_up);
        reveal(emit);
        reveal(tick_user_timeout);
        reveal(user_timer_set);
    }
    lemma_send_data_collapsed(f);
    reveal(tick_ack);
    reveal(pure_ack);
    reveal(ack_sent);
    reveal(emit);
}

/// The congestion state is the same, and so is a measurement under way.
spec fn collapsed(s: TcbView, t: TcbView) -> bool {
    &&& t.cc == s.cc
    &&& s.rtt_probe is Some ==> t.rtt_probe == s.rtt_probe
    &&& t.rack_deadline == s.rack_deadline
    &&& s.tlp_deadline is None ==> t.tlp_deadline is None
}

proof fn lemma_send_data_collapsed(s: TcbView)
    requires
        !s.cc.in_recovery,
    ensures
        send_data(s).cc == s.cc,
        s.rtt_probe is Some ==> send_data(s).rtt_probe == s.rtt_probe,
{
    reveal(send_data);
    lemma_send_some_collapsed(s, TX_RING_CAP as nat + 2);
}

proof fn lemma_send_some_collapsed(s: TcbView, turns: nat)
    requires
        !s.cc.in_recovery,
    ensures
        send_some(s, turns).cc == s.cc,
        s.rtt_probe is Some ==> send_some(s, turns).rtt_probe == s.rtt_probe,
    decreases turns,
{
    reveal_with_fuel(send_some, 2);
    if turns > 0 && !tx_full(s) {
        let t = send_one(s).0;
        assert(t.cc == s.cc && (s.rtt_probe is Some ==> t.rtt_probe == s.rtt_probe)) by {
            reveal(send_one);
            reveal(send_lost);
            reveal(send_recovery);
            reveal(send_fresh);
            reveal(emit_fin);
            reveal(emit_new);
            reveal(emit);
            reveal(fin_placed);
            reveal(nxt_moved);
            reveal(bump_max);
            reveal(charged);
            reveal(ack_sent);
            reveal(arm_rto_if_idle);
            reveal(arm_rto);
            reveal(arm_tlp);
            reveal(arm_persist);
            reveal(rto_kept);
        }
        lemma_send_some_collapsed(t, (turns - 1) as nat);
    }
}

/// The SYN-ACK gives the first sample: the age of our timestamp that it echoes, and then, if a
/// measurement by the clock is under way, the time since the SYN.
pub proof fn law_synack_is_measured(c: TcbView, b: Seq<u8>)
    requires
        c.state is SynSent,
        answers_syn(c, b),
    ensures
        ({
            let t = injected(c, b).0;
            let clocked = c.rtt_probe matches Some(p) && p.valid && seq_ge(
                parse_packet(b)->0.ack,
                p.seq,
            ) && 0 < c.now_ms - p.sent_at <= u32::MAX;
            let since = (c.now_ms - c.rtt_probe->0.sent_at) as u32;
            match parse_packet(b)->0.options.ts {
                Some((_, echo)) => {
                    let age = (c.now_ms as u32).wrapping_sub(echo);
                    &&& echo != 0 && 1 <= age <= 60_000 && c.rtt_probe is None ==> learned(
                        c,
                        t,
                        age,
                    )
                    &&& echo != 0 && 1 <= age <= 60_000 && clocked ==> exists|u: TcbView|
                        #[trigger] learned(c, u, age) && learned(u, t, since)
                },
                None => {
                    &&& clocked ==> learned(c, t, since)
                    &&& c.rtt_probe is None ==> same_estimate(c, t)
                },
            }
        }),
{
    let g = parse_packet(b)->0;
    let o = syn_acked(take_offer(c, g), g.ack);
    assert(same_timing(c, o) && o.rtt_probe == c.rtt_probe) by {
        reveal(take_offer);
        reveal(syn_acked);
    }
    let a = ts_agreed(o, g);
    assert(same_estimate(c, a) && a.now_ms == c.now_ms && a.rtt_probe == c.rtt_probe) by {
        reveal(ts_agreed);
    }
    let u = take_synack_options(o, g);
    let since = (c.now_ms - c.rtt_probe->0.sent_at) as u32;
    if let Some((_, echo)) = g.options.ts {
        let age = (c.now_ms as u32).wrapping_sub(echo);
        if echo != 0 && 1 <= age <= 60_000 {
            assert(learned(c, u, age) && u.now_ms == c.now_ms && u.rtt_probe == c.rtt_probe) by {
                reveal(take_synack_options);
                reveal(rtt_from_echo);
                reveal(agreed);
                law_estimate_follows_samples(a, age);
                reveal(rtt_sample);
            }
        }
    } else {
        assert(same_estimate(c, u) && u.now_ms == c.now_ms && u.rtt_probe == c.rtt_probe) by {
            reveal(take_synack_options);
            reveal(agreed);
        }
    }
    law_measurement_is_by_the_clock(u, g.ack);
    let v = rtt_from_probe(u, g.ack);
    let d = in_state(rto_stopped(v), State::Established);
    assert(same_estimate(v, d)) by {
        reveal(rto_stopped);
        reveal(in_state);
    }
    lemma_pure_ack(d);
    reveal(on_segment);
    reveal(on_syn_sent);
    reveal(synack_accepted);
    reveal(peer_alive);
}

} // verus!
