//! What an acknowledgement makes of the send side: the peer's window, duplicate
//! acknowledgements, congestion echoes.

use crate::MSS;
use crate::congestion::{after_ack, after_dup_ack};
use crate::num::{max, min};
use crate::reassembly::{first_starting, MAX_HOLES};
use crate::seq::{seq_ge, seq_gt, seq_le};
use crate::state::synchronized;
use crate::tcb::laws::frame::{lemma_pure_ack, lemma_send_data};
use crate::tcb::laws::marks::heard;
use crate::tcb::laws::progress::looked_at;
use crate::tcb::laws::receipts::lemma_take_ack_owed;
use crate::tcb::laws::segments::lemma_answer_send;
use crate::tcb::model::{
    accept, acceptable, ack_advance, ack_advanced, ack_fin, ack_prune, ack_recovery, ack_repeated,
    ack_sample, ack_timing, answer, arm_rto, begin_recovery, count_repeat, delivery_credited,
    delivery_noted, drain, drain_runs, fin_received, injected, is_repeat, lost_queued, note_echo,
    note_marks, note_sacks, nxt_caught_up, on_segment, on_synchronised, patience_restored,
    peer_alive, probe_dropped, rack_scan, received, records_pruned, recovering, recovery_ended,
    refuse, reo_updated, repeat_counted, rto_stopped, rtt_from_echo, rtt_from_probe, rtt_sample,
    run_drained, rxt_caught_up, sacks_noted, scaled, set_aside, take_ack, take_fin, take_in_order,
    take_payload, take_window, tlp_reset, una_moved, user_timer_restarted, window_updated, TcbView,
};
use crate::wire::{flags, parse_packet, SegmentView};
use crate::wire::flags::{ACK, ECE, FIN};
use vstd::arithmetic::power2::{lemma2_to64, lemma_pow2_strictly_increases, pow2};
use vstd::bits::lemma_u32_shl_is_mul;
use vstd::prelude::*;

verus! {

/// What `t` knows of the peer's window and of the congestion is the same.
pub open spec fn same_limits(s: TcbView, t: TcbView) -> bool {
    t.snd_wnd == s.snd_wnd && t.cc == s.cc && t.cap == s.cap
}

pub proof fn lemma_drain_limits(s: TcbView)
    ensures
        same_limits(s, drain(s)),
        same_limits(s, window_updated(s)),
{
    reveal(drain);
    reveal(window_updated);
    lemma_drain_runs_limits(s, MAX_HOLES as nat + 2);
}

proof fn lemma_drain_runs_limits(s: TcbView, turns: nat)
    ensures
        same_limits(s, drain_runs(s, turns)),
    decreases turns,
{
    reveal_with_fuel(drain_runs, 2);
    reveal(run_drained);
    let i = first_starting(s.reasm.runs, s.rcv_nxt, 0);
    if turns > 0 && i < s.reasm.runs.len() {
        let n = min(s.reasm.runs[i].data.len() as int, s.cap - s.recv_ring.len());
        lemma_drain_runs_limits(run_drained(s, i, n), (turns - 1) as nat);
    }
}

/// Taking a segment's data and FIN in leaves the limits alone.
pub proof fn lemma_take_limits(s: TcbView, g: SegmentView)
    ensures
        same_limits(s, take_payload(s, g).0),
        same_limits(s, take_fin(s, g)),
{
    let r = received(s, g.payload);
    let h = set_aside(s, g.seq, g.payload);
    assert(same_limits(s, r) && same_limits(s, h)) by {
        reveal(received);
        reveal(set_aside);
    }
    lemma_drain_limits(r);
    lemma_drain_limits(h);
    lemma_drain_limits(s);
    let i = take_in_order(s, g.payload).0;
    assert(same_limits(s, i)) by {
        reveal(take_in_order);
    }
    lemma_drain_limits(i);
    reveal(take_payload);
    reveal(take_fin);
    reveal(fin_received);
}

/// `b` holds an acknowledgement for the connection that is looked at, of nothing that was
/// never sent.
pub open spec fn acks_sent(s: TcbView, b: Seq<u8>) -> bool {
    &&& heard(s, b)
    &&& parse_packet(b)->0.has(flags::ACK)
    &&& looked_at(s, parse_packet(b)->0)
    &&& !seq_gt(parse_packet(b)->0.ack, s.snd_max)
}

/// Processing such a segment is processing its acknowledgement, as far as `t` says.
proof fn lemma_ack_is_taken(s: TcbView, b: Seq<u8>)
    requires
        synchronized(s.state),
        acks_sent(s, b),
    ensures
        ({
            let g = parse_packet(b)->0;
            let k = take_ack(note_marks(s, g), g);
            &&& injected(s, b).0.snd_wnd == k.snd_wnd
        }),
{
    let g = parse_packet(b)->0;
    reveal(on_segment);
    reveal(peer_alive);
    reveal(on_synchronised);
    reveal(acceptable);
    let n = note_marks(s, g);
    assert(n.rcv_nxt == s.rcv_nxt && n.rcv_wnd == s.rcv_wnd) by {
        reveal(note_marks);
    }
    let k = take_ack(n, g);
    reveal(refuse);
    lemma_pure_ack(k);
    reveal(accept);
    lemma_take_limits(k, g);
    let (p, filled) = take_payload(k, g);
    lemma_take_limits(p, g);
    let c = take_fin(p, g);
    lemma_answer_send(c, g, c.rcv_nxt != n.rcv_nxt, filled);
    lemma_send_data(answer(c, g, c.rcv_nxt != n.rcv_nxt, filled));
}

/// The peer's window is what its last acknowledgement said: the window field, times two for
/// each step of the scale that it offered.
pub proof fn law_window_is_what_the_peer_says(s: TcbView, b: Seq<u8>)
    requires
        synchronized(s.state),
        s.snd_wscale <= 14,
        acks_sent(s, b),
    ensures
        injected(s, b).0.snd_wnd == parse_packet(b)->0.window * pow2(s.snd_wscale as nat),
{
    let g = parse_packet(b)->0;
    lemma_ack_is_taken(s, b);
    let n = note_marks(s, g);
    assert(n.snd_wscale == s.snd_wscale && n.snd_max == s.snd_max) by {
        reveal(note_marks);
    }
    lemma_take_ack_owed(n, g);
    assert(take_ack(n, g).snd_wnd == scaled(n, g.window)) by {
        reveal(take_ack);
        reveal(ack_repeated);
        reveal(ack_advanced);
        reveal(take_window);
    }
    lemma_scale(g.window, s.snd_wscale);
}

/// Shifting a window multiplies it.
pub proof fn lemma_scale(window: u16, shift: u8)
    requires
        shift <= 14,
    ensures
        (window as u32) << shift == window * pow2(shift as nat),
{
    lemma2_to64();
    assert(pow2(shift as nat) <= pow2(14)) by {
        if shift < 14 {
            lemma_pow2_strictly_increases(shift as nat, 14);
        }
    }
    assert(window * pow2(shift as nat) <= 0xFFFF * 16384) by (nonlinear_arith)
        requires
            window <= 0xFFFF,
            pow2(shift as nat) <= 16384,
    ;
    lemma_u32_shl_is_mul(window as u32, shift as u32);
}

/// A duplicate acknowledgement: it repeats the last one and the window, while something is
/// outstanding.
pub open spec fn is_duplicate(s: TcbView, g: SegmentView) -> bool {
    &&& g.ack == s.snd_una
    &&& 0 < s.snd_max.wrapping_sub(s.snd_una) < 0x8000_0000
    &&& (g.window as u32) << s.snd_wscale == s.snd_wnd
}

/// What tells of a loss: the third duplicate in a row without data, or the first that carries
/// selective acknowledgements. Then recovery starts at the oldest unacknowledged byte, lasts
/// until all that was sent is acknowledged, and halves the threshold. A first or second
/// duplicate is counted.
pub proof fn law_duplicates_tell_of_a_loss(s: TcbView, g: SegmentView)
    requires
        is_duplicate(s, g),
        !s.cc.in_recovery,
        !(s.ecn_enabled && g.has(flags::ECE)),
    ensures
        ({
            let t = take_ack(s, g);
            let out = s.snd_max.wrapping_sub(s.snd_una) as int;
            let blocks = s.sack_enabled && g.options.sack.len() > 0;
            let bare = g.payload.len() == 0 && !g.has(flags::FIN);
            &&& t.snd_una == s.snd_una && t.snd_max == s.snd_max
            &&& blocks || bare && s.cc.dup_acks >= 2 ==> {
                &&& t.cc.in_recovery && t.cc.recovery_point == s.snd_max
                &&& t.cc.ssthresh == max(out / 2, 2 * MSS)
                &&& t.rxt_seq == s.snd_una && t.rxt_unacked == 0
                &&& t.rto_deadline == Some(s.now_ms.wrapping_add(s.rto_ms as u64))
            }
            &&& !blocks && bare && s.cc.dup_acks < 2 ==> t.cc.in_recovery || t.cc.dup_acks
                == s.cc.dup_acks + 1 && t.cc.cwnd == s.cc.cwnd && t.cc.ssthresh == s.cc.ssthresh
        }),
{
    reveal(take_ack);
    let (a, newly) = note_sacks(note_echo(patience_restored(s), g), g);
    assert(same_limits(s, a) && a.snd_una == s.snd_una && a.snd_max == s.snd_max && a.snd_wscale
        == s.snd_wscale && a.sack_enabled == s.sack_enabled && a.now_ms == s.now_ms && a.rto_ms
        == s.rto_ms) by {
        reveal(patience_restored);
        reveal(note_echo);
        reveal(note_sacks);
        reveal(sacks_noted);
    }
    lemma_repeat_counts(a, g, newly);
}

/// What [`law_duplicates_tell_of_a_loss`] states, once the notes are made.
proof fn lemma_repeat_counts(a: TcbView, g: SegmentView, newly: u32)
    requires
        is_duplicate(a, g),
        !a.cc.in_recovery,
    ensures
        ({
            let t = ack_repeated(a, g, newly);
            let blocks = a.sack_enabled && g.options.sack.len() > 0;
            let bare = g.payload.len() == 0 && !g.has(flags::FIN);
            &&& t.snd_una == a.snd_una && t.snd_max == a.snd_max
            &&& blocks || bare && a.cc.dup_acks >= 2 ==> struck(a, t)
            &&& !blocks && bare && a.cc.dup_acks < 2 ==> t.cc.in_recovery || t.cc == after_dup_ack(
                a.cc,
            )
        }),
{
    reveal(ack_repeated);
    let c = count_repeat(a, g);
    lemma_count_repeat(a, g);
    let d = if newly > 0 {
        delivery_credited(c, newly)
    } else {
        c
    };
    assert(d.snd_una == c.snd_una && d.snd_max == c.snd_max && (struck(a, c) ==> struck(a, d)) && (
    !c.cc.in_recovery ==> d.cc == c.cc)) by {
        reveal(delivery_credited);
    }
    lemma_scan_after(a, d);
    reveal(take_window);
}

proof fn lemma_count_repeat(a: TcbView, g: SegmentView)
    requires
        is_duplicate(a, g),
        !a.cc.in_recovery,
    ensures
        ({
            let c = count_repeat(a, g);
            let blocks = a.sack_enabled && g.options.sack.len() > 0;
            let bare = g.payload.len() == 0 && !g.has(flags::FIN);
            &&& c.snd_una == a.snd_una && c.snd_max == a.snd_max
            &&& blocks || bare && a.cc.dup_acks >= 2 ==> struck(a, c)
            &&& !blocks && bare && a.cc.dup_acks < 2 ==> c.cc == after_dup_ack(a.cc)
        }),
{
    assert(is_repeat(a, g));
    let r = repeat_counted(a);
    assert(r.snd_una == a.snd_una && r.snd_max == a.snd_max && r.now_ms == a.now_ms && r.rto_ms
        == a.rto_ms && r.cc == after_dup_ack(a.cc)) by {
        reveal(repeat_counted);
    }
    assert(struck(a, begin_recovery(a)) && struck(a, begin_recovery(r)) && begin_recovery(a).snd_una
        == a.snd_una && begin_recovery(a).snd_max == a.snd_max && begin_recovery(r).snd_una
        == a.snd_una && begin_recovery(r).snd_max == a.snd_max) by {
        reveal(begin_recovery);
        reveal(recovering);
        reveal(arm_rto);
    }
    reveal(count_repeat);
}

proof fn lemma_scan_after(a: TcbView, d: TcbView)
    ensures
        ({
            let e = rack_scan(d);
            &&& e.snd_una == d.snd_una && e.snd_max == d.snd_max
            &&& struck(a, d) ==> struck(a, e)
            &&& e.cc.in_recovery || e.cc == d.cc
        }),
{
    reveal(rack_scan);
    reveal(reo_updated);
    reveal(lost_queued);
    reveal(begin_recovery);
    reveal(recovering);
    reveal(arm_rto);
}

/// `t` recovers from a loss that `s` has learned of.
spec fn struck(s: TcbView, t: TcbView) -> bool {
    let out = s.snd_max.wrapping_sub(s.snd_una) as int;
    &&& t.cc.in_recovery && t.cc.recovery_point == s.snd_max
    &&& t.cc.ssthresh == max(out / 2, 2 * MSS)
    &&& t.rxt_seq == s.snd_una && t.rxt_unacked == 0
    &&& t.rto_deadline == Some(s.now_ms.wrapping_add(s.rto_ms as u64))
}

/// A congestion echo slows us down once for a window of data: unless recovery is under way
/// it starts, the threshold becomes half of what is in flight, and that is to be told to the
/// peer. Without an echo, or without notification, there is nothing to tell.
pub proof fn law_echo_slows_down(s: TcbView, g: SegmentView)
    requires
        !seq_gt(g.ack, s.snd_max),
    ensures
        ({
            let t = take_ack(s, g);
            let in_flight = s.snd_nxt.wrapping_sub(s.snd_una);
            &&& s.ecn_enabled && g.has(flags::ECE) && !s.cc.in_recovery && 0 < in_flight
                < 0x8000_0000 ==> {
                &&& t.send_cwr_pending
                &&& t.cc.ssthresh == max(in_flight as int / 2, 2 * MSS)
                &&& t.cc.in_recovery || t.cc.cwnd == t.cc.ssthresh
            }
            &&& !s.ecn_enabled || !g.has(flags::ECE) || s.cc.in_recovery || in_flight == 0
                ==> t.send_cwr_pending == s.send_cwr_pending
        }),
{
    reveal(take_ack);
    let p = patience_restored(s);
    let e = note_echo(p, g);
    let (t, newly) = note_sacks(e, g);
    let struck = s.ecn_enabled && g.has(flags::ECE) && !s.cc.in_recovery && seq_gt(
        s.snd_nxt,
        s.snd_una,
    );
    assert(t.cc == e.cc && t.send_cwr_pending == e.send_cwr_pending && t.snd_una == s.snd_una
        && t.snd_max == s.snd_max && (struck ==> e.send_cwr_pending && e.cc.in_recovery
        && e.cc.recovery_point == s.snd_max && e.cc.ssthresh == max(
        s.snd_nxt.wrapping_sub(s.snd_una) as int / 2,
        2 * MSS,
    )) && (!struck ==> e.send_cwr_pending == s.send_cwr_pending)) by {
        reveal(patience_restored);
        reveal(note_echo);
        reveal(recovering);
        reveal(note_sacks);
        reveal(sacks_noted);
    }
    if seq_le(g.ack, t.snd_una) {
        lemma_repeated_cwr(t, g, newly);
    } else {
        lemma_advanced_cwr(t, g);
    }
}

proof fn lemma_repeated_cwr(s: TcbView, g: SegmentView, newly: u32)
    ensures
        ({
            let t = ack_repeated(s, g, newly);
            &&& t.send_cwr_pending == s.send_cwr_pending
            &&& s.cc.in_recovery ==> t.cc.in_recovery && t.cc.ssthresh == s.cc.ssthresh
        }),
{
    reveal(ack_repeated);
    reveal(count_repeat);
    reveal(repeat_counted);
    reveal(begin_recovery);
    reveal(recovering);
    reveal(arm_rto);
    reveal(delivery_credited);
    reveal(rack_scan);
    reveal(reo_updated);
    reveal(lost_queued);
    reveal(take_window);
}

proof fn lemma_advanced_cwr(s: TcbView, g: SegmentView)
    requires
        !seq_gt(g.ack, s.snd_max),
    ensures
        ({
            let t = ack_advanced(s, g);
            &&& t.send_cwr_pending == s.send_cwr_pending
            &&& s.cc.in_recovery && s.cc.recovery_point == s.snd_max ==> t.cc.ssthresh
                == s.cc.ssthresh && (t.cc.in_recovery || t.cc.cwnd == t.cc.ssthresh)
        }),
{
    reveal(ack_advanced);
    let acked = g.ack.wrapping_sub(s.snd_una);
    let a = ack_advance(s, g.ack);
    assert(a.cc == after_ack(s.cc, acked) && a.send_cwr_pending == s.send_cwr_pending && a.snd_una
        == g.ack && a.snd_max == s.snd_max) by {
        reveal(ack_advance);
        reveal(una_moved);
        reveal(user_timer_restarted);
        reveal(nxt_caught_up);
    }
    let b = ack_recovery(ack_prune(a), acked);
    assert(b.send_cwr_pending == s.send_cwr_pending && b.snd_una == g.ack && b.snd_max == s.snd_max
        && (s.cc.in_recovery ==> b.cc.ssthresh == s.cc.ssthresh && (if seq_ge(
        g.ack,
        s.cc.recovery_point,
    ) {
        !b.cc.in_recovery && b.cc.cwnd == b.cc.ssthresh
    } else {
        b.cc.in_recovery
    }))) by {
        reveal(ack_prune);
        reveal(delivery_noted);
        reveal(records_pruned);
        reveal(ack_recovery);
        reveal(rxt_caught_up);
        reveal(delivery_credited);
        reveal(recovery_ended);
    }
    let c = rack_scan(b);
    assert(c.send_cwr_pending == b.send_cwr_pending && (b.cc.in_recovery || !seq_gt(
        b.snd_max,
        b.snd_una,
    ) ==> c.cc == b.cc)) by {
        reveal(rack_scan);
        reveal(reo_updated);
        reveal(lost_queued);
        reveal(begin_recovery);
        reveal(recovering);
        reveal(arm_rto);
    }
    let d = tlp_reset(c, acked);
    let e = ack_sample(d, g);
    assert(e.cc == c.cc && e.send_cwr_pending == c.send_cwr_pending) by {
        reveal(tlp_reset);
        reveal(ack_sample);
        reveal(rtt_from_echo);
        reveal(rtt_from_probe);
        reveal(probe_dropped);
        reveal(rtt_sample);
    }
    reveal(ack_timing);
    reveal(rto_stopped);
    reveal(arm_rto);
    reveal(ack_fin);
    reveal(take_window);
}

} // verus!
