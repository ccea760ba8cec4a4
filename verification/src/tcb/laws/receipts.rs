//! What arrives is acknowledged: at once where the peer waits for it, and else with the next
//! segment or after a short delay.

use crate::MSS;
use crate::num::{max, min};
use crate::reassembly::{first_starting, held, inserted, reasm_ok, used, Incoming, MAX_HOLES};
use crate::reassembly::laws::{all_ahead, brings, holds};
use crate::reassembly::reports::{free_standing, law_free_segment_is_held};
use crate::seq::{seq_gt, seq_le};
use crate::state::synchronized;
use crate::tcb::laws::acking::lemma_take_ack_sound;
use crate::tcb::laws::frame::{lemma_begin_recovery, lemma_rack_scan, lemma_send_data};
use crate::tcb::laws::marks::heard;
use crate::tcb::laws::outbound::{lemma_rack_scan_out, options_fit};
use crate::tcb::laws::segments::lemma_answer_send;
use crate::tcb::laws::soundness::sound;
use crate::tcb::laws::staged::{
    addressable, lemma_data_opts, lemma_feedback_bits, lemma_take_terms, same_both,
};
use crate::tcb::model::{
    accept, acceptable, ack_advance, ack_advanced, ack_fin, ack_owed, ack_prune, ack_recovery,
    ack_repeated, ack_sample, ack_sent, ack_timed, ack_timing, answer, arm_persist, arm_rto,
    arm_rto_if_idle, arm_tlp, begin_recovery, buffered, bump_max, can_retransmit, charged,
    count_repeat, data_opts, datagram_out, delivery_credited, delivery_noted, drain, drain_runs,
    emit, emit_again, emit_fin, emit_new, feedback, fin_due, fin_placed, fin_received, flight,
    injected, lost_queued, lost_taken, lost_target, note_echo, note_marks, note_sacks,
    nxt_caught_up, nxt_moved, on_segment, on_synchronised, owe_ack, patience_restored, payload_mss,
    peer_alive, probe_dropped, pure_ack, rack_scan, received, records_pruned, recovering,
    recovery_ended, recovery_left, recovery_target, refuse, reo_updated, repeat_counted, retransmit,
    ring_bytes, rto_kept, rto_stopped, rtt_from_echo, rtt_from_probe, rtt_sample, run_drained,
    rxt_caught_up, rxt_noted, sacks_noted, segment_out, send_data, send_fresh, send_lost, send_one,
    send_recovery, send_some, sendable, set_aside, take_ack, take_fin, take_in_order, take_payload,
    take_window, tlp_reset, tx_full, una_moved, user_timer_restarted, window_updated, TcbView,
};
use crate::tx_ring::TX_RING_CAP;
use crate::wire::{flags, law_emit_then_parse_round_trip, packet, parse_packet, SegmentView};
use crate::wire::flags::{ACK, FIN, PSH, RST, SYN};
use crate::wire::options::OptionsView;
use vstd::prelude::*;

verus! {

/// `b` acknowledges everything before `n`.
pub open spec fn acks(b: Seq<u8>, n: u32) -> bool {
    &&& parse_packet(b) matches Some(g)
    &&& g.has(flags::ACK) && !g.has(flags::SYN) && !g.has(flags::RST)
    &&& g.ack == n
}

/// A packet that was staged for `t` beyond the first `from` acknowledges all that it has
/// received.
pub open spec fn told(from: nat, t: TcbView) -> bool {
    exists|k: int| from <= k < t.tx.len() && acks(#[trigger] t.tx[k], t.rcv_nxt)
}

/// What is owed to the peer is the same.
pub open spec fn same_owed(s: TcbView, t: TcbView) -> bool {
    &&& t.pending_ack == s.pending_ack
    &&& t.delayed_ack_count == s.delayed_ack_count
    &&& t.ack_deadline == s.ack_deadline
}

/// What waits in `s` waits in `t`; either nothing was staged, and what is owed is the same,
/// or what was staged last acknowledges all that `t` has received.
pub open spec fn tells(s: TcbView, t: TcbView) -> bool {
    &&& addressable(t) && t.rcv_nxt == s.rcv_nxt
    &&& s.tx.len() <= t.tx.len()
    &&& forall|k: int| 0 <= k < s.tx.len() ==> #[trigger] t.tx[k] == s.tx[k]
    &&& if t.tx.len() == s.tx.len() {
        same_owed(s, t)
    } else {
        acks(t.tx[t.tx.len() - 1], t.rcv_nxt)
    }
}

proof fn lemma_tells_again(s: TcbView, t: TcbView, u: TcbView)
    requires
        tells(s, t),
        tells(t, u),
    ensures
        tells(s, u),
{
    assert forall|k: int| 0 <= k < s.tx.len() implies #[trigger] u.tx[k] == s.tx[k] by {
        assert(t.tx[k] == s.tx[k]);
    }
}

/// A segment that is no part of a handshake acknowledges what was received.
proof fn lemma_emit_tells(s: TcbView, bits: u8, seq: u32, opts: OptionsView, payload: Seq<u8>)
    requires
        addressable(s),
        options_fit(opts),
        payload.len() <= MSS,
        bits == flags::ACK || bits == flags::ACK | flags::PSH || bits == flags::FIN | flags::ACK,
        !tx_full(s),
    ensures
        ({
            let t = emit(s, bits, seq, s.rcv_nxt, opts, payload);
            &&& t.tx.len() == s.tx.len() + 1
            &&& tells(s, t)
        }),
{
    reveal(emit);
    reveal(datagram_out);
    reveal(segment_out);
    reveal(feedback);
    lemma_feedback_bits(bits);
    lemma_told_bits();
    let g = segment_out(s, bits, seq, s.rcv_nxt, opts, payload);
    law_emit_then_parse_round_trip(g, s.ip_id, Seq::empty());
    assert(packet(g, s.ip_id) + Seq::<u8>::empty() =~= packet(g, s.ip_id));
}

proof fn lemma_told_bits()
    by (bit_vector)
    ensures
        0x10u8 & 0x10u8 != 0 && 0x10u8 & 0x02u8 == 0 && 0x10u8 & 0x04u8 == 0,
        (0x10u8 | 0x08u8) & 0x10u8 != 0,
        (0x10u8 | 0x08u8) & 0x02u8 == 0 && (0x10u8 | 0x08u8) & 0x04u8 == 0,
        (0x01u8 | 0x10u8) & 0x10u8 != 0,
        (0x01u8 | 0x10u8) & 0x02u8 == 0 && (0x01u8 | 0x10u8) & 0x04u8 == 0,
{
}

pub proof fn lemma_pure_ack_tells(s: TcbView)
    requires
        addressable(s),
    ensures
        tells(s, pure_ack(s)),
        !tx_full(s) ==> pure_ack(s).tx.len() == s.tx.len() + 1,
{
    if !tx_full(s) {
        lemma_data_opts(s);
        lemma_emit_tells(s, flags::ACK, s.snd_nxt, data_opts(s), Seq::empty());
    }
    reveal(pure_ack);
    reveal(ack_sent);
}

proof fn lemma_retransmit_tells(s: TcbView, seq: u32, bytes: int)
    requires
        addressable(s),
        bytes <= payload_mss(s),
    ensures
        tells(s, retransmit(s, seq, bytes)),
{
    reveal(retransmit);
    if can_retransmit(s, seq, bytes) {
        let n = buffered(s, seq, bytes);
        reveal(payload_mss);
        reveal(emit_again);
        lemma_data_opts(s);
        let b = ring_bytes(s, seq.wrapping_sub(s.snd_una) as int, n as int);
        lemma_emit_tells(s, flags::ACK | flags::PSH, seq, data_opts(s), b);
        reveal(charged);
        reveal(rxt_noted);
        reveal(ack_sent);
        reveal(arm_rto_if_idle);
        reveal(arm_rto);
        reveal(arm_tlp);
    }
}

proof fn lemma_send_fresh_tells(s: TcbView)
    requires
        addressable(s),
    ensures
        tells(s, send_fresh(s).0),
{
    reveal(send_fresh);
    lemma_data_opts(s);
    if fin_due(s) && !tx_full(s) {
        reveal(emit_fin);
        let bits = flags::FIN | flags::ACK;
        lemma_emit_tells(s, bits, s.snd_nxt, data_opts(s), Seq::empty());
        reveal(fin_placed);
        reveal(nxt_moved);
        reveal(bump_max);
        reveal(ack_sent);
        reveal(arm_rto_if_idle);
        reveal(arm_rto);
    } else if s.snd_wnd == 0 {
        reveal(arm_persist);
        reveal(rto_kept);
    } else if sendable(s) > 0 && !tx_full(s) {
        reveal(sendable);
        reveal(payload_mss);
        let n = sendable(s);
        let b = ring_bytes(s, flight(s) as int, n);
        reveal(emit_new);
        lemma_emit_tells(s, flags::ACK | flags::PSH, s.snd_nxt, data_opts(s), b);
        reveal(nxt_moved);
        reveal(bump_max);
        reveal(charged);
        reveal(ack_sent);
        reveal(arm_rto_if_idle);
        reveal(arm_rto);
        reveal(arm_tlp);
    }
}

proof fn lemma_send_lost_tells(s: TcbView)
    requires
        addressable(s),
    ensures
        tells(s, send_lost(s).0),
{
    reveal(send_lost);
    lemma_send_recovery_tells(s);
    let t = lost_taken(s);
    assert(tells(s, t)) by {
        reveal(lost_taken);
    }
    lemma_send_recovery_tells(t);
    lemma_tells_again(s, t, send_recovery(t).0);
    if let Some((seq, bytes)) = lost_target(t, s.lost[0]) {
        reveal(lost_target);
        lemma_retransmit_tells(t, seq, bytes);
        lemma_tells_again(s, t, retransmit(t, seq, bytes));
    }
}

proof fn lemma_send_recovery_tells(s: TcbView)
    requires
        addressable(s),
    ensures
        tells(s, send_recovery(s).0),
{
    reveal(send_recovery);
    lemma_send_fresh_tells(s);
    if let Some((seq, bytes)) = recovery_target(s) {
        reveal(recovery_target);
        lemma_retransmit_tells(s, seq, bytes);
    }
}

proof fn lemma_send_some_tells(s: TcbView, turns: nat)
    requires
        addressable(s),
    ensures
        tells(s, send_some(s, turns)),
    decreases turns,
{
    reveal_with_fuel(send_some, 2);
    if turns > 0 {
        reveal(send_one);
        let l = recovery_left(s);
        assert(tells(s, l)) by {
            reveal(recovery_left);
        }
        lemma_send_lost_tells(s);
        lemma_send_lost_tells(l);
        lemma_tells_again(s, l, send_lost(l).0);
        let t = send_one(s).0;
        lemma_send_some_tells(t, (turns - 1) as nat);
        lemma_tells_again(s, t, send_some(t, (turns - 1) as nat));
    }
}

/// Whatever is sent acknowledges what was received.
pub proof fn lemma_send_data_tells(s: TcbView)
    requires
        addressable(s),
    ensures
        tells(s, send_data(s)),
{
    reveal(send_data);
    lemma_send_some_tells(s, TX_RING_CAP as nat + 2);
}

/// An acknowledgement of something that was sent stages nothing by itself, and leaves alone
/// what is owed.
pub proof fn lemma_take_ack_owed(s: TcbView, g: SegmentView)
    requires
        !seq_gt(g.ack, s.snd_max),
    ensures
        same_owed(s, take_ack(s, g)),
        same_both(s, take_ack(s, g)),
{
    reveal(take_ack);
    let (t, newly) = note_sacks(note_echo(patience_restored(s), g), g);
    assert(same_owed(s, t) && same_both(s, t)) by {
        reveal(patience_restored);
        reveal(note_echo);
        reveal(recovering);
        reveal(note_sacks);
        reveal(sacks_noted);
    }
    if seq_le(g.ack, t.snd_una) {
        reveal(ack_repeated);
        let a = count_repeat(t, g);
        assert(same_owed(t, a) && same_both(t, a)) by {
            reveal(count_repeat);
            reveal(repeat_counted);
            lemma_scan_owed(t);
            lemma_scan_owed(repeat_counted(t));
        }
        let b = if newly > 0 {
            delivery_credited(a, newly)
        } else {
            a
        };
        assert(same_owed(a, b) && same_both(a, b)) by {
            reveal(delivery_credited);
        }
        lemma_scan_owed(b);
        reveal(take_window);
    } else {
        reveal(ack_advanced);
        let acked = g.ack.wrapping_sub(t.snd_una);
        let a = ack_advance(t, g.ack);
        assert(same_owed(t, a) && same_both(t, a)) by {
            reveal(ack_advance);
            reveal(una_moved);
            reveal(user_timer_restarted);
            reveal(nxt_caught_up);
        }
        let b = ack_recovery(ack_prune(a), acked);
        assert(same_owed(a, b) && same_both(a, b)) by {
            reveal(ack_prune);
            reveal(delivery_noted);
            reveal(records_pruned);
            reveal(ack_recovery);
            reveal(rxt_caught_up);
            reveal(delivery_credited);
            reveal(recovery_ended);
        }
        lemma_scan_owed(b);
        let c = tlp_reset(rack_scan(b), acked);
        assert(same_owed(b, c) && same_both(b, c)) by {
            reveal(tlp_reset);
        }
        let d = ack_sample(c, g);
        assert(same_owed(c, d) && same_both(c, d)) by {
            reveal(ack_sample);
            reveal(rtt_from_echo);
            reveal(rtt_from_probe);
            reveal(probe_dropped);
            reveal(rtt_sample);
        }
        let e = ack_timing(c, g);
        assert(same_owed(d, e) && same_both(d, e)) by {
            reveal(ack_timing);
            reveal(rto_stopped);
            reveal(arm_rto);
        }
        reveal(ack_fin);
        reveal(take_window);
    }
}

proof fn lemma_scan_owed(s: TcbView)
    ensures
        same_owed(s, rack_scan(s)) && same_both(s, rack_scan(s)),
        same_owed(s, begin_recovery(s)) && same_both(s, begin_recovery(s)),
{
    lemma_rack_scan(s);
    lemma_rack_scan_out(s);
    lemma_begin_recovery(s);
    reveal(rack_scan);
    reveal(reo_updated);
    reveal(lost_queued);
    reveal(begin_recovery);
    reveal(recovering);
    reveal(arm_rto);
}

proof fn lemma_drain_owed(s: TcbView)
    ensures
        same_owed(s, drain(s)),
        same_owed(s, window_updated(s)),
{
    reveal(drain);
    reveal(window_updated);
    lemma_drain_runs_owed(s, MAX_HOLES as nat + 2);
}

proof fn lemma_drain_runs_owed(s: TcbView, turns: nat)
    ensures
        same_owed(s, drain_runs(s, turns)),
    decreases turns,
{
    reveal_with_fuel(drain_runs, 2);
    reveal(run_drained);
    let i = first_starting(s.reasm.runs, s.rcv_nxt, 0);
    if turns > 0 && i < s.reasm.runs.len() {
        let n = min(s.reasm.runs[i].data.len() as int, s.cap - s.recv_ring.len());
        lemma_drain_runs_owed(run_drained(s, i, n), (turns - 1) as nat);
    }
}

proof fn lemma_take_owed(s: TcbView, g: SegmentView)
    ensures
        same_owed(s, take_payload(s, g).0),
        same_owed(s, take_fin(s, g)),
{
    let r = received(s, g.payload);
    let h = set_aside(s, g.seq, g.payload);
    assert(same_owed(s, r) && same_owed(s, h)) by {
        reveal(received);
        reveal(set_aside);
    }
    lemma_drain_owed(r);
    lemma_drain_owed(h);
    lemma_drain_owed(s);
    let i = take_in_order(s, g.payload).0;
    assert(same_owed(s, i)) by {
        reveal(take_in_order);
    }
    lemma_drain_owed(i);
    reveal(take_payload);
    reveal(take_fin);
    reveal(fin_received);
}

/// `t` has acknowledged a segment that `s` has got, at once if `urgent`, or owes that within
/// 40 milliseconds of the first segment that is owed it.
pub open spec fn answered(s: TcbView, t: TcbView, urgent: bool) -> bool {
    told(s.tx.len(), t) || !urgent && {
        &&& t.pending_ack
        &&& s.ack_deadline is None ==> t.ack_deadline == Some(s.now_ms.wrapping_add(40))
        &&& s.ack_deadline is Some ==> t.ack_deadline == s.ack_deadline
    }
}

/// A segment is answered at once if it moves nothing on, carries a FIN, fills a hole or is the
/// second in a row that is owed an acknowledgement. Another one is not: its acknowledgement
/// is owed, and timed if it is the first.
pub proof fn law_answer_is_timely(c: TcbView, g: SegmentView, advanced: bool, filled: bool)
    requires
        addressable(c),
        c.tx.len() < TX_RING_CAP,
        g.payload.len() > 0 || g.has(flags::FIN),
    ensures
        ({
            let d = answer(c, g, advanced, filled);
            &&& addressable(d) && d.rcv_nxt == c.rcv_nxt && c.tx.len() <= d.tx.len()
            &&& if !advanced || g.has(flags::FIN) || filled || c.delayed_ack_count > 0 {
                d.tx.len() > c.tx.len() && acks(d.tx[d.tx.len() - 1], c.rcv_nxt)
            } else {
                &&& d.tx == c.tx && d.pending_ack
                &&& c.ack_deadline is None ==> d.ack_deadline == Some(c.now_ms.wrapping_add(40))
                &&& c.ack_deadline is Some ==> d.ack_deadline == c.ack_deadline
            }
        }),
{
    lemma_pure_ack_tells(c);
    let o = ack_owed(c);
    assert(addressable(o) && o.tx == c.tx && o.rcv_nxt == c.rcv_nxt && o.pending_ack && o.now_ms
        == c.now_ms && o.ack_deadline == c.ack_deadline && (o.delayed_ack_count >= 2
        <==> c.delayed_ack_count >= 1)) by {
        reveal(ack_owed);
    }
    lemma_pure_ack_tells(o);
    reveal(answer);
    reveal(owe_ack);
    reveal(ack_timed);
}

/// What becomes of the answer `d` when more is sent.
proof fn lemma_sent_on(s: TcbView, d: TcbView, urgent: bool)
    requires
        addressable(d),
        s.tx.len() <= d.tx.len(),
        d.tx.len() > s.tx.len() && acks(d.tx[d.tx.len() - 1], d.rcv_nxt) || !urgent && {
            &&& d.tx == s.tx && d.pending_ack
            &&& s.ack_deadline is None ==> d.ack_deadline == Some(s.now_ms.wrapping_add(40))
            &&& s.ack_deadline is Some ==> d.ack_deadline == s.ack_deadline
        },
    ensures
        answered(s, send_data(d), urgent),
        send_data(d).rcv_nxt == d.rcv_nxt,
{
    lemma_send_data_tells(d);
    let t = send_data(d);
    if t.tx.len() > d.tx.len() {
        assert(acks(t.tx[t.tx.len() - 1], t.rcv_nxt));
    } else if d.tx.len() > s.tx.len() {
        assert(t.tx[d.tx.len() - 1] == d.tx[d.tx.len() - 1]);
    }
}

proof fn lemma_accept_answers(s: TcbView, g: SegmentView)
    requires
        addressable(s),
        s.tx.len() < TX_RING_CAP,
        s.recv_ring.len() <= s.cap,
        !seq_gt(g.ack, s.snd_max),
        g.payload.len() > 0 || g.has(flags::FIN),
    ensures
        answered(
            s,
            accept(s, g),
            accept(s, g).rcv_nxt == s.rcv_nxt || g.has(flags::FIN) || s.delayed_ack_count > 0
                || accept(s, g).recv_ring.len() > s.recv_ring.len() + g.payload.len(),
        ),
{
    lemma_take_ack_owed(s, g);
    let a = if g.has(flags::ACK) {
        take_ack(s, g)
    } else {
        s
    };
    lemma_take_owed(a, g);
    lemma_take_terms(a, g);
    let (p, filled) = take_payload(a, g);
    lemma_take_owed(p, g);
    lemma_take_terms(p, g);
    let c = take_fin(p, g);
    assert(addressable(c) && c.tx == s.tx && same_owed(s, c) && c.now_ms == s.now_ms);
    let advanced = c.rcv_nxt != s.rcv_nxt;
    law_answer_is_timely(c, g, advanced, filled);
    let d = answer(c, g, advanced, filled);
    assert(p.recv_ring.len() > a.recv_ring.len() + g.payload.len() ==> filled) by {
        reveal(take_payload);
        reveal(take_in_order);
        reveal(received);
        reveal(set_aside);
        reveal(window_updated);
    }
    assert(c.recv_ring == p.recv_ring) by {
        reveal(take_fin);
        reveal(fin_received);
    }
    lemma_answer_send(c, g, advanced, filled);
    lemma_send_data(d);
    let urgent = !advanced || g.has(flags::FIN) || s.delayed_ack_count > 0 || filled;
    lemma_sent_on(s, d, urgent);
    reveal(accept);
}

/// What a segment with data, or with a FIN, is answered. It is acknowledged at once if it
/// does not move on what was received, being ahead of order or old; if it carries the FIN; if
/// it fills a hole; and if it is the second in a row that is owed an acknowledgement. Else the acknowledgement
/// may wait, for 40 milliseconds at most from the first segment that is owed one.
pub proof fn law_data_is_acknowledged(s: TcbView, b: Seq<u8>)
    requires
        addressable(s),
        synchronized(s.state),
        s.tx.len() < TX_RING_CAP,
        s.recv_ring.len() <= s.cap,
        heard(s, b),
        !seq_gt(parse_packet(b)->0.ack, s.snd_max),
        parse_packet(b)->0.payload.len() > 0 || parse_packet(b)->0.has(flags::FIN),
    ensures
        ({
            let g = parse_packet(b)->0;
            let t = injected(s, b).0;
            answered(
                s,
                t,
                t.rcv_nxt == s.rcv_nxt || g.has(flags::FIN) || s.delayed_ack_count > 0
                    || t.recv_ring.len() > s.recv_ring.len() + g.payload.len(),
            )
        }),
{
    let g = parse_packet(b)->0;
    let n = note_marks(s, g);
    assert(addressable(n) && same_owed(s, n) && n.tx == s.tx && n.rcv_nxt == s.rcv_nxt && n.snd_max
        == s.snd_max && n.now_ms == s.now_ms && n.recv_ring == s.recv_ring
        && n.cap == s.cap) by {
        reveal(note_marks);
    }
    let t = on_synchronised(s, g);
    let urgent = t.rcv_nxt == s.rcv_nxt || g.has(flags::FIN) || s.delayed_ack_count > 0
        || t.recv_ring.len() > s.recv_ring.len() + g.payload.len();
    assert(answered(s, t, urgent)) by {
        reveal(on_synchronised);
        lemma_accept_answers(n, g);
        let r = refuse(n, g);
        assert(told(n.tx.len(), r)) by {
            reveal(refuse);
            lemma_take_ack_owed(n, g);
            lemma_pure_ack_tells(n);
            lemma_pure_ack_tells(take_ack(n, g));
            assert(acks(r.tx[r.tx.len() - 1], r.rcv_nxt));
        }
    }
    reveal(on_segment);
    reveal(peer_alive);
    let u = injected(s, b).0;
    assert(u.tx == t.tx && u.rcv_nxt == t.rcv_nxt && u.recv_ring == t.recv_ring && same_owed(t, u));
    if told(s.tx.len(), t) {
        let j = choose|j: int| s.tx.len() <= j < t.tx.len() && acks(#[trigger] t.tx[j], t.rcv_nxt);
        assert(acks(u.tx[j], u.rcv_nxt));
    }
}

/// What comes ahead of order is held: a segment in the window that stands free of what is
/// held, and finds room, is kept whole until the hole before it is filled.
pub proof fn law_ahead_of_order_is_held(s: TcbView, b: Seq<u8>, slot: int)
    requires
        sound(s),
        s.state is Established || s.state is FinWait1 || s.state is FinWait2,
        heard(s, b),
        reasm_ok(s.reasm),
        all_ahead(s.reasm.runs, s.rcv_nxt),
        ({
            let g = parse_packet(b)->0;
            &&& acceptable(s, g.seq, g.payload.len() as u32)
            &&& 0 < g.seq.wrapping_sub(s.rcv_nxt) < 0x8000_0000
            &&& free_standing(s.reasm.runs, Incoming { seq: g.seq, data: g.payload }, s.rcv_nxt)
            &&& 0 < g.payload.len() <= 4096
        }),
        0 <= slot < MAX_HOLES && !used(s.reasm.runs[slot]),
    ensures
        ({
            let g = parse_packet(b)->0;
            let t = injected(s, b).0;
            &&& t.rcv_nxt == s.rcv_nxt && t.recv_ring == s.recv_ring
            &&& forall|i: int|
                0 <= i < g.payload.len() ==> holds(
                    t.reasm.runs,
                    g.seq.wrapping_add(i as u32),
                    #[trigger] g.payload[i],
                )
        }),
{
    let g = parse_packet(b)->0;
    let n = note_marks(s, g);
    assert(sound(n) && n.state == s.state && n.rcv_nxt == s.rcv_nxt && n.reasm == s.reasm
        && n.recv_ring == s.recv_ring && acceptable(n, g.seq, g.payload.len() as u32)) by {
        reveal(note_marks);
        reveal(acceptable);
    }
    let a = if g.has(flags::ACK) {
        take_ack(n, g)
    } else {
        n
    };
    assert(a.rcv_nxt == s.rcv_nxt && a.reasm == s.reasm && a.recv_ring == s.recv_ring && (a.state
        is Established || a.state is FinWait1 || a.state is FinWait2)) by {
        lemma_take_ack_sound(n, g);
    }
    let w = inserted(s.reasm, g.seq, g.payload, s.rcv_nxt).0;
    let (p, filled) = take_payload(a, g);
    assert(p.reasm == w && p.rcv_nxt == s.rcv_nxt && p.recv_ring == s.recv_ring) by {
        reveal(take_payload);
        reveal(set_aside);
        reveal(window_updated);
    }
    let c = take_fin(p, g);
    assert(c == p) by {
        reveal(take_fin);
    }
    lemma_answer_send(c, g, c.rcv_nxt != n.rcv_nxt, filled);
    lemma_send_data(answer(c, g, c.rcv_nxt != n.rcv_nxt, filled));
    let t = injected(s, b).0;
    assert(t.reasm == w && t.rcv_nxt == s.rcv_nxt && t.recv_ring == s.recv_ring) by {
        reveal(on_segment);
        reveal(on_synchronised);
        reveal(accept);
        reveal(peer_alive);
    }
    law_free_segment_is_held(s.reasm, g.seq, g.payload, s.rcv_nxt, slot);
    assert forall|i: int| 0 <= i < g.payload.len() implies holds(
        t.reasm.runs,
        g.seq.wrapping_add(i as u32),
        #[trigger] g.payload[i],
    ) by {
        let p = Incoming { seq: g.seq, data: g.payload };
        assert(brings(p, g.seq.wrapping_add(i as u32), g.payload[i]));
    }
}

/// The window follows what is received: after a segment with data in the window it is what is
/// left of the buffer, less what waits for the application and what is held out of order.
pub proof fn law_window_follows_what_is_received(s: TcbView, b: Seq<u8>)
    requires
        sound(s),
        s.state is Established || s.state is FinWait1 || s.state is FinWait2,
        heard(s, b),
        parse_packet(b)->0.payload.len() > 0,
        acceptable(s, parse_packet(b)->0.seq, parse_packet(b)->0.payload.len() as u32),
    ensures
        ({
            let t = injected(s, b).0;
            t.rcv_wnd == max(t.cap - t.recv_ring.len() - held(t.reasm.runs), 0)
        }),
{
    let g = parse_packet(b)->0;
    let n = note_marks(s, g);
    assert(sound(n) && n.state == s.state && acceptable(n, g.seq, g.payload.len() as u32)) by {
        reveal(note_marks);
        reveal(acceptable);
    }
    let a = if g.has(flags::ACK) {
        take_ack(n, g)
    } else {
        n
    };
    assert(a.cap <= 0x4000_0000 && (a.state is Established || a.state is FinWait1 || a.state
        is FinWait2)) by {
        lemma_take_ack_sound(n, g);
    }
    let (p, filled) = take_payload(a, g);
    lemma_take_terms(a, g);
    assert(p.rcv_wnd == max(p.cap - p.recv_ring.len() - held(p.reasm.runs), 0)) by {
        reveal(take_payload);
        reveal(window_updated);
    }
    let c = take_fin(p, g);
    assert(c.rcv_wnd == p.rcv_wnd && c.cap == p.cap && c.recv_ring == p.recv_ring && c.reasm
        == p.reasm) by {
        reveal(take_fin);
        reveal(fin_received);
    }
    lemma_answer_send(c, g, c.rcv_nxt != n.rcv_nxt, filled);
    lemma_send_data(answer(c, g, c.rcv_nxt != n.rcv_nxt, filled));
    reveal(on_segment);
    reveal(on_synchronised);
    reveal(accept);
    reveal(peer_alive);
}

} // verus!
