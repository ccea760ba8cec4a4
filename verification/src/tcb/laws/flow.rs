//! How much is sent, what is sent first, and what the retransmission timer is set to.

use crate::MSS;
use crate::num::{max, min};
use crate::scoreboard::next_of;
use crate::state::synchronized;
use crate::tcb::laws::clocks::lemma_data_parses;
use crate::tcb::laws::frame::{lemma_pure_ack, lemma_send_data};
use crate::tcb::laws::reactions::lemma_take_limits;
use crate::tcb::laws::receipts::lemma_take_ack_owed;
use crate::tcb::laws::round_trips::acks_something;
use crate::tcb::laws::segments::{lemma_answer_send, lemma_take_payload_send};
use crate::tcb::laws::sending::lemma_pure_ack_send;
use crate::tcb::laws::staged::{addressable, lemma_data_opts, lemma_take_terms};
use crate::tcb::model::{
    accept, acceptable, ack_advanced, ack_fin, ack_sent, ack_timing, answer, arm_rto,
    arm_rto_if_idle, arm_tlp, buffered, bump_max, can_retransmit, charged, data_opts, datagram_out,
    emit, emit_again, emit_fin, emit_new, feedback, fin_due, fin_placed, fin_received, flight,
    injected, lost_taken, lost_target, note_echo, note_marks, note_sacks, nxt_moved, on_segment,
    on_synchronised, patience_restored, payload_mss, peer_alive, recovering, recovery_left,
    recovery_target, refuse, retransmit, ring_bytes, rto_stopped, rxt_noted, sacks_noted,
    segment_out, send_data, send_fresh, send_lost, send_one, send_recovery, send_some, sendable,
    take_ack, take_fin, take_payload, take_window, tx_full, TcbView,
};
use crate::tx_ring::TX_RING_CAP;
use crate::wire::{flags, law_emit_then_parse_round_trip, packet, parse_packet};
use crate::wire::flags::{ACK, FIN, PSH, SYN};
use crate::wire::options::{lemma_option_len, option_len};
use vstd::prelude::*;

verus! {

/// What goes out is as much as may: no more bytes than are counted could go out now without
/// going beyond the peer's window, the congestion window, the credit of a recovery, what is
/// buffered, or what fits a segment.
pub proof fn law_as_much_goes_out_as_may(s: TcbView, n: int)
    requires
        n > 0,
        s.snd_nxt.wrapping_sub(s.snd_una) + n <= s.snd_wnd,
        s.snd_nxt.wrapping_sub(s.snd_una) + n <= s.cc.cwnd,
        s.cc.in_recovery ==> n <= s.cc.snd_credit,
        s.snd_nxt.wrapping_sub(s.snd_una) + n <= s.send_ring.len(),
        n <= payload_mss(s),
        s.send_ring.len() <= u32::MAX,
    ensures
        n <= sendable(s),
{
    reveal(sendable);
}

/// A segment is filled: its data and its options together come to the smaller of the two
/// segment sizes.
pub proof fn law_segment_is_filled(s: TcbView)
    requires
        s.local_mss <= MSS,
        536 <= s.local_mss,
        536 <= s.peer_mss,
    ensures
        payload_mss(s) + option_len(data_opts(s)) == (if s.local_mss < s.peer_mss {
            s.local_mss
        } else {
            s.peer_mss
        }),
        !s.ts_enabled && !s.sack_enabled ==> option_len(data_opts(s)) == 0,
        s.ts_enabled && !s.sack_enabled ==> option_len(data_opts(s)) == 12,
        option_len(data_opts(s)) <= 40,
{
    lemma_data_opts(s);
    lemma_option_len(data_opts(s));
    reveal(payload_mss);
    reveal(data_opts);
}

/// `b` holds the `n` bytes of the send buffer of `s` that start at the sequence number `seq`.
pub open spec fn carries_bytes(s: TcbView, b: Seq<u8>, seq: u32, n: int) -> bool {
    let off = seq.wrapping_sub(s.snd_una) as int;
    &&& parse_packet(b) matches Some(g)
    &&& g.seq == seq
    &&& g.payload == s.send_ring.subrange(off, off + n)
}

/// New data goes out in order: what waits is sent from the next byte on.
pub proof fn law_new_data_is_sent_next(s: TcbView)
    requires
        addressable(s),
        !tx_full(s),
        !s.cc.in_recovery,
        s.snd_wnd > 0,
        !fin_due(s),
        sendable(s) > 0,
    ensures
        ({
            let t = send_one(s).0;
            &&& send_one(s).1
            &&& t.tx.len() == s.tx.len() + 1
            &&& carries_bytes(s, t.tx.last(), s.snd_nxt, sendable(s))
            &&& t.snd_nxt == s.snd_nxt.wrapping_add(sendable(s) as u32)
            &&& s.rto_deadline is None ==> t.rto_deadline == Some(
                s.now_ms.wrapping_add(s.rto_ms as u64),
            )
            &&& s.rto_deadline is Some ==> t.rto_deadline == s.rto_deadline
        }),
{
    reveal(send_one);
    reveal(send_lost);
    reveal(send_recovery);
    reveal(send_fresh);
    let n = sendable(s);
    assert(0 < n <= payload_mss(s) && flight(s) + n <= s.send_ring.len() && n <= MSS) by {
        reveal(sendable);
        reveal(payload_mss);
    }
    let b = ring_bytes(s, flight(s) as int, n);
    lemma_data_opts(s);
    lemma_data_parses(s, flags::ACK | flags::PSH, s.snd_nxt, data_opts(s), b);
    reveal(emit_new);
    reveal(emit);
    reveal(nxt_moved);
    reveal(bump_max);
    reveal(charged);
    reveal(ack_sent);
    reveal(arm_rto_if_idle);
    reveal(arm_rto);
    reveal(arm_tlp);
}

/// Recovery begins with the oldest unacknowledged byte: it is what is sent again first, as
/// much of it as the credit and a segment allow.
pub proof fn law_recovery_begins_at_the_oldest_byte(s: TcbView)
    requires
        addressable(s),
        !tx_full(s),
        s.cc.in_recovery,
        s.cc.snd_credit > 0,
        s.lost.len() == 0,
        s.rxt_unacked == 0,
        s.rxt_seq == s.snd_una,
        0 < s.snd_max.wrapping_sub(s.snd_una) <= s.send_ring.len(),
        s.send_ring.len() <= 0x4000_0000,
        payload_mss(s) > 0,
    ensures
        ({
            let t = send_one(s).0;
            let n = min(
                s.snd_max.wrapping_sub(s.snd_una) as int,
                min(s.cc.snd_credit as int, payload_mss(s)),
            );
            &&& t.tx.len() == s.tx.len() + 1
            &&& carries_bytes(s, t.tx.last(), s.snd_una, n)
            &&& t.cc.snd_credit == s.cc.snd_credit - n
            &&& t.rxt_unacked == n && t.rxt_seq == s.snd_una.wrapping_add(n as u32)
        }),
{
    reveal(send_one);
    reveal(send_lost);
    reveal(send_recovery);
    reveal(recovery_target);
    let n = min(
        s.snd_max.wrapping_sub(s.snd_una) as int,
        min(s.cc.snd_credit as int, payload_mss(s)),
    );
    assert(payload_mss(s) <= MSS) by {
        reveal(payload_mss);
    }
    assert(can_retransmit(s, s.snd_una, n) && buffered(s, s.snd_una, n) == n);
    reveal(retransmit);
    reveal(emit_again);
    let b = ring_bytes(s, 0, n);
    lemma_data_opts(s);
    lemma_data_parses(s, flags::ACK | flags::PSH, s.snd_una, data_opts(s), b);
    reveal(emit);
    reveal(charged);
    reveal(rxt_noted);
    reveal(ack_sent);
    reveal(arm_rto_if_idle);
    reveal(arm_rto);
    reveal(arm_tlp);
}

/// The retransmission timer of `s` runs on in `t`, or was started for one timeout from now;
/// the time to a tail loss probe is the same, or two round trips from now.
pub open spec fn rearmed(s: TcbView, t: TcbView) -> bool {
    &&& t.rto_deadline == s.rto_deadline || s.rto_deadline is None && t.rto_deadline == Some(
        s.now_ms.wrapping_add(s.rto_ms as u64),
    )
    &&& t.tlp_deadline == s.tlp_deadline || t.tlp_deadline == Some(
        s.now_ms.wrapping_add(max(2 * max(s.srtt_ms as int, 1), 10) as u64),
    )
    &&& t.now_ms == s.now_ms && t.rto_ms == s.rto_ms && t.srtt_ms == s.srtt_ms
    &&& t.snd_wnd == s.snd_wnd
}

proof fn lemma_rearmed_again(s: TcbView, t: TcbView, u: TcbView)
    requires
        rearmed(s, t),
        rearmed(t, u),
    ensures
        rearmed(s, u),
{
}

proof fn lemma_retransmit_rearmed(s: TcbView, seq: u32, bytes: int)
    ensures
        rearmed(s, retransmit(s, seq, bytes)),
{
    reveal(retransmit);
    reveal(emit_again);
    reveal(emit);
    reveal(charged);
    reveal(rxt_noted);
    reveal(ack_sent);
    reveal(arm_rto_if_idle);
    reveal(arm_rto);
    reveal(arm_tlp);
}

proof fn lemma_send_fresh_rearmed(s: TcbView)
    requires
        s.snd_wnd > 0,
    ensures
        rearmed(s, send_fresh(s).0),
{
    reveal(send_fresh);
    reveal(emit_fin);
    reveal(emit_new);
    reveal(emit);
    reveal(fin_placed);
    reveal(nxt_moved);
    reveal(bump_max);
    reveal(charged);
    reveal(ack_sent);
    reveal(arm_rto_if_idle);
    reveal(arm_rto);
    reveal(arm_tlp);
}

proof fn lemma_send_recovery_rearmed(s: TcbView)
    requires
        s.snd_wnd > 0,
    ensures
        rearmed(s, send_recovery(s).0),
{
    reveal(send_recovery);
    lemma_send_fresh_rearmed(s);
    if let Some((seq, bytes)) = recovery_target(s) {
        lemma_retransmit_rearmed(s, seq, bytes);
    }
}

proof fn lemma_send_lost_rearmed(s: TcbView)
    requires
        s.snd_wnd > 0,
    ensures
        rearmed(s, send_lost(s).0),
{
    reveal(send_lost);
    lemma_send_recovery_rearmed(s);
    let t = lost_taken(s);
    assert(rearmed(s, t)) by {
        reveal(lost_taken);
    }
    lemma_send_recovery_rearmed(t);
    lemma_rearmed_again(s, t, send_recovery(t).0);
    if let Some((seq, bytes)) = lost_target(t, s.lost[0]) {
        lemma_retransmit_rearmed(t, seq, bytes);
        lemma_rearmed_again(s, t, retransmit(t, seq, bytes));
    }
}

proof fn lemma_send_some_rearmed(s: TcbView, turns: nat)
    requires
        s.snd_wnd > 0,
    ensures
        rearmed(s, send_some(s, turns)),
    decreases turns,
{
    reveal_with_fuel(send_some, 2);
    if turns > 0 {
        reveal(send_one);
        let l = recovery_left(s);
        assert(rearmed(s, l)) by {
            reveal(recovery_left);
        }
        lemma_send_lost_rearmed(s);
        lemma_send_lost_rearmed(l);
        lemma_rearmed_again(s, l, send_lost(l).0);
        let t = send_one(s).0;
        lemma_send_some_rearmed(t, (turns - 1) as nat);
        lemma_rearmed_again(s, t, send_some(t, (turns - 1) as nat));
    }
}

/// Sending starts the timers that do not run, and leaves those that do: with an open window,
/// the retransmission timer comes one timeout after the first segment that it covers.
pub proof fn law_sending_starts_the_timers(s: TcbView)
    requires
        s.snd_wnd > 0,
    ensures
        rearmed(s, send_data(s)),
{
    reveal(send_data);
    lemma_send_some_rearmed(s, TX_RING_CAP as nat + 2);
}

/// An acknowledgement of something outstanding restarts the retransmission timer: from then
/// on it comes one timeout later, by the estimate that the acknowledgement left, or not at
/// all.
pub proof fn law_progress_restarts_the_timer(s: TcbView, b: Seq<u8>)
    requires
        synchronized(s.state),
        acks_something(s, b),
        injected(s, b).0.snd_wnd > 0,
    ensures
        ({
            let t = injected(s, b).0;
            t.rto_deadline is None || t.rto_deadline == Some(
                s.now_ms.wrapping_add(t.rto_ms as u64),
            )
        }),
{
    let g = parse_packet(b)->0;
    let n = note_marks(s, g);
    assert(n.snd_una == s.snd_una && n.snd_max == s.snd_max && n.rcv_nxt == s.rcv_nxt && n.rcv_wnd
        == s.rcv_wnd && n.now_ms == s.now_ms) by {
        reveal(note_marks);
    }
    let k = take_ack(n, g);
    assert(timely(s, k)) by {
        lemma_take_ack_owed(n, g);
        reveal(take_ack);
        reveal(ack_advanced);
        reveal(patience_restored);
        reveal(note_echo);
        reveal(recovering);
        reveal(note_sacks);
        reveal(sacks_noted);
        reveal(ack_timing);
        reveal(rto_stopped);
        reveal(arm_rto);
        reveal(ack_fin);
        reveal(take_window);
    }
    lemma_pure_ack(k);
    lemma_pure_ack_send(k);
    lemma_take_payload_send(k, g);
    lemma_take_limits(k, g);
    let (p, filled) = take_payload(k, g);
    lemma_take_limits(p, g);
    lemma_take_terms(k, g);
    let c = take_fin(p, g);
    assert(timely(s, c) && c.snd_wnd == k.snd_wnd) by {
        reveal(take_fin);
        reveal(fin_received);
    }
    let d = answer(c, g, c.rcv_nxt != n.rcv_nxt, filled);
    lemma_answer_send(c, g, c.rcv_nxt != n.rcv_nxt, filled);
    lemma_send_data(d);
    if d.snd_wnd > 0 {
        law_sending_starts_the_timers(d);
    }
    reveal(on_segment);
    reveal(on_synchronised);
    reveal(acceptable);
    reveal(refuse);
    reveal(accept);
    reveal(peer_alive);
}

/// The retransmission timer of `t` does not run, or comes one timeout after the time of `s`.
spec fn timely(s: TcbView, t: TcbView) -> bool {
    &&& t.now_ms == s.now_ms
    &&& t.rto_deadline is None || t.rto_deadline == Some(s.now_ms.wrapping_add(t.rto_ms as u64))
}

/// Recovery goes on with what is lost: behind what was sent again already, the lowest hole
/// that the peer's reports show to be lost comes next, as much of it as the credit and a
/// segment allow.
pub proof fn law_recovery_goes_on_with_the_holes(s: TcbView, seq: u32, len: u32)
    requires
        addressable(s),
        !tx_full(s),
        s.cc.in_recovery,
        s.cc.snd_credit > 0,
        s.lost.len() == 0,
        s.sack_enabled,
        s.rxt_unacked > 0,
        next_of(s.board, s.rxt_seq, s.snd_max, payload_mss(s) as u32) == Some((seq, len)),
        len > 0,
        seq.wrapping_sub(s.snd_una) + len <= s.send_ring.len(),
        payload_mss(s) > 0,
    ensures
        ({
            let t = send_one(s).0;
            let n = min(len as int, min(s.cc.snd_credit as int, payload_mss(s)));
            &&& t.tx.len() == s.tx.len() + 1
            &&& carries_bytes(s, t.tx.last(), seq, n)
            &&& t.cc.snd_credit == s.cc.snd_credit - n
        }),
{
    reveal(send_one);
    reveal(send_lost);
    reveal(send_recovery);
    reveal(recovery_target);
    let n = min(len as int, min(s.cc.snd_credit as int, payload_mss(s)));
    lemma_resent(s, seq, n);
}

/// A loss that is queued is sent again first, as far as the peer does not hold it.
pub proof fn law_queued_loss_is_sent_first(s: TcbView, seq: u32, n: int)
    requires
        addressable(s),
        !tx_full(s),
        s.cc.in_recovery,
        s.cc.snd_credit > 0,
        s.lost.len() > 0,
        lost_target(s, s.lost[0]) == Some((seq, n)),
        n > 0,
        seq.wrapping_sub(s.snd_una) + n <= s.send_ring.len(),
    ensures
        ({
            let t = send_one(s).0;
            &&& t.tx.len() == s.tx.len() + 1
            &&& carries_bytes(s, t.tx.last(), seq, n)
            &&& t.lost == s.lost.skip(1)
        }),
{
    let u = lost_taken(s);
    assert(addressable(u) && !tx_full(u) && u.cc == s.cc && u.snd_una == s.snd_una && u.send_ring
        == s.send_ring && u.tx == s.tx && u.lost == s.lost.skip(1) && lost_target(u, s.lost[0])
        == lost_target(s, s.lost[0]) && payload_mss(u) == payload_mss(s)) by {
        reveal(lost_taken);
        reveal(lost_target);
        reveal(payload_mss);
        reveal(data_opts);
    }
    assert(n <= payload_mss(u)) by {
        reveal(lost_target);
    }
    reveal(send_one);
    reveal(send_lost);
    lemma_resent(u, seq, n);
}

/// What is sent again is one segment with the bytes that are asked for.
proof fn lemma_resent(s: TcbView, seq: u32, n: int)
    requires
        addressable(s),
        !tx_full(s),
        s.cc.in_recovery,
        0 < n <= payload_mss(s),
        seq.wrapping_sub(s.snd_una) + n <= s.send_ring.len(),
    ensures
        ({
            let t = retransmit(s, seq, n);
            &&& can_retransmit(s, seq, n)
            &&& t.tx.len() == s.tx.len() + 1
            &&& carries_bytes(s, t.tx.last(), seq, n)
            &&& t.cc.snd_credit == max(s.cc.snd_credit - n, 0)
            &&& t.lost == s.lost
        }),
{
    assert(payload_mss(s) <= MSS) by {
        reveal(payload_mss);
    }
    assert(can_retransmit(s, seq, n) && buffered(s, seq, n) == n);
    reveal(retransmit);
    reveal(emit_again);
    let b = ring_bytes(s, seq.wrapping_sub(s.snd_una) as int, n);
    lemma_data_opts(s);
    lemma_data_parses(s, flags::ACK | flags::PSH, seq, data_opts(s), b);
    reveal(emit);
    reveal(charged);
    reveal(rxt_noted);
    reveal(ack_sent);
    reveal(arm_rto_if_idle);
    reveal(arm_rto);
    reveal(arm_tlp);
}

/// Our FIN goes out once everything before it is acknowledged, and again as long as it is not:
/// at the sequence number behind the last byte, and with nothing else.
pub proof fn law_fin_goes_out(s: TcbView)
    requires
        addressable(s),
        !tx_full(s),
        !s.cc.in_recovery,
        s.state is FinWait1 || s.state is Closing || s.state is LastAck,
        s.send_ring.len() == 0,
        !s.fin_sent || s.snd_nxt == s.fin_seq,
    ensures
        ({
            let t = send_one(s).0;
            &&& t.tx.len() == s.tx.len() + 1
            &&& parse_packet(t.tx.last()) matches Some(g)
            &&& g.seq == s.snd_nxt && g.has(flags::FIN) && g.has(flags::ACK) && !g.has(flags::SYN)
            &&& g.payload.len() == 0 && g.ack == s.rcv_nxt
            &&& t.fin_sent && t.fin_seq == s.snd_nxt && t.snd_nxt == s.snd_nxt.wrapping_add(1)
            &&& t.rto_deadline is Some
        }),
{
    reveal(send_one);
    reveal(send_lost);
    reveal(send_recovery);
    reveal(send_fresh);
    reveal(emit_fin);
    lemma_data_opts(s);
    let bits = flags::FIN | flags::ACK;
    lemma_fin_bits();
    let g = segment_out(s, bits, s.snd_nxt, s.rcv_nxt, data_opts(s), Seq::empty());
    assert(g.has(flags::FIN) && g.has(flags::ACK) && !g.has(flags::SYN)) by {
        reveal(segment_out);
        reveal(feedback);
    }
    reveal(emit);
    reveal(datagram_out);
    reveal(segment_out);
    law_emit_then_parse_round_trip(g, s.ip_id, Seq::empty());
    assert(packet(g, s.ip_id) + Seq::<u8>::empty() =~= packet(g, s.ip_id));
    reveal(fin_placed);
    reveal(nxt_moved);
    reveal(bump_max);
    reveal(ack_sent);
    reveal(arm_rto_if_idle);
    reveal(arm_rto);
}

proof fn lemma_fin_bits()
    by (bit_vector)
    ensures
        (0x01u8 | 0x10u8) & 0x01u8 != 0 && (0x01u8 | 0x10u8) & 0x10u8 != 0,
        (0x01u8 | 0x10u8) & 0x02u8 == 0,
        ((0x01u8 | 0x10u8) | 0x40u8) & 0x01u8 != 0 && ((0x01u8 | 0x10u8) | 0x40u8) & 0x10u8 != 0,
        ((0x01u8 | 0x10u8) | 0x40u8) & 0x02u8 == 0,
{
}

} // verus!
