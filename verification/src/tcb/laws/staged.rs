//! What a connection stages keeps to what was agreed on with the peer: congestion marks are
//! echoed while they are not answered, timestamps are sent and echoed, and no segment is
//! longer than the peer said that it takes.

use crate::MSS;
use crate::num::{max, min};
use crate::reassembly::{first_starting, held, sack_report, MAX_HOLES};
use crate::send_queue::highest_open;
use crate::state::State;
use crate::tcb::laws::frame::{lemma_begin_recovery, lemma_rack_scan};
use crate::tcb::laws::outbound::{lemma_options_fit, lemma_rack_scan_out, options_fit};
use crate::tcb::model::{
    aborted, accept, ack_advance, ack_advanced, ack_fin, ack_owed, ack_prune, ack_recovery,
    ack_repeated, ack_sample, ack_sent, ack_timed, ack_timing, advertised, agreed, answer, app_recv,
    app_recv_len, app_send, arm_persist, arm_rto, arm_rto_if_idle, arm_tlp, begin_recovery,
    buffered, bump_max, can_retransmit, charged, closed, collapse, connected, count_repeat,
    count_timeout, data_buffered, data_opts, data_read, datagram_out, delivery_credited,
    delivery_noted, drain, drain_runs, emit, emit_again, emit_fin, emit_new, emit_synack,
    emit_window_probe, feedback, fin_due, fin_placed, fin_received, fire_tlp, flight, for_us,
    given_up, half_open, handshake_done, in_state, injected, keepalive_counted, lost_taken,
    lost_target, may_transmit, note_echo, note_marks, note_sacks, nxt_caught_up, nxt_moved,
    on_listen, on_reset, on_segment, on_syn_rcvd, on_syn_sent, on_synchronised, opening, owe_ack,
    patience_restored, payload_mss, peer_alive, persist_backed_off, pinned, probe_dropped, pure_ack,
    rack_disarmed, rack_scan, received, records_pruned, recovering, recovery_ended, recovery_left,
    recovery_target, refuse, relisten, repeat_counted, resend_handshake, reset, reset_by_peer,
    reset_reply, retransmit, retry_counted, ring_bytes, rto_gives_up, rto_kept, rto_stopped,
    rtt_from_echo, rtt_from_probe, rtt_sample, run_drained, rxt_caught_up, rxt_noted, sacks_noted,
    segment_out, send_data, send_fresh, send_lost, send_one, send_recovery, send_some, send_syn,
    sendable, set_aside, syn_accepted, syn_acked, syn_counted, syn_in_flight, syn_opts,
    synack_accepted, synack_opts, take_ack, take_fin, take_in_order, take_offer, take_payload,
    take_syn, take_synack_options, take_window, tick_ack, tick_keepalive, tick_persist, tick_rack,
    tick_rto, tick_time_wait, tick_timers, tick_tlp, tick_user_timeout, ticked, tlp_disarmed,
    tlp_reset, tlp_spent, tlp_target, torn_down, ts_agreed, tx_full, una_moved, unlistened,
    unpinned, unsent, user_timer_restarted, user_timer_set, window_shift, window_updated, TcbView,
};
use crate::tx_ring::TX_RING_CAP;
use crate::wire::{
    ecn, flags, law_emit_then_parse_round_trip, lemma_bare_lens, packet, parse_packet, SegmentView,
};
use crate::wire::ecn::{ECT_0, NOT_ECT};
use crate::wire::flags::{ACK, CWR, ECE, FIN, PSH, RST, SYN};
use crate::wire::options::{no_options, option_len, OptionsView};
use vstd::arithmetic::power2::pow2;
use vstd::bits::lemma_u32_shr_is_div;
use vstd::prelude::*;

verus! {

/// What was agreed on with the peer, and what each segment tells it.
pub struct Terms {
    /// Congestion notification is in use.
    pub notified: bool,
    /// A congestion mark has arrived that the peer has not answered yet.
    pub marked: bool,
    /// Most bytes of options and data that the peer takes in one segment.
    pub mss: u16,
    /// The clock and the peer's newest timestamp, with timestamps in use.
    pub ts: Option<(u32, u32)>,
    /// Selective acknowledgement is in use.
    pub sack: bool,
    /// The shifts of the peer's windows and of ours.
    pub shifts: (u8, u8),
}

/// What each segment tells the peer of what was received.
pub struct Receipt {
    /// The next byte that is expected.
    pub ack: u32,
    /// The room that is left, in units of the window field.
    pub window: int,
    /// What is held out of order, with selective acknowledgement in use.
    pub blocks: Seq<(u32, u32)>,
}

pub open spec fn terms(s: TcbView) -> Terms {
    Terms {
        notified: s.ecn_enabled,
        marked: s.ce_observed,
        mss: s.peer_mss,
        ts: if s.ts_enabled {
            Some((s.now_ms as u32, s.ts_recent))
        } else {
            None
        },
        sack: s.sack_enabled,
        shifts: (s.snd_wscale, s.rcv_wscale),
    }
}

/// What the receive side of `s` amounts to: the room is what neither waits for the
/// application nor is held out of order.
pub open spec fn receipt(s: TcbView) -> Receipt {
    Receipt {
        ack: s.rcv_nxt,
        window: min(
            max(s.cap - s.recv_ring.len() - held(s.reasm.runs), 0) / pow2(s.rcv_wscale as nat) as int,
            0xFFFF,
        ),
        blocks: if s.sack_enabled {
            sack_report(
                s.reasm.runs,
                if s.ts_enabled {
                    3
                } else {
                    4
                },
            )
        } else {
            Seq::empty()
        },
    }
}

/// The datagram `b` keeps to the terms `c` and tells `r`, or belongs to a handshake. An acknowledgement
/// echoes a mark exactly while there is one to echo; only data answers one; the datagram
/// may be marked exactly if notification is in use. It carries the timestamps that are in
/// use, a reset aside. A reset aside, it acknowledges what was received and
/// offers the room that is left. With its options, its data is not longer than the peer takes.
pub open spec fn proper(c: Terms, r: Receipt, b: Seq<u8>) -> bool {
    &&& parse_packet(b) matches Some(g)
    &&& g.has(flags::SYN) || {
        &&& g.has(flags::ECE) <==> c.notified && c.marked && g.has(flags::ACK)
        &&& g.has(flags::CWR) ==> c.notified && g.payload.len() > 0
        &&& g.ecn == (if c.notified {
            ecn::ECT_0
        } else {
            ecn::NOT_ECT
        })
        &&& g.has(flags::RST) || g.options.ts == c.ts
        &&& g.options.mss is None && g.options.wscale is None && !g.options.sack_permitted
        &&& g.has(flags::RST) || g.ack == r.ack && g.window == r.window && g.options.sack
            == r.blocks
        &&& g.payload.len() > 0 ==> b.len() <= 40 + c.mss
    }
}

/// Each packet that waits in `t` waited in `s` already, at the same place, or keeps to the
/// terms of `t` and tells what has been received before or after.
pub open spec fn stages(s: TcbView, t: TcbView) -> bool {
    forall|k: int|
        0 <= k < t.tx.len() ==> (k < s.tx.len() && #[trigger] t.tx[k] == s.tx[k]) || proper(
            terms(t),
            receipt(s),
            t.tx[k],
        ) || proper(terms(t), receipt(t), t.tx[k])
}

/// The endpoints have addresses, and a segment has room for its options.
pub open spec fn addressable(s: TcbView) -> bool {
    &&& s.local.ip.len() == 4
    &&& s.remote.ip.len() == 4
    &&& s.local_mss <= MSS
    &&& s.peer_mss >= 536
    &&& s.cap <= u32::MAX
    &&& s.rcv_wscale < 32
}

/// `tx` begins with `base`, and what comes behind it keeps to the terms `c` and tells `r`.
#[verifier::opaque]
pub open spec fn conforms(
    tx: Seq<Seq<u8>>,
    base: Seq<Seq<u8>>,
    c: Terms,
    r: Receipt,
) -> bool {
    &&& base.len() <= tx.len()
    &&& forall|k: int|
        0 <= k < tx.len() ==> if k < base.len() {
            #[trigger] tx[k] == base[k]
        } else {
            proper(c, r, tx[k])
        }
}

/// Nothing comes behind what waits.
proof fn lemma_starts(s: TcbView)
    ensures
        addressable(s) ==> keeps(s, s.tx, terms(s), receipt(s)),
{
    reveal(conforms);
}

/// What conforms to the terms of `t` was staged by the step from `s`.
proof fn lemma_conforming_stages(s: TcbView, t: TcbView, r: Receipt)
    requires
        conforms(t.tx, s.tx, terms(t), r),
        r == receipt(s) || r == receipt(t),
    ensures
        stages(s, t),
{
    reveal(conforms);
}

/// The terms of `s` are `c`, its receipt is `r`, and what waits beyond `base` keeps to them.
pub open spec fn keeps(s: TcbView, base: Seq<Seq<u8>>, c: Terms, r: Receipt) -> bool {
    &&& addressable(s)
    &&& terms(s) == c
    &&& receipt(s) == r
    &&& conforms(s.tx, base, c, r)
}

/// What the terms speak of, and what waits, is the same.
pub open spec fn same_terms(s: TcbView, t: TcbView) -> bool {
    &&& t.cap == s.cap
    &&& t.local == s.local
    &&& t.remote == s.remote
    &&& t.local_mss == s.local_mss
    &&& t.peer_mss == s.peer_mss
    &&& t.ecn_enabled == s.ecn_enabled
    &&& t.ce_observed == s.ce_observed
    &&& t.ts_enabled == s.ts_enabled
    &&& t.ts_recent == s.ts_recent
    &&& t.now_ms == s.now_ms
    &&& t.sack_enabled == s.sack_enabled
    &&& t.snd_wscale == s.snd_wscale
    &&& t.rcv_wscale == s.rcv_wscale
    &&& t.tx == s.tx
}

/// The receive side is the same.
pub open spec fn same_receipt(s: TcbView, t: TcbView) -> bool {
    &&& t.rcv_nxt == s.rcv_nxt
    &&& t.recv_ring == s.recv_ring
    &&& t.reasm == s.reasm
}

/// What [`keeps`] speaks of is the same.
pub open spec fn same_both(s: TcbView, t: TcbView) -> bool {
    same_terms(s, t) && same_receipt(s, t)
}

/// What feedback adds to the flags.
pub proof fn lemma_feedback_bits(bits: u8)
    by (bit_vector)
    ensures
        bits & 0xC0u8 == 0 ==> bits & 0x40u8 == 0 && bits & 0x80u8 == 0,
        bits & 0xC0u8 == 0 ==> (bits | 0x40u8) & 0x40u8 != 0 && (bits | 0x40u8) & 0x80u8 == 0,
        bits & 0xC0u8 == 0 ==> (bits | 0x80u8) & 0x40u8 == 0 && (bits | 0x80u8) & 0x80u8 != 0,
        ((bits | 0x40u8) | 0x80u8) & 0x40u8 != 0 && ((bits | 0x40u8) | 0x80u8) & 0x80u8 != 0,
        (bits | 0x40u8) & 0x02u8 == bits & 0x02u8,
        (bits | 0x40u8) & 0x04u8 == bits & 0x04u8,
        (bits | 0x40u8) & 0x10u8 == bits & 0x10u8,
        (bits | 0x80u8) & 0x02u8 == bits & 0x02u8,
        (bits | 0x80u8) & 0x04u8 == bits & 0x04u8,
        (bits | 0x80u8) & 0x10u8 == bits & 0x10u8,
        ((bits | 0x40u8) | 0x80u8) & 0x02u8 == bits & 0x02u8,
        ((bits | 0x40u8) | 0x80u8) & 0x04u8 == bits & 0x04u8,
        ((bits | 0x40u8) | 0x80u8) & 0x10u8 == bits & 0x10u8,
        (0x10u8 | 0x08u8) & 0xC0u8 == 0 && (0x10u8 | 0x08u8) & 0x02u8 == 0,
        (0x01u8 | 0x10u8) & 0xC0u8 == 0 && (0x01u8 | 0x10u8) & 0x02u8 == 0,
        (0x04u8 | 0x10u8) & 0xC0u8 == 0 && (0x04u8 | 0x10u8) & 0x04u8 != 0,
        (0x04u8 | 0x10u8) & 0x02u8 == 0,
        0x10u8 & 0xC0u8 == 0 && 0x10u8 & 0x02u8 == 0,
        0x04u8 & 0xC0u8 == 0 && 0x04u8 & 0x02u8 == 0 && 0x04u8 & 0x04u8 != 0,
        (0x02u8 | 0x40u8 | 0x80u8) & 0x02u8 != 0,
        (0x02u8 | 0x10u8 | 0x40u8) & 0x02u8 != 0,
        (0x02u8 | 0x10u8 | 0u8) & 0x02u8 != 0,
        (0x02u8 | 0x10u8) & 0x02u8 != 0,
{
}

/// A segment that keeps to the terms is staged.
proof fn lemma_emit_keeps(
    s: TcbView,
    bits: u8,
    seq: u32,
    ack: u32,
    opts: OptionsView,
    payload: Seq<u8>,
    base: Seq<Seq<u8>>,
)
    requires
        keeps(s, base, terms(s), receipt(s)),
        options_fit(opts),
        payload.len() <= MSS,
        bits & flags::SYN != 0 || bits & 0xC0 == 0 && (bits & flags::RST != 0 || opts.ts == terms(
            s,
        ).ts),
        bits & flags::SYN != 0 || opts.mss is None && opts.wscale is None && !opts.sack_permitted,
        bits & flags::SYN != 0 || bits & flags::RST != 0 || ack == s.rcv_nxt && opts.sack
            == receipt(s).blocks,
        payload.len() > 0 ==> payload.len() + option_len(opts) <= s.peer_mss,
    ensures
        keeps(emit(s, bits, seq, ack, opts, payload), base, terms(s), receipt(s)),
{
    reveal(emit);
    reveal(conforms);
    let t = emit(s, bits, seq, ack, opts, payload);
    if !tx_full(s) {
        reveal(datagram_out);
        reveal(segment_out);
        reveal(feedback);
        lemma_feedback_bits(bits);
        let g = segment_out(s, bits, seq, ack, opts, payload);
        let b = datagram_out(s, bits, seq, ack, opts, payload);
        law_emit_then_parse_round_trip(g, s.ip_id, Seq::empty());
        assert(packet(g, s.ip_id) + Seq::<u8>::empty() =~= packet(g, s.ip_id));
        lemma_bare_lens(g, 0, s.ip_id);
        lemma_u32_shr_is_div(advertised(s), s.rcv_wscale as u32);
        assert(proper(terms(s), receipt(s), b));
        assert forall|k: int| 0 <= k < t.tx.len() implies if k < base.len() {
            #[trigger] t.tx[k] == base[k]
        } else {
            proper(terms(s), receipt(s), t.tx[k])
        } by {
            if k < s.tx.len() {
                assert(t.tx[k] == s.tx[k]);
            }
        }
    }
}

/// A step that leaves alone what [`keeps`] speaks of keeps it.
proof fn lemma_same_keeps(s: TcbView, t: TcbView, base: Seq<Seq<u8>>)
    requires
        keeps(s, base, terms(s), receipt(s)),
        same_both(s, t),
    ensures
        keeps(t, base, terms(s), receipt(s)),
{
}

/// The options of an ordinary segment keep to the terms.
pub proof fn lemma_data_opts(s: TcbView)
    ensures
        options_fit(data_opts(s)),
        data_opts(s).ts == terms(s).ts,
        data_opts(s).mss is None && data_opts(s).wscale is None && !data_opts(s).sack_permitted,
        data_opts(s).sack == receipt(s).blocks,
        option_len(data_opts(s)) <= 40,
{
    lemma_options_fit(s);
    reveal(data_opts);
}

pub proof fn lemma_pure_ack_keeps(s: TcbView, base: Seq<Seq<u8>>)
    requires
        keeps(s, base, terms(s), receipt(s)),
    ensures
        keeps(pure_ack(s), base, terms(s), receipt(s)),
{
    reveal(pure_ack);
    reveal(ack_sent);
    lemma_data_opts(s);
    lemma_feedback_bits(0);
    lemma_emit_keeps(s, flags::ACK, s.snd_nxt, s.rcv_nxt, data_opts(s), Seq::empty(), base);
}

proof fn lemma_reset_reply_keeps(s: TcbView, seq: u32, ack: u32, base: Seq<Seq<u8>>)
    requires
        keeps(s, base, terms(s), receipt(s)),
    ensures
        keeps(reset_reply(s, seq, ack), base, terms(s), receipt(s)),
{
    reveal(reset_reply);
    lemma_options_fit(s);
    lemma_feedback_bits(0);
    lemma_emit_keeps(s, flags::RST, seq, ack, no_options(), Seq::empty(), base);
}

proof fn lemma_emit_again_keeps(s: TcbView, seq: u32, n: u32, base: Seq<Seq<u8>>)
    requires
        keeps(s, base, terms(s), receipt(s)),
        seq.wrapping_sub(s.snd_una) + n <= s.send_ring.len(),
        n <= payload_mss(s),
    ensures
        keeps(emit_again(s, seq, n), base, terms(s), receipt(s)),
{
    reveal(emit_again);
    reveal(payload_mss);
    lemma_data_opts(s);
    lemma_feedback_bits(0);
    let b = ring_bytes(s, seq.wrapping_sub(s.snd_una) as int, n as int);
    let bits = flags::ACK | flags::PSH;
    lemma_emit_keeps(s, bits, seq, s.rcv_nxt, data_opts(s), b, base);
    let t = emit(s, bits, seq, s.rcv_nxt, data_opts(s), b);
    assert(same_both(t, emit_again(s, seq, n))) by {
        reveal(charged);
        reveal(rxt_noted);
        reveal(ack_sent);
        reveal(arm_rto_if_idle);
        reveal(arm_rto);
        reveal(arm_tlp);
    }
}

proof fn lemma_retransmit_keeps(s: TcbView, seq: u32, bytes: int, base: Seq<Seq<u8>>)
    requires
        keeps(s, base, terms(s), receipt(s)),
        bytes <= payload_mss(s),
    ensures
        keeps(retransmit(s, seq, bytes), base, terms(s), receipt(s)),
{
    reveal(retransmit);
    reveal(payload_mss);
    if can_retransmit(s, seq, bytes) {
        lemma_emit_again_keeps(s, seq, buffered(s, seq, bytes) as u32, base);
    }
}

proof fn lemma_fire_tlp_keeps(s: TcbView, base: Seq<Seq<u8>>)
    requires
        keeps(s, base, terms(s), receipt(s)),
    ensures
        keeps(fire_tlp(s), base, terms(s), receipt(s)),
{
    let t = tlp_disarmed(s);
    assert(same_both(s, t)) by {
        reveal(tlp_disarmed);
    }
    lemma_same_keeps(s, t, base);
    assert(same_both(t, tlp_spent(t))) by {
        reveal(tlp_spent);
    }
    lemma_same_keeps(t, tlp_spent(t), base);
    if let Some(e) = highest_open(t.sent, t.board.ranges) {
        let (start, bytes) = tlp_target(t, e);
        assert(bytes <= payload_mss(t)) by {
            reveal(tlp_target);
            reveal(payload_mss);
        }
        lemma_retransmit_keeps(t, start, bytes, base);
        let u = retransmit(t, start, bytes);
        assert(same_both(u, tlp_spent(u))) by {
            reveal(tlp_spent);
        }
        lemma_same_keeps(u, tlp_spent(u), base);
    }
    reveal(fire_tlp);
}

proof fn lemma_send_fresh_keeps(s: TcbView, base: Seq<Seq<u8>>)
    requires
        keeps(s, base, terms(s), receipt(s)),
    ensures
        keeps(send_fresh(s).0, base, terms(s), receipt(s)),
{
    reveal(send_fresh);
    reveal(arm_persist);
    reveal(rto_kept);
    lemma_data_opts(s);
    lemma_feedback_bits(0);
    if fin_due(s) && !tx_full(s) {
        reveal(emit_fin);
        let bits = flags::FIN | flags::ACK;
        lemma_emit_keeps(s, bits, s.snd_nxt, s.rcv_nxt, data_opts(s), Seq::empty(), base);
        reveal(fin_placed);
        reveal(nxt_moved);
        reveal(bump_max);
        reveal(ack_sent);
        reveal(arm_rto_if_idle);
        reveal(arm_rto);
    } else if s.snd_wnd > 0 && sendable(s) > 0 && !tx_full(s) {
        reveal(sendable);
        reveal(payload_mss);
        let n = sendable(s);
        let b = ring_bytes(s, flight(s) as int, n);
        let bits = flags::ACK | flags::PSH;
        reveal(emit_new);
        lemma_emit_keeps(s, bits, s.snd_nxt, s.rcv_nxt, data_opts(s), b, base);
        let t = emit(s, bits, s.snd_nxt, s.rcv_nxt, data_opts(s), b);
        assert(same_both(t, emit_new(s, n as u32))) by {
            reveal(nxt_moved);
            reveal(bump_max);
            reveal(charged);
            reveal(ack_sent);
            reveal(arm_rto_if_idle);
            reveal(arm_rto);
            reveal(arm_tlp);
        }
    }
}

proof fn lemma_send_recovery_keeps(s: TcbView, base: Seq<Seq<u8>>)
    requires
        keeps(s, base, terms(s), receipt(s)),
    ensures
        keeps(send_recovery(s).0, base, terms(s), receipt(s)),
{
    reveal(send_recovery);
    lemma_send_fresh_keeps(s, base);
    if let Some((seq, bytes)) = recovery_target(s) {
        reveal(recovery_target);
        lemma_retransmit_keeps(s, seq, bytes, base);
    }
}

proof fn lemma_send_lost_keeps(s: TcbView, base: Seq<Seq<u8>>)
    requires
        keeps(s, base, terms(s), receipt(s)),
    ensures
        keeps(send_lost(s).0, base, terms(s), receipt(s)),
{
    reveal(send_lost);
    lemma_send_recovery_keeps(s, base);
    let t = lost_taken(s);
    assert(same_both(s, t)) by {
        reveal(lost_taken);
    }
    lemma_send_recovery_keeps(t, base);
    if let Some((seq, bytes)) = lost_target(t, s.lost[0]) {
        reveal(lost_target);
        lemma_retransmit_keeps(t, seq, bytes, base);
    }
}

proof fn lemma_send_some_keeps(s: TcbView, turns: nat, base: Seq<Seq<u8>>)
    requires
        keeps(s, base, terms(s), receipt(s)),
    ensures
        keeps(send_some(s, turns), base, terms(s), receipt(s)),
    decreases turns,
{
    reveal_with_fuel(send_some, 2);
    if turns > 0 {
        reveal(send_one);
        assert(same_both(s, recovery_left(s))) by {
            reveal(recovery_left);
        }
        lemma_send_lost_keeps(s, base);
        lemma_send_lost_keeps(recovery_left(s), base);
        lemma_send_some_keeps(send_one(s).0, (turns - 1) as nat, base);
    }
}

/// Sending keeps to the terms.
pub proof fn lemma_send_data_keeps(s: TcbView, base: Seq<Seq<u8>>)
    requires
        keeps(s, base, terms(s), receipt(s)),
    ensures
        keeps(send_data(s), base, terms(s), receipt(s)),
{
    reveal(send_data);
    lemma_send_some_keeps(s, TX_RING_CAP as nat + 2, base);
}

proof fn lemma_rack_scan_terms(s: TcbView)
    ensures
        same_both(s, rack_scan(s)),
        same_both(s, begin_recovery(s)),
{
    lemma_rack_scan(s);
    lemma_rack_scan_out(s);
    lemma_begin_recovery(s);
}

/// Notes and timers of an acknowledgement.
proof fn lemma_ack_notes_terms(s: TcbView, g: SegmentView, n: u32)
    ensures
        same_both(s, note_sacks(note_echo(patience_restored(s), g), g).0),
        same_both(s, count_repeat(s, g)),
        same_both(s, delivery_credited(s, n)),
        same_both(s, take_window(s, g.window)),
        same_both(s, ack_prune(s)),
        same_both(s, ack_recovery(s, n)),
        same_both(s, ack_advance(s, g.ack)),
        same_both(s, ack_fin(ack_timing(tlp_reset(s, n), g))),
{
    assert(same_both(s, note_sacks(note_echo(patience_restored(s), g), g).0)) by {
        reveal(patience_restored);
        reveal(note_echo);
        reveal(recovering);
        reveal(note_sacks);
        reveal(sacks_noted);
    }
    assert(same_both(s, count_repeat(s, g))) by {
        reveal(count_repeat);
        reveal(repeat_counted);
        lemma_rack_scan_terms(s);
        lemma_rack_scan_terms(repeat_counted(s));
    }
    assert(same_both(s, take_window(s, g.window))) by {
        reveal(take_window);
    }
    assert(same_both(s, ack_advance(s, g.ack))) by {
        reveal(ack_advance);
        reveal(nxt_caught_up);
        reveal(user_timer_restarted);
        reveal(una_moved);
    }
    assert(same_both(s, ack_prune(s))) by {
        reveal(ack_prune);
        reveal(delivery_noted);
        reveal(records_pruned);
    }
    reveal(delivery_credited);
    assert(same_both(s, ack_recovery(s, n))) by {
        reveal(ack_recovery);
        reveal(rxt_caught_up);
        reveal(recovery_ended);
    }
    let a = tlp_reset(s, n);
    assert(same_both(s, a)) by {
        reveal(tlp_reset);
    }
    let b = ack_sample(a, g);
    assert(same_both(a, b)) by {
        reveal(ack_sample);
        reveal(rtt_from_echo);
        reveal(rtt_from_probe);
        reveal(probe_dropped);
        reveal(rtt_sample);
    }
    assert(same_both(b, ack_timing(a, g))) by {
        reveal(ack_timing);
        reveal(rto_stopped);
        reveal(arm_rto);
    }
    reveal(ack_fin);
}

pub proof fn lemma_take_ack_keeps(s: TcbView, g: SegmentView, base: Seq<Seq<u8>>)
    requires
        keeps(s, base, terms(s), receipt(s)),
    ensures
        keeps(take_ack(s, g), base, terms(s), receipt(s)),
{
    reveal(take_ack);
    lemma_pure_ack_keeps(s, base);
    let (t, newly) = note_sacks(note_echo(patience_restored(s), g), g);
    lemma_ack_notes_terms(s, g, 0);
    reveal(ack_repeated);
    let a = count_repeat(t, g);
    lemma_ack_notes_terms(t, g, 0);
    lemma_ack_notes_terms(a, g, newly);
    let b = if newly > 0 {
        delivery_credited(a, newly)
    } else {
        a
    };
    lemma_rack_scan_terms(b);
    lemma_ack_notes_terms(rack_scan(b), g, 0);
    reveal(ack_advanced);
    let acked = g.ack.wrapping_sub(t.snd_una);
    let c = ack_advance(t, g.ack);
    lemma_ack_notes_terms(c, g, acked);
    let d = ack_prune(c);
    lemma_ack_notes_terms(d, g, acked);
    let e = ack_recovery(d, acked);
    lemma_rack_scan_terms(e);
    let f = rack_scan(e);
    lemma_ack_notes_terms(f, g, acked);
    let h = ack_fin(ack_timing(tlp_reset(f, acked), g));
    lemma_ack_notes_terms(h, g, acked);
    lemma_same_keeps(s, take_window(rack_scan(b), g.window), base);
    lemma_same_keeps(s, take_window(h, g.window), base);
}

proof fn lemma_drain_runs_terms(s: TcbView, turns: nat)
    ensures
        same_terms(s, drain_runs(s, turns)),
    decreases turns,
{
    reveal_with_fuel(drain_runs, 2);
    reveal(run_drained);
    let i = first_starting(s.reasm.runs, s.rcv_nxt, 0);
    if turns > 0 && i < s.reasm.runs.len() {
        let n = min(s.reasm.runs[i].data.len() as int, s.cap - s.recv_ring.len());
        lemma_drain_runs_terms(run_drained(s, i, n), (turns - 1) as nat);
    }
}

proof fn lemma_drain_terms(s: TcbView)
    ensures
        same_terms(s, drain(s)),
        same_terms(s, window_updated(s)),
{
    reveal(window_updated);
    reveal(drain);
    lemma_drain_runs_terms(s, MAX_HOLES as nat + 2);
}

/// Taking a segment's data and FIN in leaves the terms alone.
pub proof fn lemma_take_terms(s: TcbView, g: SegmentView)
    ensures
        same_terms(s, take_payload(s, g).0),
        same_terms(s, take_fin(s, g)),
{
    let r = received(s, g.payload);
    let h = set_aside(s, g.seq, g.payload);
    assert(same_terms(s, r) && same_terms(s, h)) by {
        reveal(received);
        reveal(set_aside);
    }
    lemma_drain_terms(r);
    lemma_drain_terms(h);
    lemma_drain_terms(s);
    let i = take_in_order(s, g.payload).0;
    assert(same_terms(s, i)) by {
        reveal(take_in_order);
    }
    lemma_drain_terms(i);
    reveal(take_payload);
    assert(same_terms(s, take_fin(s, g))) by {
        reveal(take_fin);
        reveal(fin_received);
    }
}

/// What follows once the marks of a segment are noted keeps to the terms.
proof fn lemma_noted_keeps(t: TcbView, g: SegmentView)
    requires
        addressable(t),
    ensures
        stages(t, accept(t, g)) && terms(accept(t, g)) == terms(t) && addressable(accept(t, g)),
        stages(t, refuse(t, g)) && terms(refuse(t, g)) == terms(t) && addressable(refuse(t, g)),
{
    lemma_starts(t);
    lemma_take_ack_keeps(t, g, t.tx);
    lemma_pure_ack_keeps(t, t.tx);
    lemma_pure_ack_keeps(take_ack(t, g), t.tx);
    reveal(refuse);
    lemma_conforming_stages(t, refuse(t, g), receipt(t));
    reveal(accept);
    let a = if g.has(flags::ACK) {
        take_ack(t, g)
    } else {
        t
    };
    assert(keeps(a, t.tx, terms(t), receipt(t)));
    lemma_take_terms(a, g);
    let (b, filled) = take_payload(a, g);
    lemma_take_terms(b, g);
    let c = take_fin(b, g);
    lemma_starts(c);
    assert(keeps(c, a.tx, terms(c), receipt(c)) && terms(c) == terms(t));
    let advanced = c.rcv_nxt != t.rcv_nxt;
    let d = answer(c, g, advanced, filled);
    assert(keeps(d, a.tx, terms(c), receipt(c))) by {
        reveal(answer);
        reveal(owe_ack);
        reveal(ack_owed);
        reveal(ack_timed);
        lemma_pure_ack_keeps(c, a.tx);
        lemma_pure_ack_keeps(ack_owed(c), a.tx);
    }
    lemma_send_data_keeps(d, a.tx);
    let u = accept(t, g);
    reveal(conforms);
    assert forall|k: int| 0 <= k < u.tx.len() implies (k < t.tx.len() && #[trigger] u.tx[k]
        == t.tx[k]) || proper(terms(u), receipt(t), u.tx[k]) || proper(
        terms(u),
        receipt(u),
        u.tx[k],
    ) by {
        if k < a.tx.len() && u.tx[k] == a.tx[k] {
            assert(k < t.tx.len() && a.tx[k] == t.tx[k] || proper(terms(t), receipt(t), a.tx[k]));
        }
    }
}

/// A segment in a synchronised state: its marks are noted, and what is staged keeps to the
/// terms that they leave.
pub proof fn lemma_on_synchronised_keeps(s: TcbView, g: SegmentView)
    requires
        addressable(s),
    ensures
        stages(s, on_synchronised(s, g)),
        terms(on_synchronised(s, g)) == terms(note_marks(s, g)),
        addressable(on_synchronised(s, g)),
{
    reveal(on_synchronised);
    let t = note_marks(s, g);
    assert(addressable(t) && receipt(t) == receipt(s) && t.tx == s.tx) by {
        reveal(note_marks);
    }
    lemma_noted_keeps(t, g);
}

proof fn lemma_emit_synack_keeps(s: TcbView, base: Seq<Seq<u8>>)
    requires
        keeps(s, base, terms(s), receipt(s)),
    ensures
        keeps(emit_synack(s), base, terms(s), receipt(s)),
{
    reveal(emit_synack);
    lemma_options_fit(s);
    lemma_feedback_bits(0);
    let bits = flags::SYN | flags::ACK | (if s.ecn_enabled {
        flags::ECE
    } else {
        0u8
    });
    lemma_emit_keeps(s, bits, s.iss, s.rcv_nxt, synack_opts(s), Seq::empty(), base);
}

proof fn lemma_syn_in_flight_terms(s: TcbView)
    ensures
        same_both(s, syn_in_flight(s)),
{
    reveal(syn_in_flight);
    reveal(syn_counted);
    reveal(bump_max);
    reveal(arm_rto);
}

proof fn lemma_send_syn_keeps(s: TcbView, base: Seq<Seq<u8>>)
    requires
        keeps(s, base, terms(s), receipt(s)),
    ensures
        keeps(send_syn(s), base, terms(s), receipt(s)),
{
    reveal(send_syn);
    lemma_options_fit(s);
    lemma_feedback_bits(0);
    let bits = flags::SYN | flags::ECE | flags::CWR;
    lemma_emit_keeps(s, bits, s.iss, 0, syn_opts(s), Seq::empty(), base);
    lemma_syn_in_flight_terms(emit(s, bits, s.iss, 0, syn_opts(s), Seq::empty()));
}

/// A window of 32 bits needs no large shift.
pub proof fn lemma_shift_is_small(buf: nat)
    requires
        buf <= u32::MAX,
    ensures
        window_shift(buf) <= 16,
{
    reveal_with_fuel(window_shift, 18);
}

proof fn lemma_syn_accepted_keeps(s: TcbView, g: SegmentView)
    requires
        addressable(s),
        g.src_ip.len() == 4,
    ensures
        stages(s, syn_accepted(s, g)),
        addressable(syn_accepted(s, g)),
{
    reveal(syn_accepted);
    lemma_shift_is_small(s.cap as nat);
    let t = take_syn(reset(s), g);
    assert(addressable(t) && t.tx =~= Seq::empty()) by {
        reveal(reset);
        reveal(take_syn);
        reveal(pinned);
        reveal(take_offer);
        reveal(ts_agreed);
        reveal(agreed);
        reveal(window_updated);
    }
    lemma_starts(t);
    lemma_emit_synack_keeps(t, Seq::empty());
    reveal(half_open);
    lemma_syn_in_flight_terms(half_open(emit_synack(t)));
    reveal(conforms);
}

proof fn lemma_synack_accepted_keeps(s: TcbView, g: SegmentView)
    requires
        addressable(s),
    ensures
        stages(s, synack_accepted(s, g)),
        addressable(synack_accepted(s, g)),
{
    reveal(synack_accepted);
    lemma_shift_is_small(s.cap as nat);
    let b = take_synack_options(syn_acked(take_offer(s, g), g.ack), g);
    let d = in_state(rto_stopped(rtt_from_probe(b, g.ack)), State::Established);
    assert(addressable(d) && d.tx == s.tx) by {
        reveal(take_offer);
        reveal(syn_acked);
        reveal(take_synack_options);
        reveal(ts_agreed);
        reveal(rtt_from_echo);
        reveal(rtt_sample);
        reveal(agreed);
        reveal(rtt_from_probe);
        reveal(probe_dropped);
        reveal(rto_stopped);
        reveal(in_state);
    }
    lemma_starts(d);
    lemma_pure_ack_keeps(d, s.tx);
    lemma_conforming_stages(s, synack_accepted(s, g), receipt(d));
}

proof fn lemma_on_listen_keeps(s: TcbView, g: SegmentView)
    requires
        addressable(s),
        g.src_ip.len() == 4,
        !s.cookie_secret_set,
    ensures
        stages(s, on_listen(s, g)),
        addressable(on_listen(s, g)),
{
    reveal(on_listen);
    lemma_starts(s);
    lemma_reset_reply_keeps(s, g.ack, 0, s.tx);
    lemma_conforming_stages(s, reset_reply(s, g.ack, 0), receipt(s));
    lemma_syn_accepted_keeps(s, g);
}

/// Whatever arrives, what is staged for it keeps to the terms of the connection. (A listener
/// with cookies has none.)
pub proof fn law_answers_keep_to_the_terms(s: TcbView, b: Seq<u8>)
    requires
        addressable(s),
        !(s.state is Listen && s.cookie_secret_set),
    ensures
        stages(s, injected(s, b).0),
        addressable(injected(s, b).0),
{
    if let Some(g) = parse_packet(b) {
        if for_us(s, g) {
            assert(g.src_ip.len() == 4);
            let t = on_segment(s, g).0;
            assert(stages(s, t) && addressable(t)) by {
                reveal(on_segment);
                reveal(on_reset);
                reveal(reset_by_peer);
                reveal(relisten);
                reveal(unpinned);
                reveal(reset);
                lemma_starts(s);
                let at = g.seq.wrapping_add(1);
                lemma_reset_reply_keeps(s, g.ack, 0, s.tx);
                lemma_conforming_stages(s, reset_reply(s, g.ack, 0), receipt(s));
                lemma_reset_reply_keeps(s, 0, at, s.tx);
                lemma_conforming_stages(s, reset_reply(s, 0, at), receipt(s));
                if s.state is Listen {
                    lemma_on_listen_keeps(s, g);
                }
                reveal(on_syn_sent);
                lemma_synack_accepted_keeps(s, g);
                reveal(on_syn_rcvd);
                lemma_emit_synack_keeps(s, s.tx);
                lemma_conforming_stages(s, emit_synack(s), receipt(s));
                let h = handshake_done(s, g);
                assert(addressable(h) && h.tx == s.tx && receipt(h) == receipt(s)) by {
                    reveal(handshake_done);
                }
                lemma_on_synchronised_keeps(h, g);
                lemma_on_synchronised_keeps(s, g);
            }
            reveal(peer_alive);
            assert(terms(peer_alive(t)) == terms(t) && receipt(peer_alive(t)) == receipt(t));
        }
    }
}

/// Nothing waits, and no timer or state of the connection has anything sent.
spec fn forgets(s: TcbView) -> bool {
    &&& s.tx.len() == 0
    &&& s.rack_deadline is None && s.tlp_deadline is None && s.persist_deadline is None
    &&& !(s.state is Established) && !may_transmit(s.state)
    &&& !s.pending_ack
}

/// Such a connection has nothing staged by the timers that follow.
proof fn lemma_forgets(s: TcbView)
    requires
        forgets(s),
    ensures
        ({
            let t = tick_user_timeout(tick_keepalive(tick_persist(tick_tlp(tick_rack(s)))));
            t.tx.len() == 0 && tick_ack(send_data(t)).tx.len() == 0
        }),
{
    reveal(tick_rack);
    reveal(tick_tlp);
    reveal(tick_persist);
    reveal(tick_keepalive);
    reveal(tick_user_timeout);
    reveal(user_timer_set);
    reveal(given_up);
    reveal(send_data);
    reveal(tick_ack);
}

proof fn lemma_tick_rto_keeps(s: TcbView)
    requires
        addressable(s),
    ensures
        addressable(tick_rto(s)),
        keeps(tick_rto(s), s.tx, terms(s), receipt(s)) || s.state is SynRcvd && forgets(tick_rto(s)),
{
    reveal(tick_rto);
    lemma_starts(s);
    let t = collapse(count_timeout(s));
    assert(same_both(s, t) && t.state == s.state) by {
        reveal(count_timeout);
        reveal(collapse);
    }
    reveal(resend_handshake);
    lemma_send_syn_keeps(t, s.tx);
    let u = retry_counted(t);
    assert(same_both(t, u)) by {
        reveal(retry_counted);
    }
    assert(addressable(relisten(u)) && forgets(relisten(u))) by {
        reveal(relisten);
        reveal(unpinned);
        reveal(reset);
    }
    lemma_emit_synack_keeps(u, s.tx);
    lemma_syn_in_flight_terms(emit_synack(u));
}

proof fn lemma_tick_persist_keeps(s: TcbView, base: Seq<Seq<u8>>)
    requires
        keeps(s, base, terms(s), receipt(s)),
    ensures
        keeps(tick_persist(s), base, terms(s), receipt(s)),
{
    reveal(tick_persist);
    reveal(persist_backed_off);
    if unsent(s) > 0 {
        reveal(emit_window_probe);
        lemma_data_opts(s);
        lemma_feedback_bits(0);
        let b = ring_bytes(s, flight(s) as int, 1);
        let bits = flags::ACK | flags::PSH;
        lemma_emit_keeps(s, bits, s.snd_nxt, s.rcv_nxt, data_opts(s), b, base);
        reveal(nxt_moved);
        reveal(bump_max);
        reveal(arm_rto_if_idle);
        reveal(arm_rto);
    }
}

proof fn lemma_tick_limits_keeps(s: TcbView, base: Seq<Seq<u8>>)
    requires
        keeps(s, base, terms(s), receipt(s)),
    ensures
        ({
            let t = tick_user_timeout(tick_keepalive(s));
            &&& addressable(t)
            &&& terms(t) == terms(s)
            &&& conforms(t.tx, base, terms(s), receipt(s))
            &&& !(t.state is Closed) ==> receipt(t) == receipt(s)
        }),
{
    reveal(tick_keepalive);
    reveal(given_up);
    lemma_data_opts(s);
    lemma_feedback_bits(0);
    let p = s.snd_nxt.wrapping_sub(1);
    lemma_emit_keeps(s, flags::ACK, p, s.rcv_nxt, data_opts(s), Seq::empty(), base);
    reveal(keepalive_counted);
    reveal(tick_user_timeout);
    reveal(user_timer_set);
}

/// What the timers stage keeps to the terms of the connection, which they leave alone
/// unless a half-open connection gives its place back.
pub proof fn law_timers_keep_to_the_terms(s: TcbView)
    requires
        addressable(s),
    ensures
        stages(s, ticked(s)),
        addressable(ticked(s)),
        !(s.state is SynRcvd) ==> terms(ticked(s)) == terms(s),
{
    let a = tick_time_wait(s);
    assert(same_both(s, a) && (a.state is SynRcvd ==> s.state is SynRcvd)) by {
        reveal(tick_time_wait);
    }
    if rto_gives_up(a) {
        reveal(count_timeout);
        reveal(given_up);
    } else {
        lemma_tick_rto_keeps(a);
        let b = tick_rto(a);
        if !keeps(b, s.tx, terms(s), receipt(s)) {
            lemma_forgets(b);
        }
        let base = if keeps(b, s.tx, terms(s), receipt(s)) {
            s.tx
        } else {
            b.tx
        };
        lemma_starts(b);
        let c = tick_rack(b);
        assert(same_both(b, c)) by {
            reveal(tick_rack);
            reveal(rack_disarmed);
            lemma_rack_scan_terms(rack_disarmed(b));
        }
        lemma_fire_tlp_keeps(c, base);
        let d = tick_tlp(c);
        assert(keeps(d, base, terms(b), receipt(b))) by {
            reveal(tick_tlp);
        }
        lemma_tick_persist_keeps(d, base);
        let e = tick_persist(d);
        lemma_tick_limits_keeps(e, base);
        reveal(tick_timers);
        let t = tick_timers(a);
        if !(t.state is Closed) {
            lemma_send_data_keeps(t, base);
            lemma_pure_ack_keeps(send_data(t), base);
            reveal(tick_ack);
        }
        if keeps(b, s.tx, terms(s), receipt(s)) {
            lemma_conforming_stages(s, ticked(s), receipt(s));
        }
    }
}

/// What the application's calls stage keeps to the terms too, which they leave alone.
pub proof fn law_calls_keep_to_the_terms(s: TcbView, data: Seq<u8>, room: int)
    requires
        addressable(s),
    ensures
        stages(s, closed(s)) && terms(closed(s)) == terms(s) && addressable(closed(s)),
        stages(s, aborted(s)) && terms(aborted(s)) == terms(s) && addressable(aborted(s)),
        stages(s, connected(s)) && terms(connected(s)) == terms(s) && addressable(connected(s)),
        same_terms(s, app_send(s, data).0),
        same_terms(s, app_recv(s, room).0),
{
    lemma_starts(s);
    lemma_ends_keep(s);
    assert(stages(s, connected(s)) && terms(connected(s)) == terms(s) && addressable(
        connected(s),
    )) by {
        let o = opening(s);
        assert(same_both(s, o)) by {
            reveal(opening);
        }
        lemma_send_syn_keeps(o, s.tx);
        lemma_conforming_stages(s, connected(s), receipt(s));
    }
    assert(same_terms(s, app_send(s, data).0)) by {
        reveal(data_buffered);
    }
    let r = data_read(s, app_recv_len(s, room));
    assert(same_terms(s, r)) by {
        reveal(data_read);
    }
    lemma_drain_terms(r);
    lemma_drain_terms(drain(r));
}

/// Closing and aborting keep to the terms.
proof fn lemma_ends_keep(s: TcbView)
    requires
        addressable(s),
    ensures
        stages(s, closed(s)) && terms(closed(s)) == terms(s) && addressable(closed(s)),
        stages(s, aborted(s)) && terms(aborted(s)) == terms(s) && addressable(aborted(s)),
{
    lemma_starts(s);
    lemma_conforming_stages(s, s, receipt(s));
    let a = in_state(s, State::FinWait1);
    let b = in_state(s, State::LastAck);
    let c = in_state(unlistened(s), State::Closed);
    assert(same_both(s, a) && same_both(s, b) && same_both(s, c)) by {
        reveal(in_state);
        reveal(unlistened);
    }
    lemma_send_data_keeps(a, s.tx);
    lemma_conforming_stages(s, send_data(a), receipt(s));
    lemma_send_data_keeps(b, s.tx);
    lemma_conforming_stages(s, send_data(b), receipt(s));
    lemma_conforming_stages(s, c, receipt(s));
    lemma_options_fit(s);
    lemma_feedback_bits(0);
    let bits = flags::RST | flags::ACK;
    lemma_emit_keeps(s, bits, s.snd_nxt, s.rcv_nxt, no_options(), Seq::empty(), s.tx);
    let e = emit(s, bits, s.snd_nxt, s.rcv_nxt, no_options(), Seq::empty());
    let t = aborted(s);
    assert((t.tx == s.tx || t.tx == e.tx) && terms(t) == terms(s) && addressable(t)) by {
        reveal(torn_down);
        reveal(unlistened);
    }
    lemma_conforming_stages(s, t, receipt(s));
}

} // verus!
