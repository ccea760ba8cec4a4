//! The clocks of a connection: when a tail loss probe, the probe of a closed window and the
//! end of TIME_WAIT come, and how often a handshake is tried again.

use crate::MSS;
use crate::num::min;
use crate::send_queue::{highest_open, SendEntry};
use crate::state::synchronized;
use crate::tcb::laws::acking::{
    fin_step, lemma_ack_advanced_sound, lemma_note_sound, lemma_take_ack_sound,
};
use crate::tcb::laws::frame::{lemma_pure_ack, lemma_rack_scan, lemma_send_data};
use crate::tcb::laws::marks::heard;
use crate::tcb::laws::outbound::{lemma_options_fit, lemma_rack_scan_out, options_fit};
use crate::tcb::laws::progress::lemma_tick_persist_only;
use crate::tcb::laws::round_trips::{acks_something, timed_out};
use crate::tcb::laws::segments::{lemma_answer_send, lemma_take_payload_send, peer_fin_step};
use crate::tcb::laws::soundness::sound;
use crate::tcb::laws::staged::{addressable, lemma_data_opts, lemma_feedback_bits};
use crate::tcb::model::{
    accept, acceptable, ack_advance, ack_advanced, ack_fin, ack_prune, ack_recovery, ack_sample,
    ack_sent, ack_timing, answer, arm_persist, arm_rto, arm_rto_if_idle, arm_tlp, begin_recovery,
    buffered, bump_max, can_retransmit, charged, collapse, count_timeout, data_opts, datagram_out,
    delivery_credited, delivery_noted, emit, emit_again, emit_synack, emit_window_probe, feedback,
    fin_received, fire_tlp, for_us, has_work, injected, lost_queued, note_echo, note_marks,
    note_sacks, nxt_caught_up, nxt_moved, on_segment, on_synchronised, patience_restored,
    payload_mss, peer_alive, persist_backed_off, probe_dropped, rack_disarmed, rack_scan,
    records_pruned, recovering, recovery_ended, refuse, relisten, reo_updated, resend_handshake,
    reset, retransmit, retry_counted, ring_bytes, rto_kept, rto_stopped, rtt_from_echo,
    rtt_from_probe, rtt_sample, rxt_caught_up, rxt_noted, segment_out, send_data, syn_counted,
    syn_in_flight, synack_opts, take_ack, take_fin, take_payload, take_window, tick_ack,
    tick_keepalive, tick_persist, tick_rack, tick_rto, tick_time_wait, tick_timers, tick_tlp,
    tick_user_timeout, ticked, tlp_disarmed, tlp_reset, tlp_spent, tlp_target, tx_full, una_moved,
    unpinned, unsent, user_timer_restarted, user_timer_set, TcbView,
};
use crate::wire::{flags, law_emit_then_parse_round_trip, packet, parse_packet, SegmentView};
use crate::wire::flags::{ACK, ECE, FIN, PSH, SYN};
use crate::wire::options::OptionsView;
use vstd::prelude::*;

verus! {


/// A tail loss probe is timed for two round trips, but 10 milliseconds at least, while
/// something is outstanding, the window is open, and none has gone out since the last
/// progress.
pub proof fn law_tail_probe_is_timed(s: TcbView)
    ensures
        ({
            let t = arm_tlp(s);
            let out = s.snd_max.wrapping_sub(s.snd_una);
            let two = 2 * (if s.srtt_ms > 0 {
                s.srtt_ms as int
            } else {
                1
            });
            &&& !s.tlp_fired && 0 < out < 0x8000_0000 && s.snd_wnd > 0 ==> t.tlp_deadline
                == Some(s.now_ms.wrapping_add((if two >= 10 {
                two
            } else {
                10
            }) as u64))
            &&& s.tlp_fired || out == 0 || s.snd_wnd == 0 ==> t == s
        }),
{
    reveal(arm_tlp);
}

/// A tail loss probe sends the last transmission again that the peer does not hold, from its
/// first outstanding byte on and a segment at most. It is the only one until there is
/// progress.
pub proof fn law_tail_probe_repeats_the_tail(s: TcbView, e: SendEntry)
    requires
        addressable(s),
        !tx_full(s),
        highest_open(s.sent, s.board.ranges) == Some(e),
        e.seq_start.wrapping_sub(s.snd_una) < e.seq_end.wrapping_sub(s.snd_una) <= s.send_ring.len(),
        s.send_ring.len() <= 0x4000_0000,
        payload_mss(s) > 0,
    ensures
        ({
            let t = fire_tlp(s);
            let off = e.seq_start.wrapping_sub(s.snd_una) as int;
            &&& t.tlp_fired
            &&& t.tx.len() == s.tx.len() + 1
            &&& parse_packet(t.tx.last()) matches Some(g)
            &&& g.seq == e.seq_start
            &&& 0 < g.payload.len() <= e.seq_end.wrapping_sub(e.seq_start)
            &&& g.payload.len() == e.seq_end.wrapping_sub(e.seq_start) || g.payload.len()
                == payload_mss(s)
            &&& g.payload == s.send_ring.subrange(off, off + g.payload.len())
        }),
{
    let u = tlp_disarmed(s);
    assert(addressable(u) && u.tx == s.tx && u.send_ring == s.send_ring && u.snd_una == s.snd_una
        && u.sent == s.sent && u.board == s.board && payload_mss(u) == payload_mss(s)
        && u.rcv_nxt == s.rcv_nxt) by {
        reveal(tlp_disarmed);
        reveal(payload_mss);
        reveal(data_opts);
    }
    reveal(fire_tlp);
    reveal(tlp_target);
    reveal(tlp_spent);
    let (start, bytes) = tlp_target(u, e);
    assert(start == e.seq_start && bytes == min(
        e.seq_end.wrapping_sub(start) as int,
        payload_mss(s),
    ));
    assert(can_retransmit(u, start, bytes) && buffered(u, start, bytes) == bytes);
    reveal(retransmit);
    reveal(emit_again);
    reveal(payload_mss);
    let off = e.seq_start.wrapping_sub(s.snd_una) as int;
    let b = ring_bytes(u, off, bytes);
    lemma_data_opts(u);
    let bits = flags::ACK | flags::PSH;
    lemma_feedback_bits(0);
    lemma_data_parses(u, bits, start, data_opts(u), b);
    let v = emit(u, bits, start, u.rcv_nxt, data_opts(u), b);
    let w = emit_again(u, start, bytes as u32);
    assert(w.tx == v.tx) by {
        reveal(charged);
        reveal(rxt_noted);
        reveal(ack_sent);
        reveal(arm_rto_if_idle);
        reveal(arm_rto);
        reveal(arm_tlp);
    }
}

/// A segment with data parses to what was staged.
pub proof fn lemma_data_parses(
    s: TcbView,
    bits: u8,
    seq: u32,
    opts: OptionsView,
    payload: Seq<u8>,
)
    requires
        addressable(s),
        options_fit(opts),
        payload.len() <= MSS,
        !tx_full(s),
    ensures
        ({
            let t = emit(s, bits, seq, s.rcv_nxt, opts, payload);
            &&& t.tx.len() == s.tx.len() + 1
            &&& parse_packet(t.tx.last()) matches Some(g)
            &&& g.seq == seq && g.ack == s.rcv_nxt && g.payload == payload
        }),
{
    reveal(emit);
    reveal(datagram_out);
    reveal(segment_out);
    let g = segment_out(s, bits, seq, s.rcv_nxt, opts, payload);
    law_emit_then_parse_round_trip(g, s.ip_id, Seq::empty());
    assert(packet(g, s.ip_id) + Seq::<u8>::empty() =~= packet(g, s.ip_id));
}

/// A closed window is probed: when the persist timer runs out, with one byte of what waits,
/// at the next sequence number; and each probe comes after twice the time of the one before,
/// between 200 milliseconds and a minute.
pub proof fn law_closed_window_is_probed(s: TcbView)
    requires
        addressable(s),
        !tx_full(s),
        s.persist_deadline is Some,
        s.persist_backoff_ms <= 60_000,
        s.snd_nxt.wrapping_sub(s.snd_una) < s.send_ring.len(),
    ensures
        ({
            let t = tick_persist(s);
            let off = s.snd_nxt.wrapping_sub(s.snd_una) as int;
            let twice = 2 * s.persist_backoff_ms;
            &&& s.persist_deadline->0 > s.now_ms ==> t == s
            &&& s.persist_deadline->0 <= s.now_ms ==> {
                &&& t.tx.len() == s.tx.len() + 1
                &&& parse_packet(t.tx.last()) matches Some(g)
                &&& g.seq == s.snd_nxt && g.payload == seq![s.send_ring[off]]
                &&& t.snd_nxt == s.snd_nxt.wrapping_add(1)
                &&& t.rto_deadline is Some
                &&& 200 <= twice <= 60_000 ==> t.persist_backoff_ms == twice
                &&& twice < 200 ==> t.persist_backoff_ms == 200
                &&& twice > 60_000 ==> t.persist_backoff_ms == 60_000
                &&& t.persist_deadline == Some(s.now_ms.wrapping_add(t.persist_backoff_ms as u64))
            }
        }),
{
    reveal(tick_persist);
    reveal(persist_backed_off);
    reveal(emit_window_probe);
    lemma_data_opts(s);
    let off = s.snd_nxt.wrapping_sub(s.snd_una) as int;
    let b = ring_bytes(s, off, 1);
    assert(b =~= seq![s.send_ring[off]]);
    let bits = flags::ACK | flags::PSH;
    lemma_data_parses(s, bits, s.snd_nxt, data_opts(s), b);
    reveal(emit);
    reveal(nxt_moved);
    reveal(bump_max);
    reveal(arm_rto_if_idle);
    reveal(arm_rto);
}

/// The persist timer starts under a closed window with data that waits, for one timeout, and
/// an open window ends it.
pub proof fn law_persist_timer_follows_the_window(s: TcbView, window: u16)
    ensures
        ({
            let waits = s.snd_nxt.wrapping_sub(s.snd_una) < s.send_ring.len();
            let t = arm_persist(s);
            let u = take_window(s, window);
            &&& waits && s.persist_deadline is None ==> t.persist_deadline == Some(
                s.now_ms.wrapping_add(s.rto_ms as u64),
            ) && t.persist_backoff_ms == s.rto_ms
            &&& !waits || s.persist_deadline is Some ==> t.persist_deadline == s.persist_deadline
                && t.persist_backoff_ms == s.persist_backoff_ms
            &&& u.snd_wnd > 0 ==> u.persist_deadline is None
            &&& u.snd_wnd == 0 ==> u.persist_deadline == s.persist_deadline
        }),
{
    reveal(arm_persist);
    reveal(rto_kept);
    reveal(take_window);
}

/// `b` is the peer's FIN, alone and in order.
pub open spec fn is_next_fin(s: TcbView, b: Seq<u8>) -> bool {
    &&& heard(s, b)
    &&& parse_packet(b)->0.has(flags::FIN)
    &&& parse_packet(b)->0.payload.len() == 0
    &&& parse_packet(b)->0.seq == s.rcv_nxt
}

/// The peer's FIN ends its stream: it takes a sequence number, and the connection waits for
/// ours, for its acknowledgement, or for a minute.
pub proof fn law_peer_fin_is_taken(s: TcbView, b: Seq<u8>)
    requires
        sound(s),
        synchronized(s.state),
        is_next_fin(s, b),
    ensures
        ({
            let t = injected(s, b).0;
            &&& t.rcv_nxt == s.rcv_nxt.wrapping_add(1)
            &&& s.state is Established ==> t.state is CloseWait
            &&& s.state is FinWait1 ==> t.state is Closing || t.state is TimeWait
            &&& s.state is FinWait2 ==> t.state is TimeWait
            &&& t.state is TimeWait && !(s.state is TimeWait || s.state is Closing)
                ==> t.time_wait_deadline == Some(s.now_ms.wrapping_add(60_000))
        }),
{
    let g = parse_packet(b)->0;
    lemma_noted_fin(s, g);
    lemma_accepted_fin(note_marks(s, g), g);
    reveal(on_synchronised);
    reveal(on_segment);
    reveal(peer_alive);
}

/// Where the acknowledgement of a segment leads, before its FIN is taken in.
spec fn acked_first(n: TcbView, g: SegmentView) -> TcbView {
    if g.has(flags::ACK) {
        take_ack(n, g)
    } else {
        n
    }
}

proof fn lemma_noted_fin(s: TcbView, g: SegmentView)
    requires
        sound(s),
        synchronized(s.state),
        g.seq == s.rcv_nxt,
    ensures
        ({
            let n = note_marks(s, g);
            let a = acked_first(n, g);
            &&& acceptable(n, g.seq, 0)
            &&& n.rcv_nxt == s.rcv_nxt && n.now_ms == s.now_ms && n.state == s.state
            &&& a.state == s.state || a.state == fin_step(s.state)
            &&& a.rcv_nxt == s.rcv_nxt && a.now_ms == s.now_ms
        }),
{
    let n = note_marks(s, g);
    assert(sound(n) && n.state == s.state && n.rcv_nxt == s.rcv_nxt && n.now_ms == s.now_ms) by {
        reveal(note_marks);
    }
    lemma_take_ack_sound(n, g);
    reveal(acceptable);
}

proof fn lemma_accepted_fin(n: TcbView, g: SegmentView)
    requires
        g.has(flags::FIN),
        g.payload.len() == 0,
        g.seq == acked_first(n, g).rcv_nxt,
        n.rcv_nxt == g.seq,
    ensures
        ({
            let a = acked_first(n, g);
            let t = accept(n, g);
            &&& t.rcv_nxt == g.seq.wrapping_add(1)
            &&& t.state == peer_fin_step(a.state)
            &&& a.state is FinWait2 ==> t.time_wait_deadline == Some(a.now_ms.wrapping_add(60_000))
        }),
{
    let a = acked_first(n, g);
    assert(take_payload(a, g) == (a, false)) by {
        reveal(take_payload);
    }
    let c = take_fin(a, g);
    assert(c.rcv_nxt == g.seq.wrapping_add(1) && c.state == peer_fin_step(a.state) && (a.state
        is FinWait2 ==> c.time_wait_deadline == Some(a.now_ms.wrapping_add(60_000)))) by {
        reveal(take_fin);
        reveal(fin_received);
    }
    lemma_answer_send(c, g, true, false);
    lemma_send_data(answer(c, g, true, false));
    reveal(accept);
}

/// The acknowledgement of our FIN ends our stream: the connection waits for the peer's, or
/// for a minute, or is closed.
pub proof fn law_our_fin_is_acknowledged(s: TcbView, b: Seq<u8>)
    requires
        sound(s),
        synchronized(s.state),
        acks_something(s, b),
        s.fin_sent,
        parse_packet(b)->0.ack == s.fin_seq.wrapping_add(1),
        !parse_packet(b)->0.has(flags::FIN),
    ensures
        ({
            let t = injected(s, b).0;
            &&& s.state is FinWait1 ==> t.state is FinWait2
            &&& s.state is Closing ==> t.state is TimeWait && t.time_wait_deadline == Some(
                s.now_ms.wrapping_add(60_000),
            )
            &&& s.state is LastAck ==> t.state is Closed
        }),
{
    let g = parse_packet(b)->0;
    reveal(on_segment);
    reveal(peer_alive);
    reveal(on_synchronised);
    reveal(acceptable);
    let n = note_marks(s, g);
    assert(sound(n) && n.state == s.state && n.now_ms == s.now_ms && n.fin_sent && n.fin_seq
        == s.fin_seq && n.snd_una == s.snd_una && n.snd_max == s.snd_max && n.rcv_nxt == s.rcv_nxt
        && n.rcv_wnd == s.rcv_wnd) by {
        reveal(note_marks);
    }
    let a = take_ack(n, g);
    assert((s.state is FinWait1 ==> a.state is FinWait2) && (s.state is Closing ==> a.state
        is TimeWait && a.time_wait_deadline == Some(s.now_ms.wrapping_add(60_000))) && (s.state
        is LastAck ==> a.state is Closed)) by {
        reveal(take_ack);
        lemma_note_sound(n, g);
        let k = note_sacks(note_echo(patience_restored(n), g), g).0;
        lemma_ack_advanced_sound(k, g);
        reveal(ack_advanced);
        let acked = g.ack.wrapping_sub(k.snd_una);
        let f = rack_scan(ack_recovery(ack_prune(ack_advance(k, g.ack)), acked));
        let h = ack_timing(tlp_reset(f, acked), g);
        let z = ack_advanced(k, g);
        lemma_fin_frame(k, g);
        reveal(ack_fin);
        reveal(take_window);
    }
    reveal(refuse);
    lemma_pure_ack(a);
    reveal(accept);
    lemma_take_payload_send(a, g);
    let (p, filled) = take_payload(a, g);
    let c = take_fin(p, g);
    reveal(take_fin);
    lemma_answer_send(c, g, c.rcv_nxt != n.rcv_nxt, filled);
    lemma_send_data(answer(c, g, c.rcv_nxt != n.rcv_nxt, filled));
}

/// What [`ack_fin`] looks at is what the acknowledgement leaves.
proof fn lemma_fin_frame(k: TcbView, g: SegmentView)
    ensures
        ({
            let acked = g.ack.wrapping_sub(k.snd_una);
            let f = rack_scan(ack_recovery(ack_prune(ack_advance(k, g.ack)), acked));
            let h = ack_timing(tlp_reset(f, acked), g);
            &&& h.state == k.state && h.fin_sent == k.fin_sent && h.fin_seq == k.fin_seq
            &&& h.snd_una == g.ack && h.now_ms == k.now_ms
        }),
{
    let acked = g.ack.wrapping_sub(k.snd_una);
    let a = ack_advance(k, g.ack);
    assert(a.state == k.state && a.fin_sent == k.fin_sent && a.fin_seq == k.fin_seq && a.snd_una
        == g.ack && a.now_ms == k.now_ms) by {
        reveal(ack_advance);
        reveal(una_moved);
        reveal(user_timer_restarted);
        reveal(nxt_caught_up);
    }
    let b = ack_recovery(ack_prune(a), acked);
    assert(b.state == a.state && b.fin_sent == a.fin_sent && b.fin_seq == a.fin_seq && b.snd_una
        == a.snd_una && b.now_ms == a.now_ms) by {
        reveal(ack_prune);
        reveal(delivery_noted);
        reveal(records_pruned);
        reveal(ack_recovery);
        reveal(rxt_caught_up);
        reveal(delivery_credited);
        reveal(recovery_ended);
    }
    lemma_rack_scan(b);
    lemma_rack_scan_out(b);
    let f = rack_scan(b);
    let d = tlp_reset(f, acked);
    let e = ack_sample(d, g);
    assert(e.state == f.state && e.fin_sent == f.fin_sent && e.fin_seq == f.fin_seq && e.snd_una
        == f.snd_una && e.now_ms == f.now_ms) by {
        reveal(tlp_reset);
        reveal(ack_sample);
        reveal(rtt_from_echo);
        reveal(rtt_from_probe);
        reveal(probe_dropped);
        reveal(rtt_sample);
    }
    reveal(ack_timing);
    reveal(rto_stopped);
    reveal(arm_rto);
}

/// TIME_WAIT ends when its minute is over, and not before.
pub proof fn law_time_wait_runs_out(s: TcbView)
    requires
        sound(s),
        s.state is TimeWait,
        s.time_wait_deadline is Some,
    ensures
        s.time_wait_deadline->0 <= s.now_ms ==> ticked(s).state is Closed,
        s.time_wait_deadline->0 > s.now_ms ==> ticked(s).state is TimeWait
            && ticked(s).time_wait_deadline == s.time_wait_deadline,
{
    reveal(tick_time_wait);
    let a = tick_time_wait(s);
    assert(a.rto_deadline is None && a.tlp_deadline is None && !has_work(a) && (a.state is TimeWait
        || a.state is Closed));
    reveal(tick_timers);
    reveal(tick_rto);
    let c = tick_rack(a);
    assert(c.state == a.state && c.tlp_deadline is None && !has_work(c) && c.time_wait_deadline
        == a.time_wait_deadline && c.snd_una == a.snd_una && c.send_ring == a.send_ring) by {
        reveal(tick_rack);
        reveal(rack_disarmed);
        lemma_rack_scan(rack_disarmed(a));
        reveal(rack_scan);
        reveal(reo_updated);
        reveal(lost_queued);
        reveal(begin_recovery);
        reveal(recovering);
        reveal(arm_rto);
    }
    reveal(tick_tlp);
    lemma_tick_persist_only(c);
    let e = tick_persist(c);
    reveal(tick_keepalive);
    reveal(tick_user_timeout);
    reveal(user_timer_set);
    assert(unsent(c) == 0);
    assert(!has_work(e)) by {
        reveal(tick_persist);
        reveal(persist_backed_off);
    }
    let t = tick_timers(a);
    lemma_send_data(t);
    reveal(tick_ack);
    lemma_pure_ack(send_data(t));
}

/// A half-open connection sends its SYN-ACK again at most five times: at each timeout before
/// that one more, and at the next it gives its place back to the listener.
pub proof fn law_half_open_is_tried_again(s: TcbView)
    requires
        addressable(s),
        s.state is SynRcvd,
        s.syn_rcvd_retries <= 5,
        timed_out(s),
        !tx_full(s),
    ensures
        ({
            let t = tick_rto(s);
            &&& s.syn_rcvd_retries < 5 ==> {
                &&& t.state is SynRcvd
                &&& t.syn_rcvd_retries == s.syn_rcvd_retries + 1
                &&& t.tx.len() == s.tx.len() + 1
                &&& parse_packet(t.tx.last()) matches Some(g)
                &&& g.has(flags::SYN) && g.has(flags::ACK)
                &&& g.seq == s.iss && g.ack == s.rcv_nxt
                &&& t.rto_deadline == Some(s.now_ms.wrapping_add(t.rto_ms as u64))
            }
            &&& s.syn_rcvd_retries == 5 ==> {
                &&& t.tx.len() == 0
                &&& s.is_listener ==> t.state is Listen
                &&& !s.is_listener ==> t.state is Closed
                &&& t.rto_deadline is None
            }
        }),
{
    reveal(tick_rto);
    let k = collapse(count_timeout(s));
    assert(addressable(k) && k.state is SynRcvd && k.syn_rcvd_retries == s.syn_rcvd_retries && k.tx
        == s.tx && k.iss == s.iss && k.rcv_nxt == s.rcv_nxt && k.now_ms == s.now_ms && k.is_listener
        == s.is_listener) by {
        reveal(count_timeout);
        reveal(collapse);
    }
    reveal(resend_handshake);
    let u = retry_counted(k);
    assert(addressable(u) && u.state is SynRcvd && u.syn_rcvd_retries == s.syn_rcvd_retries + 1
        && u.tx == s.tx && u.iss == s.iss && u.rcv_nxt == s.rcv_nxt && u.now_ms == s.now_ms
        && u.is_listener == s.is_listener) by {
        reveal(retry_counted);
    }
    if s.syn_rcvd_retries == 5 {
        reveal(relisten);
        reveal(unpinned);
        reveal(reset);
    } else {
        lemma_synack_parses(u);
        let v = emit_synack(u);
        reveal(syn_in_flight);
        reveal(syn_counted);
        reveal(bump_max);
        reveal(arm_rto);
    }
}

/// The SYN-ACK is staged.
pub proof fn lemma_synack_parses(s: TcbView)
    requires
        addressable(s),
        !tx_full(s),
    ensures
        ({
            let t = emit_synack(s);
            &&& t.tx.len() == s.tx.len() + 1
            &&& parse_packet(t.tx.last()) matches Some(g)
            &&& g.has(flags::SYN) && g.has(flags::ACK) && g.seq == s.iss && g.ack == s.rcv_nxt
            &&& t.state == s.state && t.syn_rcvd_retries == s.syn_rcvd_retries
            &&& t.now_ms == s.now_ms && t.rto_ms == s.rto_ms
        }),
{
    reveal(emit_synack);
    lemma_options_fit(s);
    let bits = flags::SYN | flags::ACK | (if s.ecn_enabled {
        flags::ECE
    } else {
        0u8
    });
    lemma_synack_bits();
    reveal(emit);
    reveal(datagram_out);
    reveal(segment_out);
    reveal(feedback);
    let g = segment_out(s, bits, s.iss, s.rcv_nxt, synack_opts(s), Seq::empty());
    law_emit_then_parse_round_trip(g, s.ip_id, Seq::empty());
    assert(packet(g, s.ip_id) + Seq::<u8>::empty() =~= packet(g, s.ip_id));
}

proof fn lemma_synack_bits()
    by (bit_vector)
    ensures
        (0x02u8 | 0x10u8 | 0u8) & 0x10u8 != 0 && (0x02u8 | 0x10u8 | 0u8) & 0x02u8 != 0,
        (0x02u8 | 0x10u8 | 0x40u8) & 0x10u8 != 0 && (0x02u8 | 0x10u8 | 0x40u8) & 0x02u8 != 0,
{
}

/// Any segment for the connection shows that the peer is alive: no probe is outstanding any
/// more, and the next one comes after the whole idle time.
pub proof fn law_segment_shows_life(s: TcbView, b: Seq<u8>)
    requires
        parse_packet(b) matches Some(g) && for_us(s, g),
        injected(s, b).0.keepalive_idle_ms != 0,
    ensures
        ({
            let t = injected(s, b).0;
            &&& t.keepalive_probes == 0
            &&& t.keepalive_deadline == Some(t.now_ms.wrapping_add(t.keepalive_idle_ms as u64))
        }),
{
    reveal(peer_alive);
}

} // verus!
