//! The calls of a connection keep its records up to date.

use crate::scoreboard::Range;
use crate::send_queue::{needed, SendEntry};
use crate::seq::{seq_gt, seq_le, seq_lt};
use crate::state::{synchronized, State};
use crate::tcb::laws::acking::{
    fin_step, lemma_ack_advance_sound, lemma_note_sound, lemma_take_ack_sound,
};
use crate::tcb::laws::calls::untouched;
use crate::tcb::laws::records::{
    kept_up, lemma_emit_records, lemma_fire_tlp_recorded, lemma_rack_scan_recorded,
    lemma_same_records, lemma_send_data_recorded, lemma_with_lost_ok, lost_ok, on_record,
    same_records, sent_ok, within,
};
use crate::tcb::laws::segments::{
    lemma_answer_send, lemma_emit_synack_send, lemma_from_cookie_sound, lemma_handshake_done_sound,
    lemma_take_fin_sound, lemma_take_payload_send, peer_fin_step,
};
use crate::tcb::laws::sending::{lemma_emit_send, lemma_pure_ack_send, lemma_same_send, same_send};
use crate::tcb::laws::soundness::{outstanding, sound};
use crate::tcb::laws::timers::{
    handshake_has_room, lemma_tick_persist_sound, lemma_tick_rack_sound, lemma_tick_rto_sound,
    lemma_tick_timers_sound, lemma_tick_tlp_sound,
};
use crate::tcb::lost_queue::still_lost;
use crate::tcb::model::{
    accept, ack_advance, ack_advanced, ack_fin, ack_prune, ack_recovery, ack_repeated, ack_sample,
    ack_timing, agreed, answer, app_recv, app_send, arm_rto, arm_rto_if_idle, begin_recovery,
    bump_max, closed, collapse, connected, cookie_restored, count_repeat, count_timeout, created,
    data_buffered, data_opts, data_read, delivery_credited, delivery_noted, drain, due, emit,
    emit_cookie, emit_synack, emit_window_probe, fin_received, flight, for_us, from_cookie,
    given_up, half_open, handshake_done, in_state, injected, keepalive_counted, listening,
    may_transmit, note_echo, note_marks, note_sacks, nxt_caught_up, nxt_moved, on_listen, on_reset,
    on_segment, on_syn_rcvd, on_syn_sent, on_synchronised, open_to_all, opening, patience_restored,
    peer_alive, persist_backed_off, pinned, probe_dropped, pure_ack, rack_disarmed, rack_scan,
    records_pruned, recovering, recovery_ended, refuse, relisten, repeat_counted, resend_handshake,
    reset, reset_by_peer, reset_reply, retry_counted, ring_bytes, rto_gives_up, rto_stopped,
    rtt_from_echo, rtt_from_probe, rtt_sample, rxt_caught_up, sacks_noted, send_data, send_syn,
    syn_accepted, syn_acked, syn_counted, syn_in_flight, syn_opts, synack_accepted, take_ack,
    take_fin, take_offer, take_payload, take_syn, take_synack_options, take_window, tick_ack,
    tick_keepalive, tick_persist, tick_rack, tick_rto, tick_time_wait, tick_timers, tick_tlp,
    tick_user_timeout, ticked, tlp_reset, ts_agreed, una_moved, unlistened, unpinned, unsent,
    user_timer_restarted, user_timer_set, window_updated, EndpointView, TcbView,
};
use crate::wire::options::no_options;
use crate::wire::{flags, parse_packet, SegmentView};
use vstd::prelude::*;

verus! {

/// After `n` bytes are acknowledged, the records that are still needed end within
/// what is left.
proof fn lemma_needed_ok(q: Seq<SendEntry>, una: u32, m: int, n: u32, rs: Seq<Range>)
    requires
        sent_ok(q, una, m),
        n <= m <= 0x4000_0001,
    ensures
        sent_ok(needed(q, una.wrapping_add(n), rs), una.wrapping_add(n), m - n),
    decreases q.len(),
{
    if q.len() > 0 {
        assert forall|i: int| 0 <= i < q.drop_last().len() implies within(
            (#[trigger] q.drop_last()[i]).seq_end,
            una,
            m,
        ) by {
            assert(within(q[i].seq_end, una, m));
        }
        lemma_needed_ok(q.drop_last(), una, m, n, rs);
        assert(within(q[q.len() - 1].seq_end, una, m));
    }
}

proof fn lemma_still_lost_ok(q: Seq<(u32, u32)>, una: u32, m: int, n: u32, k: int)
    requires
        lost_ok(q, una, m),
        n <= m <= 0x4000_0001,
        k <= q.len(),
    ensures
        lost_ok(still_lost(q, una.wrapping_add(n), k), una.wrapping_add(n), m - n),
    decreases k,
{
    if k > 0 {
        lemma_still_lost_ok(q, una, m, n, k - 1);
        let r = q[k - 1];
        assert(within(r.1, una, m));
        let top = una.wrapping_add(n);
        if !seq_le(r.1, top) {
            lemma_with_lost_ok(
                still_lost(q, top, k - 1),
                if seq_lt(r.0, top) {
                    top
                } else {
                    r.0
                },
                r.1,
                top,
                m - n,
            );
        }
    }
}

proof fn lemma_begin_recovery_records(s: TcbView)
    ensures
        same_records(s, begin_recovery(s)),
{
    reveal(begin_recovery);
    reveal(recovering);
    reveal(arm_rto);
}

proof fn lemma_count_repeat_records(s: TcbView, g: SegmentView)
    ensures
        same_records(s, count_repeat(s, g)),
{
    reveal(count_repeat);
    lemma_begin_recovery_records(s);
    let t = repeat_counted(s);
    assert(same_records(s, t) && t.cc.in_recovery == s.cc.in_recovery && t.rxt_seq == s.rxt_seq) by {
        reveal(repeat_counted);
    }
    lemma_begin_recovery_records(t);
}

proof fn lemma_ack_repeated_recorded(s: TcbView, g: SegmentView, newly: u32)
    requires
        on_record(s),
        synchronized(s.state),
    ensures
        on_record(ack_repeated(s, g, newly)),
{
    reveal(ack_repeated);
    let t = count_repeat(s, g);
    lemma_count_repeat_records(s, g);
    let u = if newly > 0 {
        delivery_credited(t, newly)
    } else {
        t
    };
    assert(same_records(t, u)) by {
        reveal(delivery_credited);
    }
    lemma_same_records(s, t);
    lemma_same_records(t, u);
    lemma_rack_scan_recorded(u);
    let v = rack_scan(u);
    assert(same_records(v, take_window(v, g.window))) by {
        reveal(take_window);
    }
    lemma_same_records(v, take_window(v, g.window));
}

proof fn lemma_ack_advanced_recorded(s: TcbView, g: SegmentView)
    requires
        sound(s),
        on_record(s),
        synchronized(s.state),
        !seq_gt(g.ack, s.snd_max),
        !seq_le(g.ack, s.snd_una),
    ensures
        on_record(ack_advanced(s, g)),
{
    reveal(ack_advanced);
    let n = g.ack.wrapping_sub(s.snd_una);
    lemma_ack_advance_sound(s, g.ack);
    let a = ack_advance(s, g.ack);
    assert(a.sent == s.sent && a.lost == s.lost && a.rxt_seq == s.rxt_seq) by {
        reveal(ack_advance);
        reveal(una_moved);
        reveal(user_timer_restarted);
        reveal(nxt_caught_up);
    }
    let b = ack_prune(a);
    reveal(ack_prune);
    assert(b.snd_una == a.snd_una && b.snd_max == a.snd_max && b.state == a.state && b.rxt_seq
        == a.rxt_seq && b.cc == a.cc) by {
        reveal(delivery_noted);
        reveal(records_pruned);
    }
    assert(kept_up(b)) by {
        let d = delivery_noted(a);
        assert(d.sent == a.sent && d.lost == a.lost && d.snd_una == a.snd_una) by {
            reveal(delivery_noted);
        }
        reveal(records_pruned);
        if may_transmit(s.state) {
            assert(s.snd_una.wrapping_add(n) == g.ack);
            lemma_needed_ok(s.sent, s.snd_una, outstanding(s), n, d.board.ranges);
            lemma_still_lost_ok(
                s.lost,
                s.snd_una,
                outstanding(s),
                n,
                s.lost.len() as int,
            );
        }
    }
    let c = ack_recovery(b, n);
    assert(c.sent == b.sent && (c.lost == b.lost || c.lost.len() == 0) && c.snd_una == b.snd_una
        && c.snd_max == b.snd_max && c.state == b.state && (c.cc.in_recovery ==> b.cc.in_recovery
        && c.rxt_seq == (if seq_gt(b.snd_una, b.rxt_seq) {
        b.snd_una
    } else {
        b.rxt_seq
    }))) by {
        reveal(ack_recovery);
        reveal(rxt_caught_up);
        reveal(delivery_credited);
        reveal(recovery_ended);
    }
    assert(on_record(c));
    lemma_rack_scan_recorded(c);
    let d = rack_scan(c);
    let e = ack_timing(tlp_reset(d, n), g);
    assert(same_records(d, e)) by {
        reveal(tlp_reset);
        reveal(ack_timing);
        reveal(ack_sample);
        reveal(rtt_from_echo);
        reveal(rtt_from_probe);
        reveal(rtt_sample);
        reveal(probe_dropped);
        reveal(rto_stopped);
        reveal(arm_rto);
    }
    lemma_same_records(d, e);
    let f = ack_fin(e);
    assert(f.sent == e.sent && f.lost == e.lost && f.snd_una == e.snd_una && f.snd_max == e.snd_max
        && f.cc == e.cc && f.rxt_seq == e.rxt_seq
        && (f.state == e.state || f.state == fin_step(e.state))) by {
        reveal(ack_fin);
    }
    assert(synchronized(d.state)) by {
        crate::tcb::laws::frame::lemma_rack_scan(c);
    }
    assert(on_record(f));
    assert(same_records(f, take_window(f, g.window))) by {
        reveal(take_window);
    }
    lemma_same_records(f, take_window(f, g.window));
}

/// Acknowledgements keep the records up to date.
pub proof fn lemma_take_ack_recorded(s: TcbView, g: SegmentView)
    requires
        sound(s),
        on_record(s),
        synchronized(s.state),
    ensures
        on_record(take_ack(s, g)),
{
    reveal(take_ack);
    if seq_gt(g.ack, s.snd_max) {
        lemma_pure_ack_send(s);
        lemma_same_records(s, pure_ack(s));
    } else {
        lemma_note_sound(s, g);
        let (t, newly) = note_sacks(note_echo(patience_restored(s), g), g);
        assert(same_records(s, t)) by {
            reveal(patience_restored);
            reveal(note_echo);
            reveal(recovering);
            reveal(note_sacks);
            reveal(sacks_noted);
        }
        lemma_same_records(s, t);
        if seq_le(g.ack, t.snd_una) {
            lemma_ack_repeated_recorded(t, g, newly);
        } else {
            lemma_ack_advanced_recorded(t, g);
        }
    }
}

/// The state has changed to one that [`on_record`] asks no more of.
proof fn lemma_state_recorded(s: TcbView, t: TcbView)
    requires
        on_record(s),
        t.sent == s.sent && t.lost == s.lost && t.snd_una == s.snd_una && t.snd_max == s.snd_max,
        t.cc == s.cc && t.rxt_seq == s.rxt_seq,
        may_transmit(t.state) ==> may_transmit(s.state),
        !(t.state is SynSent || t.state is SynRcvd),
    ensures
        on_record(t),
{
}

/// Of an acknowledgement, only what [`on_record`] needs to know.
proof fn lemma_take_ack_brief(s: TcbView, g: SegmentView)
    requires
        sound(s),
        on_record(s),
        synchronized(s.state),
    ensures
        sound(take_ack(s, g)),
        on_record(take_ack(s, g)),
        synchronized(take_ack(s, g).state) || take_ack(s, g).state is Closed,
{
    lemma_take_ack_sound(s, g);
    lemma_take_ack_recorded(s, g);
}

proof fn lemma_take_fin_recorded(s: TcbView, g: SegmentView)
    requires
        on_record(s),
        synchronized(s.state) || s.state is Closed,
    ensures
        on_record(take_fin(s, g)),
{
    let t = take_fin(s, g);
    assert(t.sent == s.sent && t.lost == s.lost && t.snd_una == s.snd_una && t.snd_max == s.snd_max
        && t.cc == s.cc && t.rxt_seq == s.rxt_seq && (t.state == s.state || t.state == peer_fin_step(s.state))) by {
        reveal(take_fin);
        reveal(fin_received);
    }
    lemma_state_recorded(s, t);
}

proof fn lemma_accept_recorded(s: TcbView, g: SegmentView)
    requires
        sound(s),
        on_record(s),
        synchronized(s.state),
    ensures
        on_record(accept(s, g)),
{
    reveal(accept);
    lemma_take_ack_brief(s, g);
    let a = if g.has(flags::ACK) {
        take_ack(s, g)
    } else {
        s
    };
    lemma_take_payload_send(a, g);
    let (b, filled) = take_payload(a, g);
    lemma_same_send(a, b);
    lemma_same_records(a, b);
    lemma_take_fin_sound(b, g);
    lemma_take_fin_recorded(b, g);
    let c = take_fin(b, g);
    let advanced = c.rcv_nxt != s.rcv_nxt;
    lemma_answer_send(c, g, advanced, filled);
    let d = answer(c, g, advanced, filled);
    lemma_same_send(c, d);
    lemma_same_records(c, d);
    lemma_send_data_recorded(d);
}

proof fn lemma_on_synchronised_recorded(s: TcbView, g: SegmentView)
    requires
        sound(s),
        on_record(s),
        synchronized(s.state),
    ensures
        on_record(on_synchronised(s, g)),
{
    reveal(on_synchronised);
    let t = note_marks(s, g);
    assert(sound(t) && same_records(s, t)) by {
        reveal(note_marks);
    }
    lemma_same_records(s, t);
    lemma_accept_recorded(t, g);
    lemma_take_ack_brief(t, g);
    let k = take_ack(t, g);
    reveal(refuse);
    lemma_pure_ack_send(t);
    lemma_pure_ack_send(k);
    lemma_same_records(t, pure_ack(t));
    lemma_same_records(k, pure_ack(k));
}

proof fn lemma_reset_recorded(s: TcbView)
    ensures
        reset(s).sent.len() == 0,
        reset(s).lost.len() == 0,
{
    reveal(reset);
}

proof fn lemma_relisten_recorded(s: TcbView)
    ensures
        on_record(relisten(s)),
{
    reveal(relisten);
    reveal(unpinned);
    lemma_reset_recorded(s);
}

proof fn lemma_on_segment_recorded(s: TcbView, g: SegmentView)
    requires
        sound(s),
        on_record(s),
    ensures
        on_record(on_segment(s, g).0),
{
    reveal(on_segment);
    lemma_emit_records(s, flags::RST, g.ack, 0, no_options(), Seq::empty());
    lemma_emit_records(s, flags::RST, 0, g.seq.wrapping_add(1), no_options(), Seq::empty());
    reveal(reset_reply);
    lemma_same_records(s, reset_reply(s, g.ack, 0));
    lemma_same_records(s, reset_reply(s, 0, g.seq.wrapping_add(1)));
    if g.has(flags::RST) {
        reveal(on_reset);
        lemma_relisten_recorded(s);
        reveal(reset_by_peer);
    } else if s.state is Listen {
        reveal(on_listen);
        assert(same_records(s, emit_cookie(s, g))) by {
            reveal(emit_cookie);
        }
        lemma_same_records(s, emit_cookie(s, g));
        lemma_reset_recorded(s);
        assert(syn_accepted(s, g).sent.len() == 0 && syn_accepted(s, g).lost.len() == 0
            && syn_accepted(s, g).state is SynRcvd) by {
            reveal(syn_accepted);
            reveal(take_syn);
            reveal(pinned);
            reveal(take_offer);
            reveal(ts_agreed);
            reveal(agreed);
            reveal(window_updated);
            let b = take_syn(reset(s), g);
            lemma_emit_synack_send(b);
            reveal(half_open);
            reveal(syn_in_flight);
            reveal(syn_counted);
            reveal(bump_max);
            reveal(arm_rto);
        }
        lemma_from_cookie_sound(s, g);
        assert(from_cookie(s, g).sent.len() == 0 && from_cookie(s, g).lost.len() == 0 && outstanding(
            from_cookie(s, g),
        ) == 0) by {
            reveal(from_cookie);
            reveal(pinned);
            reveal(cookie_restored);
            reveal(ts_agreed);
            reveal(window_updated);
            reveal(in_state);
        }
        lemma_on_synchronised_recorded(from_cookie(s, g), g);
    } else if s.state is SynSent {
        reveal(on_syn_sent);
        assert(synack_accepted(s, g).sent.len() == 0 && synack_accepted(s, g).lost.len() == 0
            && !synack_accepted(s, g).cc.in_recovery) by {
            reveal(synack_accepted);
            let a = syn_acked(take_offer(s, g), g.ack);
            let b = take_synack_options(a, g);
            let c = rtt_from_probe(b, g.ack);
            let d = in_state(rto_stopped(c), State::Established);
            assert(d.sent == s.sent && d.lost == s.lost && d.cc.in_recovery == s.cc.in_recovery) by {
                reveal(take_offer);
                reveal(syn_acked);
                reveal(take_synack_options);
                reveal(ts_agreed);
                reveal(rtt_from_echo);
                reveal(rtt_sample);
                reveal(agreed);
                reveal(rtt_from_probe);
                reveal(probe_dropped);
                reveal(rto_stopped);
                reveal(in_state);
            }
            lemma_pure_ack_send(d);
        }
        if g.ack == s.snd_nxt {
            crate::tcb::laws::segments::lemma_synack_accepted_sound(s, g);
        }
    } else if s.state is SynRcvd {
        reveal(on_syn_rcvd);
        lemma_emit_synack_send(s);
        lemma_same_records(s, emit_synack(s));
        if g.ack == s.iss.wrapping_add(1) {
            lemma_handshake_done_sound(s, g);
            let t = handshake_done(s, g);
            assert(t.sent == s.sent && t.lost == s.lost && t.cc == s.cc) by {
                reveal(handshake_done);
            }
            assert(on_record(t));
            lemma_on_synchronised_recorded(t, g);
        }
    } else if synchronized(s.state) {
        lemma_on_synchronised_recorded(s, g);
    }
}

/// An inbound datagram keeps the records up to date, whatever it holds.
pub proof fn law_inbound_keeps_records(s: TcbView, b: Seq<u8>)
    requires
        sound(s),
        on_record(s),
    ensures
        on_record(injected(s, b).0),
{
    if let Some(g) = parse_packet(b) {
        if for_us(s, g) {
            lemma_on_segment_recorded(s, g);
            let t = on_segment(s, g).0;
            assert(same_records(t, peer_alive(t))) by {
                reveal(peer_alive);
            }
            lemma_same_records(t, peer_alive(t));
        }
    }
}

pub proof fn lemma_tick_rto_recorded(s: TcbView)
    requires
        on_record(s),
    ensures
        on_record(tick_rto(s)),
{
    reveal(tick_rto);
    if due(s, s.rto_deadline) {
        let t = collapse(count_timeout(s));
        assert(t.sent.len() == 0 && t.lost.len() == 0 && t.state == s.state && !t.cc.in_recovery) by {
            reveal(count_timeout);
            reveal(collapse);
        }
        reveal(resend_handshake);
        reveal(retry_counted);
        let u = retry_counted(t);
        lemma_relisten_recorded(u);
        lemma_emit_synack_send(u);
        reveal(send_syn);
        let bits = flags::SYN | flags::ECE | flags::CWR;
        lemma_emit_records(t, bits, t.iss, 0, syn_opts(t), Seq::empty());
        reveal(syn_in_flight);
        reveal(syn_counted);
        reveal(bump_max);
        reveal(arm_rto);
    }
}

pub proof fn lemma_tick_rack_recorded(s: TcbView)
    requires
        sound(s),
        on_record(s),
    ensures
        on_record(tick_rack(s)),
{
    reveal(tick_rack);
    reveal(rack_disarmed);
    let d = rack_disarmed(s);
    lemma_same_records(s, d);
    if due(s, s.rack_deadline) {
        lemma_rack_scan_recorded(d);
    }
}

pub proof fn lemma_tick_persist_recorded(s: TcbView)
    requires
        sound(s),
        on_record(s),
    ensures
        on_record(tick_persist(s)),
{
    reveal(tick_persist);
    assert(same_records(s, persist_backed_off(s))) by {
        reveal(persist_backed_off);
    }
    lemma_same_records(s, persist_backed_off(s));
    if due(s, s.persist_deadline) && unsent(s) > 0 {
        reveal(emit_window_probe);
        let b = ring_bytes(s, flight(s) as int, 1);
        let t = emit(s, flags::ACK | flags::PSH, s.snd_nxt, s.rcv_nxt, data_opts(s), b);
        lemma_emit_records(s, flags::ACK | flags::PSH, s.snd_nxt, s.rcv_nxt, data_opts(s), b);
        lemma_emit_send(s, flags::ACK | flags::PSH, s.snd_nxt, s.rcv_nxt, data_opts(s), b);
        crate::tcb::laws::sending::lemma_nxt_moved_sound(t, 1);
        let u = nxt_moved(t, 1);
        let v = persist_backed_off(arm_rto_if_idle(u, u.snd_nxt));
        assert(same_records(t, v)) by {
            reveal(nxt_moved);
            reveal(bump_max);
            reveal(arm_rto_if_idle);
            reveal(arm_rto);
            reveal(persist_backed_off);
        }
        lemma_same_records(s, v);
    }
}

proof fn lemma_tick_limits_recorded(s: TcbView)
    requires
        on_record(s),
    ensures
        on_record(tick_user_timeout(tick_keepalive(s))),
{
    reveal(tick_keepalive);
    reveal(tick_user_timeout);
    reveal(keepalive_counted);
    reveal(user_timer_set);
    reveal(given_up);
    let p = s.snd_nxt.wrapping_sub(1);
    lemma_emit_records(s, flags::ACK, p, s.rcv_nxt, data_opts(s), Seq::empty());
    let e = emit(s, flags::ACK, p, s.rcv_nxt, data_opts(s), Seq::empty());
    lemma_same_records(s, e);
    let t = tick_keepalive(s);
    assert(on_record(t));
    let u = tick_user_timeout(t);
    if !(u.state is Closed) {
        lemma_same_records(t, u);
    }
}

/// The records are up to date once every timer up to the user timeout has run.
pub proof fn lemma_tick_timers_recorded(s: TcbView)
    requires
        sound(s),
        on_record(s),
        handshake_has_room(s),
    ensures
        on_record(tick_timers(s)),
{
    reveal(tick_timers);
    lemma_tick_rto_sound(s);
    lemma_tick_rto_recorded(s);
    let b = tick_rto(s);
    lemma_tick_rack_sound(b);
    lemma_tick_rack_recorded(b);
    let c = tick_rack(b);
    lemma_tick_tlp_sound(c);
    let d = tick_tlp(c);
    assert(on_record(d)) by {
        reveal(tick_tlp);
        if due(c, c.tlp_deadline) {
            lemma_fire_tlp_recorded(c);
        }
    }
    lemma_tick_persist_sound(d);
    lemma_tick_persist_recorded(d);
    lemma_tick_limits_recorded(tick_persist(d));
}

/// The timers keep the records up to date.
pub proof fn law_tick_keeps_records(s: TcbView)
    requires
        sound(s),
        on_record(s),
        handshake_has_room(s),
    ensures
        on_record(ticked(s)),
{
    let a = tick_time_wait(s);
    assert(sound(a) && on_record(a) && handshake_has_room(a)) by {
        reveal(tick_time_wait);
    }
    if rto_gives_up(a) {
        reveal(given_up);
    } else {
        lemma_tick_timers_sound(a);
        lemma_tick_timers_recorded(a);
        let t = tick_timers(a);
        lemma_send_data_recorded(t);
        reveal(tick_ack);
        let u = send_data(t);
        lemma_pure_ack_send(u);
        lemma_same_records(u, pure_ack(u));
    }
}

/// The application's calls keep the records up to date.
pub proof fn law_calls_keep_records(s: TcbView, data: Seq<u8>, room: int)
    requires
        sound(s),
        on_record(s),
    ensures
        on_record(app_send(s, data).0),
        on_record(app_recv(s, room).0),
        !(s.state is SynRcvd) ==> on_record(closed(s)),
        on_record(listening(s)),
        untouched(s) && s.sent.len() == 0 && s.lost.len() == 0 ==> on_record(connected(s)),
{
    assert(same_records(s, app_send(s, data).0)) by {
        reveal(data_buffered);
    }
    lemma_same_records(s, app_send(s, data).0);
    if let Ok(n) = app_recv(s, room).1 {
        if n > 0 {
            let t = data_read(s, n);
            assert(same_send(s, t)) by {
                reveal(data_read);
            }
            crate::tcb::laws::segments::lemma_drain_send(t);
            crate::tcb::laws::segments::lemma_drain_send(drain(t));
            lemma_same_records(s, app_recv(s, room).0);
        }
    }
    lemma_close_recorded(s);
    reveal(in_state);
    reveal(open_to_all);
    lemma_reset_recorded(open_to_all(s));
    let o = opening(s);
    let bits = flags::SYN | flags::ECE | flags::CWR;
    lemma_emit_records(o, bits, o.iss, 0, syn_opts(o), Seq::empty());
    assert(connected(s).sent == s.sent && connected(s).lost == s.lost && connected(s).state
        is SynSent) by {
        reveal(opening);
        reveal(send_syn);
        reveal(syn_in_flight);
        reveal(syn_counted);
        reveal(bump_max);
        reveal(arm_rto);
    }
}

proof fn lemma_close_recorded(s: TcbView)
    requires
        sound(s),
        on_record(s),
    ensures
        !(s.state is SynRcvd) ==> on_record(closed(s)),
{
    reveal(in_state);
    reveal(unlistened);
    if s.state is Established || s.state is CloseWait {
        let t = in_state(
            s,
            if s.state is CloseWait {
                State::LastAck
            } else {
                State::FinWait1
            },
        );
        lemma_state_recorded(s, t);
        lemma_send_data_recorded(t);
    }
}

/// A new connection has no records.
pub proof fn law_new_has_no_records(
    cap: usize,
    local: EndpointView,
    remote: EndpointView,
    iss: u32,
    initial_rto_ms: u32,
)
    ensures
        on_record(created(cap, local, remote, iss, initial_rto_ms)),
{
}

} // verus!
