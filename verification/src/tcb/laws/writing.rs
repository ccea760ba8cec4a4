//! The written stream through the calls of a connection, and from end to end.

use crate::state::{synchronized, State};
use crate::tcb::laws::acking::lemma_take_ack_sound;
use crate::tcb::laws::calls::untouched;
use crate::tcb::laws::inbound::law_inbound_keeps_the_stream;
use crate::tcb::laws::outbound::{
    has_peer, lemma_bare_written, lemma_emit_written, lemma_fire_tlp_written,
    lemma_nxt_moved_out, lemma_options_fit, lemma_pure_ack_written, lemma_rack_scan_out,
    lemma_same_out, lemma_send_data_written, ours, same_out, starts, tail, write_done, written,
};
use crate::tcb::laws::segments::{
    lemma_answer_send, lemma_drain_send, lemma_from_cookie_sound, lemma_handshake_done_sound,
    lemma_take_fin_sound, lemma_take_payload_send, peer_fin_step,
};
use crate::tcb::laws::sending::lemma_same_send;
use crate::tcb::laws::soundness::sound;
use crate::tcb::laws::stream::{intact, Stream};
use crate::tcb::laws::timers::{
    handshake_has_room, lemma_tick_persist_sound, lemma_tick_rack_sound, lemma_tick_rto_sound,
    lemma_tick_timers_sound, lemma_tick_tlp_sound,
};
use crate::tcb::model::{
    aborted, accept, ack_owed, ack_timed, agreed, answer, app_recv, app_recv_len, app_send,
    arm_rto, arm_rto_if_idle, bump_max, closed, collapse, connected, cookie_restored,
    cookie_segment, count_timeout, created, data_buffered, data_opts, data_read, drain, due,
    emit, emit_cookie, emit_synack, emit_window_probe, fin_received, flight, for_us,
    from_cookie, given_up, half_open, handshake_done, in_state, injected, keepalive_counted,
    listening, note_marks, nxt_moved, on_listen, on_reset, on_segment, on_syn_rcvd, on_syn_sent,
    on_synchronised, open_to_all, opening, owe_ack, peer_alive, persist_backed_off, pinned,
    probe_dropped, rack_disarmed, refuse, relisten, resend_handshake, reset, reset_by_peer,
    reset_reply, retry_counted, ring_bytes, rto_gives_up, rto_stopped, rtt_from_echo,
    rtt_from_probe, rtt_sample, send_data, send_syn, syn_accepted, syn_acked, syn_counted,
    syn_in_flight, syn_opts, synack_accepted, synack_opts, take_ack, take_fin, take_offer,
    take_payload, take_syn, take_synack_options, tick_ack, tick_keepalive, tick_persist,
    tick_rack, tick_rto, tick_time_wait, tick_timers, tick_tlp, tick_user_timeout, ticked,
    torn_down, ts_agreed, tx_full, unlistened, unpinned, unsent, user_timer_set, window_updated,
    EndpointView, TcbView,
};
use crate::wire::options::no_options;
use crate::wire::{flags, law_emit_then_parse_round_trip, packet, parse_packet, SegmentView};
use crate::MSS;
use vstd::prelude::*;

verus! {

/// Nothing is buffered or staged.
proof fn lemma_blank_written(s: TcbView, f: Stream)
    requires
        s.local.ip.len() == 4,
        s.remote.ip.len() == 4,
        s.local_mss <= MSS,
        s.send_ring.len() == 0,
        s.tx.len() == 0,
        !s.fin_sent,
        !write_done(s.state),
        starts(s, f),
    ensures
        written(s, f),
{
}

/// What [`written`] speaks of is the same, the state aside.
pub open spec fn same_content(s: TcbView, t: TcbView) -> bool {
    &&& t.local == s.local
    &&& t.remote == s.remote
    &&& t.local_mss == s.local_mss
    &&& t.iss == s.iss
    &&& t.cookie_secret_set == s.cookie_secret_set
    &&& t.snd_una == s.snd_una
    &&& t.send_ring == s.send_ring
    &&& t.fin_sent == s.fin_sent
    &&& t.fin_seq == s.fin_seq
    &&& t.tx == s.tx
}

/// The state has changed in a way that [`written`] does not care about.
proof fn lemma_state_out(s: TcbView, t: TcbView, f: Stream)
    requires
        written(s, f),
        same_content(s, t),
        has_peer(t.state) ==> has_peer(s.state),
        write_done(t.state) && !t.fin_sent ==> write_done(s.state),
    ensures
        written(t, f),
{
    assert forall|k: int| 0 <= k < t.tx.len() implies ours(t, #[trigger] t.tx[k], f) by {
        assert(ours(s, s.tx[k], f));
    }
}

/// The peer's acknowledgement takes what it covers off the front of what is
/// buffered.
proof fn lemma_take_ack_written(s: TcbView, g: SegmentView, f: Stream)
    requires
        sound(s),
        written(s, f),
        synchronized(s.state),
    ensures
        written(take_ack(s, g), f),
{
    lemma_take_ack_sound(s, g);
    let t = take_ack(s, g);
    if crate::seq::seq_gt(g.ack, s.snd_max) {
        lemma_pure_ack_written(s, f);
    } else {
        assert forall|k: int| 0 <= k < t.tx.len() implies ours(t, #[trigger] t.tx[k], f) by {
            assert(ours(s, s.tx[k], f));
        }
        if t.snd_una != s.snd_una && !s.fin_sent {
            let n = g.ack.wrapping_sub(s.snd_una);
            assert forall|i: int| 0 <= i < t.send_ring.len() implies (f.byte)(
                t.snd_una.wrapping_add(i as u32),
            ) == Some(#[trigger] t.send_ring[i]) by {
                assert(t.send_ring[i] == s.send_ring[i + n]);
                assert(t.snd_una.wrapping_add(i as u32) == s.snd_una.wrapping_add(
                    (i + n) as u32,
                ));
            }
            assert(tail(t) == tail(s));
        }
        assert(written(t, f));
    }
}

proof fn lemma_answer_written(
    s: TcbView,
    g: SegmentView,
    advanced: bool,
    filled: bool,
    f: Stream,
)
    requires
        written(s, f),
    ensures
        written(answer(s, g, advanced, filled), f),
{
    reveal(answer);
    lemma_pure_ack_written(s, f);
    reveal(owe_ack);
    let t = ack_owed(s);
    assert(same_out(s, t) && same_out(t, ack_timed(t))) by {
        reveal(ack_owed);
        reveal(ack_timed);
    }
    lemma_same_out(s, t, f);
    lemma_same_out(t, ack_timed(t), f);
    lemma_pure_ack_written(t, f);
}

proof fn lemma_take_fin_written(s: TcbView, g: SegmentView, f: Stream)
    requires
        written(s, f),
    ensures
        written(take_fin(s, g), f),
{
    let t = take_fin(s, g);
    assert(same_content(s, t) && (t.state == s.state || t.state == peer_fin_step(s.state))) by {
        reveal(take_fin);
        reveal(fin_received);
    }
    lemma_state_out(s, t, f);
}

proof fn lemma_accept_written(s: TcbView, g: SegmentView, f: Stream)
    requires
        sound(s),
        written(s, f),
        synchronized(s.state),
    ensures
        written(accept(s, g), f),
{
    reveal(accept);
    lemma_take_ack_sound(s, g);
    lemma_take_ack_written(s, g, f);
    let a = if g.has(flags::ACK) {
        take_ack(s, g)
    } else {
        s
    };
    lemma_take_payload_send(a, g);
    let (b, filled) = take_payload(a, g);
    lemma_same_send(a, b);
    lemma_same_out(a, b, f);
    lemma_take_fin_sound(b, g);
    lemma_take_fin_written(b, g, f);
    let c = take_fin(b, g);
    let advanced = c.rcv_nxt != s.rcv_nxt;
    lemma_answer_send(c, g, advanced, filled);
    lemma_answer_written(c, g, advanced, filled, f);
    let d = answer(c, g, advanced, filled);
    lemma_same_send(c, d);
    lemma_send_data_written(d, f);
}

proof fn lemma_on_synchronised_written(s: TcbView, g: SegmentView, f: Stream)
    requires
        sound(s),
        written(s, f),
        synchronized(s.state),
    ensures
        written(on_synchronised(s, g), f),
{
    reveal(on_synchronised);
    let t = note_marks(s, g);
    assert(sound(t) && same_out(s, t)) by {
        reveal(note_marks);
    }
    lemma_same_out(s, t, f);
    lemma_accept_written(t, g, f);
    reveal(refuse);
    lemma_take_ack_written(t, g, f);
    lemma_pure_ack_written(t, f);
    lemma_pure_ack_written(take_ack(t, g), f);
}

proof fn lemma_reset_reply_written(s: TcbView, seq: u32, ack: u32, f: Stream)
    requires
        written(s, f),
    ensures
        written(reset_reply(s, seq, ack), f),
{
    reveal(reset_reply);
    lemma_options_fit(s);
    assert(0x04u8 & 0x01u8 == 0 && 0x04u8 & 0x02u8 == 0) by (bit_vector);
    lemma_bare_written(s, flags::RST, seq, ack, no_options(), f);
}

proof fn lemma_reset_blank(s: TcbView)
    ensures
        ({
            let t = reset(s);
            &&& t.local == s.local
            &&& t.remote == s.remote
            &&& t.local_mss == s.local_mss
            &&& t.iss == s.iss
            &&& t.cookie_secret_set == s.cookie_secret_set
            &&& t.send_ring.len() == 0
            &&& t.tx.len() == 0
            &&& !t.fin_sent
            &&& t.state == s.state
        }),
{
    reveal(reset);
}

proof fn lemma_relisten_written(s: TcbView, f: Stream)
    requires
        s.local.ip.len() == 4,
        s.local_mss <= MSS,
        starts(s, f),
    ensures
        written(relisten(s), f),
{
    reveal(relisten);
    reveal(unpinned);
    lemma_reset_blank(s);
    lemma_blank_written(relisten(s), f);
}

proof fn lemma_emit_synack_written(s: TcbView, f: Stream)
    requires
        written(s, f),
    ensures
        written(emit_synack(s), f),
{
    reveal(emit_synack);
    lemma_options_fit(s);
    assert((0x02u8 | 0x10u8 | 0x40u8) & 0x01u8 == 0 && (0x02u8 | 0x10u8 | 0u8) & 0x01u8 == 0)
        by (bit_vector);
    lemma_bare_written(
        s,
        flags::SYN | flags::ACK | (if s.ecn_enabled {
            flags::ECE
        } else {
            0u8
        }),
        s.iss,
        s.rcv_nxt,
        synack_opts(s),
        f,
    );
}

proof fn lemma_syn_in_flight_out(s: TcbView)
    ensures
        same_out(s, syn_in_flight(s)),
{
    reveal(syn_in_flight);
    reveal(syn_counted);
    reveal(bump_max);
    reveal(arm_rto);
}

proof fn lemma_send_syn_written(s: TcbView, f: Stream)
    requires
        written(s, f),
    ensures
        written(send_syn(s), f),
{
    reveal(send_syn);
    lemma_options_fit(s);
    assert((0x02u8 | 0x40u8 | 0x80u8) & 0x01u8 == 0) by (bit_vector);
    let bits = flags::SYN | flags::ECE | flags::CWR;
    lemma_bare_written(s, bits, s.iss, 0, syn_opts(s), f);
    let t = emit(s, bits, s.iss, 0, syn_opts(s), Seq::empty());
    lemma_syn_in_flight_out(t);
    lemma_same_out(t, syn_in_flight(t), f);
}

proof fn lemma_syn_accepted_written(s: TcbView, g: SegmentView, f: Stream)
    requires
        s.local.ip.len() == 4,
        s.local_mss <= MSS,
        s.state is Listen,
        g.src_ip.len() == 4,
        starts(s, f),
    ensures
        written(syn_accepted(s, g), f),
{
    reveal(syn_accepted);
    lemma_reset_blank(s);
    let a = reset(s);
    let b = take_syn(a, g);
    assert(b.local == a.local && b.remote.ip == g.src_ip && b.local_mss == a.local_mss && b.iss
        == a.iss && b.cookie_secret_set == a.cookie_secret_set && b.send_ring == a.send_ring && b.tx == a.tx && b.fin_sent == a.fin_sent && b.state
        == a.state) by {
        reveal(take_syn);
        reveal(pinned);
        reveal(take_offer);
        reveal(ts_agreed);
        reveal(agreed);
        reveal(window_updated);
    }
    let h = TcbView { state: State::SynRcvd, ..b };
    lemma_blank_written(h, f);
    lemma_emit_synack_written(h, f);
    let c = half_open(emit_synack(b));
    assert(same_out(emit_synack(h), c)) by {
        reveal(emit_synack);
        reveal(emit);
        reveal(crate::tcb::model::datagram_out);
        reveal(crate::tcb::model::segment_out);
        reveal(crate::tcb::model::feedback);
        reveal(synack_opts);
        reveal(half_open);
    }
    lemma_same_out(emit_synack(h), c, f);
    lemma_syn_in_flight_out(c);
    lemma_same_out(c, syn_in_flight(c), f);
}

proof fn lemma_from_cookie_written(s: TcbView, g: SegmentView, f: Stream)
    requires
        s.local.ip.len() == 4,
        s.local_mss <= MSS,
        g.src_ip.len() == 4,
        f.syn is None,
    ensures
        written(from_cookie(s, g), f),
{
    lemma_reset_blank(s);
    reveal(from_cookie);
    reveal(pinned);
    reveal(cookie_restored);
    reveal(ts_agreed);
    reveal(window_updated);
    reveal(in_state);
    lemma_blank_written(from_cookie(s, g), f);
}

proof fn lemma_emit_cookie_written(s: TcbView, g: SegmentView, f: Stream)
    requires
        written(s, f),
        s.state is Listen,
        s.cookie_secret_set,
        g.src_ip.len() == 4,
    ensures
        written(emit_cookie(s, g), f),
{
    reveal(emit_cookie);
    let t = emit_cookie(s, g);
    if !tx_full(s) {
        let c = cookie_segment(s, g);
        reveal(cookie_segment);
        assert((0x02u8 | 0x10u8) & 0x01u8 == 0) by (bit_vector);
        law_emit_then_parse_round_trip(c, s.ip_id, Seq::empty());
        assert(packet(c, s.ip_id) + Seq::<u8>::empty() =~= packet(c, s.ip_id));
        assert forall|k: int| 0 <= k < t.tx.len() implies ours(t, #[trigger] t.tx[k], f) by {
            if k < s.tx.len() {
                assert(t.tx[k] == s.tx[k]);
                assert(ours(s, s.tx[k], f));
            }
        }
    }
}

proof fn lemma_synack_accepted_written(s: TcbView, g: SegmentView, f: Stream)
    requires
        sound(s),
        written(s, f),
        s.state is SynSent,
    ensures
        written(synack_accepted(s, g), f),
{
    reveal(synack_accepted);
    let a = syn_acked(take_offer(s, g), g.ack);
    let b = take_synack_options(a, g);
    let c = rtt_from_probe(b, g.ack);
    let d = in_state(rto_stopped(c), State::Established);
    assert(d.local == s.local && d.remote == s.remote && d.local_mss == s.local_mss && d.iss
        == s.iss && d.cookie_secret_set == s.cookie_secret_set && d.send_ring
        == s.send_ring && d.fin_sent == s.fin_sent && d.fin_seq == s.fin_seq && d.tx == s.tx
        && d.state is Established) by {
        reveal(take_offer);
        reveal(syn_acked);
        reveal(take_synack_options);
        reveal(ts_agreed);
        reveal(rtt_from_echo);
        reveal(rtt_sample);
        reveal(agreed);
        reveal(rtt_from_probe);
        reveal(probe_dropped);
        reveal(rto_stopped);
        reveal(in_state);
    }
    assert forall|k: int| 0 <= k < d.tx.len() implies ours(d, #[trigger] d.tx[k], f) by {
        assert(ours(s, s.tx[k], f));
    }
    assert(written(d, f));
    lemma_pure_ack_written(d, f);
}

proof fn lemma_on_segment_written(s: TcbView, g: SegmentView, f: Stream)
    requires
        sound(s),
        written(s, f),
        g.src_ip.len() == 4,
    ensures
        written(on_segment(s, g).0, f),
{
    reveal(on_segment);
    lemma_reset_reply_written(s, g.ack, 0, f);
    lemma_reset_reply_written(s, 0, g.seq.wrapping_add(1), f);
    if g.has(flags::RST) {
        reveal(on_reset);
        lemma_relisten_written(s, f);
        let t = reset_by_peer(s);
        assert(written(t, f)) by {
            reveal(reset_by_peer);
            assert forall|k: int| 0 <= k < t.tx.len() implies ours(t, #[trigger] t.tx[k], f) by {
                assert(ours(s, s.tx[k], f));
            }
        }
    } else if s.state is Listen {
        reveal(on_listen);
        lemma_syn_accepted_written(s, g, f);
        if s.cookie_secret_set {
            lemma_emit_cookie_written(s, g, f);
            lemma_from_cookie_written(s, g, f);
            lemma_from_cookie_sound(s, g);
            lemma_on_synchronised_written(from_cookie(s, g), g, f);
        }
    } else if s.state is SynSent {
        reveal(on_syn_sent);
        lemma_synack_accepted_written(s, g, f);
    } else if s.state is SynRcvd {
        reveal(on_syn_rcvd);
        lemma_emit_synack_written(s, f);
        if g.ack == s.iss.wrapping_add(1) {
            lemma_handshake_done_sound(s, g);
            let t = handshake_done(s, g);
            assert(written(t, f)) by {
                reveal(handshake_done);
                assert forall|k: int| 0 <= k < t.tx.len() implies ours(
                    t,
                    #[trigger] t.tx[k],
                    f,
                ) by {
                    assert(ours(s, s.tx[k], f));
                }
            }
            lemma_on_synchronised_written(t, g, f);
        }
    } else if synchronized(s.state) {
        lemma_on_synchronised_written(s, g, f);
    }
}

/// An inbound datagram, whatever it holds, leaves the written stream in order: what
/// is still buffered is its part from the oldest unacknowledged byte on, and what
/// goes out in answer carries it.
pub proof fn law_inbound_keeps_written(s: TcbView, b: Seq<u8>, f: Stream)
    requires
        sound(s),
        written(s, f),
    ensures
        written(injected(s, b).0, f),
{
    if let Some(g) = parse_packet(b) {
        assert(g.src_ip.len() == 4);
        if for_us(s, g) {
            lemma_on_segment_written(s, g, f);
            let t = on_segment(s, g).0;
            reveal(peer_alive);
            lemma_same_out(t, peer_alive(t), f);
        }
    }
}

proof fn lemma_given_up_written(s: TcbView, f: Stream)
    requires
        written(s, f),
    ensures
        written(given_up(s), f),
{
    reveal(given_up);
    let t = given_up(s);
    assert forall|k: int| 0 <= k < t.tx.len() implies ours(t, #[trigger] t.tx[k], f) by {
        assert(ours(s, s.tx[k], f));
    }
}

proof fn lemma_tick_rto_written(s: TcbView, f: Stream)
    requires
        written(s, f),
    ensures
        written(tick_rto(s), f),
{
    reveal(tick_rto);
    let t = collapse(count_timeout(s));
    assert(same_out(s, t)) by {
        reveal(count_timeout);
        reveal(collapse);
    }
    lemma_same_out(s, t, f);
    reveal(resend_handshake);
    lemma_send_syn_written(t, f);
    let u = retry_counted(t);
    assert(same_out(t, u)) by {
        reveal(retry_counted);
    }
    lemma_same_out(t, u, f);
    lemma_relisten_written(u, f);
    lemma_emit_synack_written(u, f);
    let v = emit_synack(u);
    lemma_syn_in_flight_out(v);
    lemma_same_out(v, syn_in_flight(v), f);
}

proof fn lemma_tick_persist_written(s: TcbView, f: Stream)
    requires
        sound(s),
        written(s, f),
    ensures
        written(tick_persist(s), f),
{
    reveal(tick_persist);
    assert(same_out(s, persist_backed_off(s))) by {
        reveal(persist_backed_off);
    }
    lemma_same_out(s, persist_backed_off(s), f);
    if unsent(s) > 0 {
        reveal(emit_window_probe);
        lemma_options_fit(s);
        let b = ring_bytes(s, flight(s) as int, 1);
        assert(f.agrees(s.snd_nxt, b)) by {
            assert(b[0] == s.send_ring[flight(s) as int]);
            assert(s.snd_nxt.wrapping_add(0) == s.snd_una.wrapping_add(flight(s)));
        }
        assert((0x10u8 | 0x08u8) & 0x01u8 == 0 && (0x10u8 | 0x08u8) & 0x02u8 == 0) by (bit_vector);
        lemma_emit_written(s, flags::ACK | flags::PSH, s.snd_nxt, s.rcv_nxt, data_opts(s), b, f);
        let t = emit(s, flags::ACK | flags::PSH, s.snd_nxt, s.rcv_nxt, data_opts(s), b);
        lemma_nxt_moved_out(t, 1);
        let u = nxt_moved(t, 1);
        let v = arm_rto_if_idle(u, u.snd_nxt);
        assert(same_out(t, persist_backed_off(v))) by {
            reveal(arm_rto_if_idle);
            reveal(arm_rto);
            reveal(persist_backed_off);
        }
        lemma_same_out(t, persist_backed_off(v), f);
    }
}

proof fn lemma_tick_limits_written(s: TcbView, f: Stream)
    requires
        written(s, f),
    ensures
        written(tick_user_timeout(tick_keepalive(s)), f),
{
    reveal(tick_keepalive);
    lemma_given_up_written(s, f);
    lemma_options_fit(s);
    assert(0x10u8 & 0x01u8 == 0 && 0x10u8 & 0x02u8 == 0) by (bit_vector);
    let p = s.snd_nxt.wrapping_sub(1);
    lemma_bare_written(s, flags::ACK, p, s.rcv_nxt, data_opts(s), f);
    let e = emit(s, flags::ACK, p, s.rcv_nxt, data_opts(s), Seq::empty());
    reveal(keepalive_counted);
    lemma_same_out(e, keepalive_counted(e), f);
    let t = tick_keepalive(s);
    assert(written(t, f));
    reveal(tick_user_timeout);
    lemma_given_up_written(t, f);
    assert(forall|d: Option<u64>| same_out(t, #[trigger] user_timer_set(t, d))) by {
        reveal(user_timer_set);
    }
    let u = tick_user_timeout(t);
    if u != given_up(t) {
        assert(same_out(t, u));
        lemma_same_out(t, u, f);
    }
}

/// The timers leave the written stream in order, and what they send carries it.
pub proof fn law_tick_keeps_written(s: TcbView, f: Stream)
    requires
        sound(s),
        handshake_has_room(s),
        written(s, f),
    ensures
        written(ticked(s), f),
{
    let a = tick_time_wait(s);
    assert(sound(a) && written(a, f) && handshake_has_room(a)) by {
        reveal(tick_time_wait);
        lemma_state_out(s, a, f);
    }
    if rto_gives_up(a) {
        let b = count_timeout(a);
        assert(same_out(a, b)) by {
            reveal(count_timeout);
        }
        lemma_same_out(a, b, f);
        lemma_given_up_written(b, f);
    } else {
        lemma_tick_timers_sound(a);
        reveal(tick_timers);
        lemma_tick_rto_sound(a);
        lemma_tick_rto_written(a, f);
        let b = tick_rto(a);
        lemma_tick_rack_sound(b);
        let c = tick_rack(b);
        assert(written(c, f)) by {
            reveal(tick_rack);
            reveal(rack_disarmed);
            lemma_rack_scan_out(rack_disarmed(b));
            lemma_same_out(b, c, f);
        }
        lemma_tick_tlp_sound(c);
        let d = tick_tlp(c);
        assert(written(d, f)) by {
            reveal(tick_tlp);
            if due(c, c.tlp_deadline) {
                lemma_fire_tlp_written(c, f);
            }
        }
        lemma_tick_persist_sound(d);
        lemma_tick_persist_written(d, f);
        let e = tick_persist(d);
        lemma_tick_limits_written(e, f);
        let t = tick_timers(a);
        lemma_send_data_written(t, f);
        reveal(tick_ack);
        lemma_pure_ack_written(send_data(t), f);
    }
}

/// A write appends to the stream: what was taken of `data` is the part of it behind
/// what was written before.
pub proof fn law_write_extends_the_stream(s: TcbView, data: Seq<u8>, f: Stream)
    requires
        sound(s),
        written(s, f),
        app_send(s, data).1 matches Ok(n) ==> f.agrees(tail(s), data.take(n)),
    ensures
        written(app_send(s, data).0, f),
        app_send(s, data).1 matches Ok(n) ==> tail(app_send(s, data).0) == tail(s).wrapping_add(
            n as u32,
        ),
{
    let (t, r) = app_send(s, data);
    if let Ok(n) = r {
        reveal(data_buffered);
        assert forall|i: int| 0 <= i < t.send_ring.len() implies (f.byte)(
            t.snd_una.wrapping_add(i as u32),
        ) == Some(#[trigger] t.send_ring[i]) by {
            if i < s.send_ring.len() {
                assert(t.send_ring[i] == s.send_ring[i]);
            } else {
                let j = i - s.send_ring.len();
                assert(t.send_ring[i] == data.take(n)[j]);
                assert(t.snd_una.wrapping_add(i as u32) == tail(s).wrapping_add(j as u32));
            }
        }
        assert forall|k: int| 0 <= k < t.tx.len() implies ours(t, #[trigger] t.tx[k], f) by {
            assert(ours(s, s.tx[k], f));
        }
    }
}

/// A graceful close ends the stream behind what has been written.
pub proof fn law_close_ends_the_stream(s: TcbView, f: Stream)
    requires
        sound(s),
        written(s, f),
        s.state is Established || s.state is CloseWait ==> tail(s) == f.end,
        !(s.state is SynRcvd),
    ensures
        written(closed(s), f),
{
    reveal(in_state);
    reveal(unlistened);
    if s.state is Established || s.state is CloseWait {
        let t = in_state(
            s,
            if s.state is CloseWait {
                State::LastAck
            } else {
                State::FinWait1
            },
        );
        assert forall|k: int| 0 <= k < t.tx.len() implies ours(t, #[trigger] t.tx[k], f) by {
            assert(ours(s, s.tx[k], f));
        }
        assert(sound(t));
        lemma_send_data_written(t, f);
    } else if s.state is SynSent || s.state is Listen {
        lemma_state_out(s, closed(s), f);
    }
}

/// Opening a connection stages our SYN and nothing of the stream.
pub proof fn law_connect_keeps_written(s: TcbView, f: Stream)
    requires
        sound(s),
        untouched(s),
        written(s, f),
        s.tx.len() == 0,
    ensures
        written(connected(s), f),
{
    reveal(opening);
    let t = opening(s);
    lemma_blank_written(t, f);
    lemma_send_syn_written(t, f);
}

/// A passive open starts from nothing.
pub proof fn law_listen_keeps_written(s: TcbView, f: Stream)
    requires
        written(s, f),
    ensures
        written(listening(s), f),
{
    reveal(in_state);
    reveal(open_to_all);
    lemma_reset_blank(open_to_all(s));
    lemma_blank_written(listening(s), f);
}

/// Tearing a connection down drops what it has written, and tells the peer so.
pub proof fn law_abort_keeps_written(s: TcbView, f: Stream)
    requires
        written(s, f),
    ensures
        written(aborted(s), f),
{
    if s.state is Listen || s.state is SynSent {
        reveal(unlistened);
        let a = unlistened(s);
        reveal(torn_down);
        assert forall|k: int| 0 <= k < a.tx.len() implies ours(
            torn_down(a),
            #[trigger] a.tx[k],
            f,
        ) by {
            assert(ours(s, s.tx[k], f));
        }
    } else if !(s.state is Closed) {
        let bits = flags::RST | flags::ACK;
        assert((0x04u8 | 0x10u8) & 0x01u8 == 0 && (0x04u8 | 0x10u8) & 0x02u8 == 0) by (bit_vector);
        lemma_options_fit(s);
        lemma_bare_written(s, bits, s.snd_nxt, s.rcv_nxt, no_options(), f);
        let a = emit(s, bits, s.snd_nxt, s.rcv_nxt, no_options(), Seq::empty());
        reveal(torn_down);
        assert forall|k: int| 0 <= k < a.tx.len() implies ours(
            torn_down(a),
            #[trigger] a.tx[k],
            f,
        ) by {
            assert(ours(a, a.tx[k], f));
        }
    }
}

/// Reading leaves what was written alone.
pub proof fn law_recv_keeps_written(s: TcbView, room: int, f: Stream)
    requires
        written(s, f),
    ensures
        written(app_recv(s, room).0, f),
{
    let n = app_recv_len(s, room);
    reveal(data_read);
    let a = data_read(s, n);
    lemma_drain_send(a);
    lemma_drain_send(drain(a));
    lemma_same_out(s, app_recv(s, room).0, f);
}

/// A new connection has written nothing.
pub proof fn law_new_keeps_written(
    cap: usize,
    local: EndpointView,
    remote: EndpointView,
    iss: u32,
    initial_rto_ms: u32,
    f: Stream,
)
    requires
        local.ip.len() == 4,
        remote.ip.len() == 4,
        f.syn matches Some(x) ==> iss == x,
    ensures
        written(created(cap, local, remote, iss, initial_rto_ms), f),
{
    lemma_blank_written(created(cap, local, remote, iss, initial_rto_ms), f);
}

/// Taking the packet that waits first leaves the written stream in order.
pub proof fn law_extract_keeps_written(s: TcbView, f: Stream)
    requires
        written(s, f),
        s.tx.len() > 0,
    ensures
        written(TcbView { tx: s.tx.skip(1), ..s }, f),
{
    let t = TcbView { tx: s.tx.skip(1), ..s };
    assert forall|k: int| 0 <= k < t.tx.len() implies ours(t, #[trigger] t.tx[k], f) by {
        assert(t.tx[k] == s.tx[k + 1]);
        assert(ours(s, s.tx[k + 1], f));
    }
}

/// Every packet that waits for the host parses, and goes from our side to the peer, if
/// there is one.
pub proof fn law_packets_go_to_the_peer(s: TcbView, k: int, f: Stream)
    requires
        written(s, f),
        0 <= k < s.tx.len(),
    ensures
        parse_packet(s.tx[k]) matches Some(g) && g.src_ip == s.local.ip && g.src_port
            == s.local.port && (has_peer(s.state) ==> g.dst_ip == s.remote.ip && g.dst_port
            == s.remote.port),
{
    assert(ours(s, s.tx[k], f));
}

/// From end to end: whichever of the packets that the writer has staged reaches the
/// reader, and however often, what waits for the reader's application is what the
/// writer's application has written, in order and without a gap.
pub proof fn law_written_stream_arrives(writer: TcbView, reader: TcbView, k: int, f: Stream)
    requires
        written(writer, f),
        0 <= k < writer.tx.len(),
        sound(reader),
        intact(reader, f),
    ensures
        intact(injected(reader, writer.tx[k]).0, f),
{
    assert(ours(writer, writer.tx[k], f));
    law_inbound_keeps_the_stream(reader, writer.tx[k], f);
}

} // verus!
