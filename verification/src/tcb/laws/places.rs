//! Where a connection is in its own stream and in its peer's, counted from the SYNs.

use crate::state::{synchronized, State};
use crate::tcb::laws::acking::lemma_take_ack_sound;
use crate::tcb::laws::frame::{
    lemma_emit, lemma_fire_tlp, lemma_pure_ack, lemma_rack_scan, lemma_send_data,
};
use crate::tcb::laws::inbound::{
    has_heard, law_close_keeps_the_stream, law_inbound_keeps_the_stream,
    law_tick_keeps_the_stream,
};
use crate::tcb::laws::outbound::{tail, written};
use crate::tcb::laws::progress::{lemma_tick_limits_only, lemma_tick_persist_only};
use crate::tcb::laws::segments::{
    lemma_answer_send, lemma_emit_synack_send, lemma_handshake_done_sound,
    lemma_take_payload_send,
};
use crate::tcb::laws::sending::lemma_pure_ack_send;
use crate::tcb::laws::soundness::{outstanding, sound};
use crate::tcb::laws::stream::{
    head, intact, lemma_on_synchronised_agrees, nothing_in, same_recv, Stream,
};
use crate::tcb::laws::timers::handshake_has_room;
use crate::tcb::laws::transitions::{
    law_inbound_steps_are_legal, law_tick_steps_are_legal, lemma_on_synchronised_state,
};
use crate::tcb::model::{
    accept, agreed, answer, arm_rto, bump_max, closed, collapse, count_timeout, fin_received,
    for_us, given_up, half_open, handshake_done, in_state, injected, note_marks, on_listen,
    on_reset, on_segment, on_syn_rcvd, on_syn_sent, on_synchronised, peer_alive,
    persist_backed_off, pinned, probe_dropped, rack_disarmed, refuse, relisten,
    resend_handshake, reset, reset_by_peer, reset_reply, rto_gives_up, rto_stopped,
    rtt_from_echo, rtt_from_probe, rtt_sample, send_data, send_syn, syn_accepted, syn_acked,
    syn_counted, syn_in_flight, syn_opts, synack_accepted, take_ack, take_fin, take_offer,
    take_payload, take_syn, take_synack_options, tick_ack, tick_keepalive, tick_persist,
    tick_rack, tick_rto, tick_time_wait, tick_timers, tick_tlp, tick_user_timeout, ticked,
    ts_agreed, unlistened, unpinned, user_timer_set, window_updated, TcbView,
};
use crate::wire::options::no_options;
use crate::wire::{flags, parse_packet, SegmentView};
use vstd::prelude::*;

verus! {

/// The application may write.
pub open spec fn writable(st: State) -> bool {
    st is Established || st is CloseWait
}

/// Something of the peer's may be read, now or later.
pub open spec fn readable(s: TcbView) -> bool {
    synchronized(s.state) || s.state is Closed && s.recv_ring.len() > 0
}

/// The connection, whose SYN is at `x` and whose peer's SYN is at `y`, has taken `put`
/// bytes from its application and handed it `got`.
pub open spec fn placed(s: TcbView, x: u32, y: u32, put: u32, got: u32) -> bool {
    &&& s.state is SynSent ==> outstanding(s) == 1
    &&& s.state is SynRcvd ==> s.rcv_nxt == y.wrapping_add(1)
    &&& !has_heard(s.state) ==> put == 0 && got == 0
    &&& writable(s.state) ==> tail(s) == x.wrapping_add(1).wrapping_add(put)
    &&& readable(s) && s.error is None ==> head(s) == y.wrapping_add(1).wrapping_add(got)
}

/// An acknowledgement takes from the front what it covers, and the end stays.
proof fn lemma_on_synchronised_tail(s: TcbView, g: SegmentView)
    requires
        sound(s),
        writable(s.state),
    ensures
        tail(on_synchronised(s, g)) == tail(s),
{
    reveal(on_synchronised);
    let t = note_marks(s, g);
    assert(sound(t) && t.state == s.state && tail(t) == tail(s) && !t.fin_sent) by {
        reveal(note_marks);
    }
    let k = take_ack(t, g);
    assert(tail(k) == tail(t)) by {
        lemma_take_ack_sound(t, g);
        if k.snd_una != t.snd_una {
            let n = g.ack.wrapping_sub(t.snd_una);
            assert(k.send_ring.len() == t.send_ring.len() - n);
        }
    }
    let a = if g.has(flags::ACK) {
        k
    } else {
        t
    };
    assert(tail(refuse(t, g)) == tail(t)) by {
        reveal(refuse);
        lemma_pure_ack(t);
        lemma_pure_ack(k);
    }
    let (p, filled) = take_payload(a, g);
    assert(tail(p) == tail(a)) by {
        lemma_take_payload_send(a, g);
    }
    let c = take_fin(p, g);
    assert(tail(c) == tail(p)) by {
        reveal(take_fin);
        reveal(fin_received);
    }
    let advanced = c.rcv_nxt != t.rcv_nxt;
    let d = answer(c, g, advanced, filled);
    assert(tail(d) == tail(c)) by {
        lemma_answer_send(c, g, advanced, filled);
    }
    assert(tail(send_data(d)) == tail(d)) by {
        lemma_send_data(d);
    }
    assert(tail(accept(t, g)) == tail(t)) by {
        reveal(accept);
    }
}

proof fn lemma_synack_accepted_placed(s: TcbView, g: SegmentView, x: u32, y: u32)
    requires
        sound(s),
        s.state is SynSent,
        outstanding(s) == 1,
        nothing_in(s),
        s.iss == x,
        g.ack == s.snd_nxt,
        g.seq == y,
    ensures
        placed(synack_accepted(s, g), x, y, 0, 0),
{
    reveal(synack_accepted);
    let a = syn_acked(take_offer(s, g), g.ack);
    let b = take_synack_options(a, g);
    let c = rtt_from_probe(b, g.ack);
    let d = in_state(rto_stopped(c), State::Established);
    assert(d.snd_una == g.ack && d.send_ring == s.send_ring && d.rcv_nxt == g.seq.wrapping_add(1)
        && d.recv_ring == s.recv_ring && d.state is Established) by {
        reveal(take_offer);
        reveal(syn_acked);
        reveal(take_synack_options);
        reveal(ts_agreed);
        reveal(rtt_from_echo);
        reveal(rtt_sample);
        reveal(agreed);
        reveal(rtt_from_probe);
        reveal(probe_dropped);
        reveal(rto_stopped);
        reveal(in_state);
    }
    lemma_pure_ack(d);
}

proof fn lemma_syn_accepted_place(s: TcbView, g: SegmentView)
    ensures
        syn_accepted(s, g).state is SynRcvd,
        syn_accepted(s, g).rcv_nxt == g.seq.wrapping_add(1),
{
    reveal(syn_accepted);
    let b = take_syn(reset(s), g);
    assert(b.rcv_nxt == g.seq.wrapping_add(1)) by {
        reveal(take_syn);
        reveal(pinned);
        reveal(take_offer);
        reveal(ts_agreed);
        reveal(agreed);
        reveal(window_updated);
    }
    lemma_emit_synack_send(b);
    reveal(half_open);
    reveal(syn_in_flight);
    reveal(syn_counted);
    reveal(bump_max);
    reveal(arm_rto);
}

/// The places of a connection after a segment in a handshake.
proof fn lemma_handshake_placed(s: TcbView, g: SegmentView, f: Stream, h: Stream, x: u32, y: u32)
    requires
        sound(s),
        written(s, f),
        intact(s, h),
        f.syn == Some(x),
        h.syn == Some(y),
        h.carries(g),
        g.payload.len() <= 0xFFFF,
        s.state is Listen || s.state is SynSent || s.state is SynRcvd,
        !g.has(flags::RST),
        placed(s, x, y, 0, 0),
    ensures
        placed(on_segment(s, g).0, x, y, 0, 0),
{
    reveal(on_segment);
    lemma_emit(s, flags::RST, g.ack, 0, no_options(), Seq::empty());
    lemma_emit(s, flags::RST, 0, g.seq.wrapping_add(1), no_options(), Seq::empty());
    reveal(reset_reply);
    assert(forall|q: u32, a: u32| outstanding(#[trigger] reset_reply(s, q, a)) == outstanding(s))
        by {
        reveal(crate::tcb::model::emit);
    }
    if s.state is Listen {
        reveal(on_listen);
        lemma_syn_accepted_place(s, g);
    } else if s.state is SynSent {
        reveal(on_syn_sent);
        if g.has(flags::SYN) && g.has(flags::ACK) && g.ack == s.snd_nxt {
            lemma_synack_accepted_placed(s, g, x, y);
        }
    } else {
        reveal(on_syn_rcvd);
        lemma_emit_synack_send(s);
        if g.ack == s.iss.wrapping_add(1) {
            lemma_handshake_done_sound(s, g);
            let t = handshake_done(s, g);
            assert(same_recv(s, t) && t.state is Established && t.snd_una == g.ack && t.send_ring
                == s.send_ring) by {
                reveal(handshake_done);
            }
            crate::tcb::laws::inbound::lemma_nothing_in(t, h);
            lemma_on_synchronised_agrees(t, g, h);
            lemma_on_synchronised_tail(t, g);
            lemma_on_synchronised_state(t, g);
        }
    }
}

/// A datagram leaves a connection in its place.
pub proof fn lemma_arrival_placed(
    s: TcbView,
    b: Seq<u8>,
    f: Stream,
    h: Stream,
    put: u32,
    got: u32,
)
    requires
        sound(s),
        written(s, f),
        intact(s, h),
        f.syn is Some,
        h.syn is Some,
        h.carried_by(b),
        placed(s, f.syn->0, h.syn->0, put, got),
    ensures
        placed(injected(s, b).0, f.syn->0, h.syn->0, put, got),
{
    let x = f.syn->0;
    let y = h.syn->0;
    let t = injected(s, b).0;
    if let Some(g) = parse_packet(b) {
        if for_us(s, g) {
            let u = on_segment(s, g).0;
            assert(t.state == u.state && t.error == u.error && t.rcv_nxt == u.rcv_nxt && t.recv_ring
                == u.recv_ring && t.snd_una == u.snd_una && t.send_ring == u.send_ring && t.snd_max
                == u.snd_max) by {
                reveal(peer_alive);
            }
            if g.has(flags::RST) {
                reveal(on_segment);
                reveal(on_reset);
                reveal(reset_by_peer);
                reveal(relisten);
                reveal(unpinned);
                reveal(reset);
            } else if s.state is Listen || s.state is SynSent || s.state is SynRcvd {
                lemma_handshake_placed(s, g, f, h, x, y);
            } else if s.state is Closed {
                reveal(on_segment);
            } else {
                law_inbound_keeps_the_stream(s, b, h);
                law_inbound_steps_are_legal(s, b);
                if writable(t.state) {
                    reveal(on_segment);
                    lemma_on_synchronised_tail(s, g);
                }
            }
        }
    }
}

/// The timers of a connection in a handshake.
proof fn lemma_handshake_tick_placed(s: TcbView, h: Stream, y: u32)
    requires
        sound(s),
        handshake_has_room(s),
        intact(s, h),
        s.state is SynSent || s.state is SynRcvd,
    ensures
        s.state is SynSent && outstanding(s) == 1 && ticked(s).state is SynSent ==> outstanding(
            ticked(s),
        ) == 1,
{
    let a = tick_time_wait(s);
    assert(a == s) by {
        reveal(tick_time_wait);
    }
    if rto_gives_up(a) {
        reveal(given_up);
    } else if s.state is SynSent && outstanding(s) == 1 {
        let b = tick_rto(a);
        assert(b.state is SynSent && outstanding(b) == 1 && b.rack_deadline is None
            && b.tlp_deadline is None && b.send_ring.len() == 0) by {
            reveal(tick_rto);
            reveal(count_timeout);
            reveal(collapse);
            reveal(resend_handshake);
            reveal(send_syn);
            let t = collapse(count_timeout(a));
            let bits = flags::SYN | flags::ECE | flags::CWR;
            lemma_emit(t, bits, t.iss, 0, syn_opts(t), Seq::empty());
            reveal(crate::tcb::model::emit);
            reveal(syn_in_flight);
            reveal(syn_counted);
            reveal(bump_max);
            reveal(arm_rto);
        }
        let c = tick_persist(tick_tlp(tick_rack(b)));
        assert(outstanding(c) == outstanding(b) && c.state == b.state) by {
            reveal(tick_rack);
            reveal(tick_tlp);
            reveal(tick_persist);
            reveal(persist_backed_off);
        }
        let d = tick_timers(a);
        assert(d == tick_user_timeout(tick_keepalive(c))) by {
            reveal(tick_timers);
        }
        assert(outstanding(d) == outstanding(c) && d.state == c.state || d.state is Closed) by {
            reveal(tick_keepalive);
            reveal(tick_user_timeout);
            reveal(user_timer_set);
            reveal(given_up);
        }
        reveal(send_data);
        reveal(tick_ack);
        lemma_pure_ack_send(d);
        lemma_pure_ack_send(send_data(d));
    }
}

/// Driving the timers leaves what is written where it is.
proof fn lemma_tick_tail(s: TcbView)
    requires
        sound(s),
        writable(s.state),
        ticked(s).state == s.state,
    ensures
        tail(ticked(s)) == tail(s),
{
    let a = tick_time_wait(s);
    assert(a.state == s.state && tail(a) == tail(s)) by {
        reveal(tick_time_wait);
    }
    if rto_gives_up(a) {
        reveal(given_up);
    } else {
        let b = tick_rto(a);
        assert(b.state == a.state && tail(b) == tail(a)) by {
            reveal(tick_rto);
            reveal(count_timeout);
            reveal(collapse);
            reveal(resend_handshake);
        }
        let c = tick_rack(b);
        assert(c.state == b.state && tail(c) == tail(b)) by {
            reveal(tick_rack);
            reveal(rack_disarmed);
            lemma_rack_scan(rack_disarmed(b));
        }
        let d = tick_tlp(c);
        assert(d.state == c.state && tail(d) == tail(c)) by {
            reveal(tick_tlp);
            lemma_fire_tlp(c);
        }
        let e = tick_persist(d);
        assert(e.state == d.state && tail(e) == tail(d)) by {
            lemma_tick_persist_only(d);
        }
        let k = tick_timers(a);
        assert(k == tick_user_timeout(tick_keepalive(e))) by {
            reveal(tick_timers);
        }
        lemma_tick_limits_only(e);
        lemma_send_data(k);
        lemma_pure_ack(send_data(k));
        reveal(tick_ack);
    }
}

/// A closed connection stays closed when the timers are driven, and a failed one stays
/// failed.
pub proof fn lemma_closed_ticks_closed(s: TcbView)
    requires
        s.state is Closed,
    ensures
        ticked(s).state is Closed,
        s.error is Some ==> ticked(s).error is Some,
{
    let a = tick_time_wait(s);
    assert(a.state is Closed && a.error == s.error) by {
        reveal(tick_time_wait);
    }
    if rto_gives_up(a) {
        reveal(given_up);
    } else {
        reveal(tick_timers);
        let b = tick_rto(a);
        assert(b.state is Closed && b.error == s.error) by {
            reveal(tick_rto);
            reveal(count_timeout);
            reveal(collapse);
            reveal(resend_handshake);
        }
        reveal(tick_rack);
        reveal(rack_disarmed);
        lemma_rack_scan(rack_disarmed(b));
        let c = tick_rack(b);
        reveal(tick_tlp);
        lemma_fire_tlp(c);
        let d = tick_tlp(c);
        lemma_tick_persist_only(d);
        reveal(tick_keepalive);
        reveal(tick_user_timeout);
        reveal(user_timer_set);
        reveal(given_up);
    }
}

/// The timers leave a connection in its place.
pub proof fn lemma_tick_placed(s: TcbView, h: Stream, x: u32, y: u32, put: u32, got: u32)
    requires
        sound(s),
        handshake_has_room(s),
        intact(s, h),
        placed(s, x, y, put, got),
    ensures
        placed(ticked(s), x, y, put, got),
{
    law_tick_steps_are_legal(s);
    law_tick_keeps_the_stream(s, h);
    let t = ticked(s);
    if s.state is Closed {
        lemma_closed_ticks_closed(s);
    }
    if s.state is SynSent || s.state is SynRcvd {
        lemma_handshake_tick_placed(s, h, y);
    }
    if writable(s.state) && t.state == s.state {
        lemma_tick_tail(s);
    }
}

/// A graceful close leaves a connection in its place.
pub proof fn lemma_close_placed(s: TcbView, h: Stream, x: u32, y: u32, put: u32, got: u32)
    requires
        intact(s, h),
        placed(s, x, y, put, got),
        !(s.state is SynRcvd),
    ensures
        placed(closed(s), x, y, put, got),
{
    law_close_keeps_the_stream(s, h);
    crate::tcb::laws::closing::law_close_ends_each_state(s);
    if s.state is SynSent || s.state is Listen {
        reveal(unlistened);
        reveal(in_state);
    }
}

} // verus!
