//! A connection changes its state only along the edges of the state diagram.

use crate::state::{legal_step, synchronized, State};
use crate::tcb::laws::acking::{fin_step, lemma_take_ack_sound};
use crate::tcb::laws::frame::{lemma_emit, lemma_pure_ack, lemma_send_data};
use crate::tcb::laws::segments::{
    lemma_answer_send, lemma_emit_synack_send, lemma_from_cookie_sound, lemma_handshake_done_sound,
    lemma_relisten_sound, lemma_syn_accepted_sound, lemma_synack_accepted_sound,
    lemma_take_payload_send, peer_fin_step,
};
use crate::tcb::laws::soundness::sound;
use crate::tcb::laws::timers::{
    handshake_has_room, lemma_tick_keepalive_sound, lemma_tick_persist_sound,
    lemma_tick_rack_sound, lemma_tick_rto_sound, lemma_tick_tlp_sound,
    lemma_tick_user_timeout_sound,
};
use crate::tcb::model::{
    aborted, accept, answer, arm_rto, bump_max, closed, connected, count_timeout, emit_cookie,
    fin_received, for_us, from_cookie, given_up, handshake_done, in_state, injected, listening,
    note_marks, on_listen, on_reset, on_segment, on_syn_rcvd, on_syn_sent, on_synchronised, opening,
    peer_alive, refuse, reset_by_peer, reset_reply, rto_gives_up, send_data, send_syn, syn_counted,
    syn_in_flight, syn_opts, take_ack, take_fin, take_payload, tick_ack, tick_keepalive,
    tick_persist, tick_rack, tick_rto, tick_time_wait, tick_timers, tick_tlp, tick_user_timeout,
    ticked, torn_down, unlistened, TcbView,
};
use crate::wire::options::no_options;
use crate::wire::{flags, parse_packet, SegmentView};
use vstd::prelude::*;

verus! {

/// `next` comes from `prev` by our acknowledged FIN, by the peer's FIN if the segment
/// has one, by both, or by neither.
pub open spec fn fin_reach(prev: State, next: State, fin: bool) -> bool {
    ||| next == prev
    ||| next == fin_step(prev)
    ||| fin && next == peer_fin_step(prev)
    ||| fin && next == peer_fin_step(fin_step(prev))
}

proof fn lemma_accept_state(s: TcbView, g: SegmentView)
    requires
        sound(s),
        synchronized(s.state),
    ensures
        fin_reach(s.state, accept(s, g).state, g.has(flags::FIN)),
{
    reveal(accept);
    let a = if g.has(flags::ACK) {
        take_ack(s, g)
    } else {
        s
    };
    assert(a.state == s.state || a.state == fin_step(s.state)) by {
        lemma_take_ack_sound(s, g);
    }
    let (b, filled) = take_payload(a, g);
    assert(b.state == a.state) by {
        lemma_take_payload_send(a, g);
    }
    let c = take_fin(b, g);
    assert(c.state == b.state || c.state == peer_fin_step(b.state) && g.has(flags::FIN)) by {
        reveal(take_fin);
        reveal(fin_received);
    }
    let d = answer(c, g, c.rcv_nxt != s.rcv_nxt, filled);
    assert(d.state == c.state) by {
        lemma_answer_send(c, g, c.rcv_nxt != s.rcv_nxt, filled);
    }
    assert(send_data(d).state == d.state) by {
        lemma_send_data(d);
    }
}

/// A segment takes a synchronised connection over the edges of our acknowledged FIN
/// and of the peer's FIN, and over no other.
pub proof fn lemma_on_synchronised_state(s: TcbView, g: SegmentView)
    requires
        sound(s),
        synchronized(s.state),
    ensures
        fin_reach(s.state, on_synchronised(s, g).state, g.has(flags::FIN)),
{
    reveal(on_synchronised);
    let t = note_marks(s, g);
    assert(sound(t) && t.state == s.state) by {
        reveal(note_marks);
    }
    lemma_accept_state(t, g);
    lemma_take_ack_sound(t, g);
    reveal(refuse);
    lemma_pure_ack(t);
    lemma_pure_ack(take_ack(t, g));
}

/// The datagram holds a segment with a FIN.
pub open spec fn has_fin(b: Seq<u8>) -> bool {
    parse_packet(b) matches Some(g) && g.has(flags::FIN)
}

/// An acknowledgement takes `prev` over two or three edges at once: it completes a
/// handshake and carries the peer's FIN, or it returns a cookie (`cookies`), alone or
/// with the FIN.
pub open spec fn legal_leap(prev: State, next: State, cookies: bool, fin: bool) -> bool {
    ||| prev is SynRcvd && fin && next is CloseWait
    ||| prev is Listen && cookies && next is Established
    ||| prev is Listen && cookies && fin && next is CloseWait
}

/// An inbound datagram takes a connection along an edge of the state diagram, or with
/// one [`legal_leap`] from the handshake to what it leads to.
pub proof fn law_inbound_steps_are_legal(s: TcbView, b: Seq<u8>)
    requires
        sound(s),
    ensures
        legal_step(s.state, injected(s, b).0.state) || legal_leap(
            s.state,
            injected(s, b).0.state,
            s.cookie_secret_set,
            has_fin(b),
        ),
{
    if let Some(g) = parse_packet(b) {
        if for_us(s, g) {
            reveal(on_segment);
            reveal(peer_alive);
            lemma_emit(s, flags::RST, g.ack, 0, no_options(), Seq::empty());
            lemma_emit(s, flags::RST, 0, g.seq.wrapping_add(1), no_options(), Seq::empty());
            reveal(reset_reply);
            if g.has(flags::RST) {
                reveal(on_reset);
                lemma_relisten_sound(s);
                reveal(reset_by_peer);
            } else if s.state is Listen {
                reveal(on_listen);
                lemma_syn_accepted_sound(s, g);
                reveal(emit_cookie);
                lemma_from_cookie_sound(s, g);
                lemma_on_synchronised_state(from_cookie(s, g), g);
            } else if s.state is SynSent {
                reveal(on_syn_sent);
                if g.ack == s.snd_nxt {
                    lemma_synack_accepted_sound(s, g);
                }
            } else if s.state is SynRcvd {
                reveal(on_syn_rcvd);
                lemma_emit_synack_send(s);
                if g.ack == s.iss.wrapping_add(1) {
                    lemma_handshake_done_sound(s, g);
                    lemma_on_synchronised_state(handshake_done(s, g), g);
                }
            } else if synchronized(s.state) {
                lemma_on_synchronised_state(s, g);
            }
        }
    }
}

/// The timers take a connection along the edges of the state diagram: it stays as it is,
/// it ends, or a half-open one gives its place back.
pub proof fn law_tick_steps_are_legal(s: TcbView)
    requires
        sound(s),
        handshake_has_room(s),
    ensures
        legal_step(s.state, ticked(s).state),
        ticked(s).state == s.state || ticked(s).state is Closed || s.state is SynRcvd && ticked(
            s,
        ).state is Listen,
{
    let a = tick_time_wait(s);
    assert(sound(a) && handshake_has_room(a) && (a.state == s.state || s.state is TimeWait
        && a.state is Closed)) by {
        reveal(tick_time_wait);
    }
    assert(given_up(count_timeout(a)).state is Closed) by {
        reveal(given_up);
    }
    if rto_gives_up(a) {
        assert(!(a.state is Listen));
    } else {
        reveal(tick_timers);
        lemma_tick_rto_sound(a);
        let b = tick_rto(a);
        lemma_tick_rack_sound(b);
        let c = tick_rack(b);
        lemma_tick_tlp_sound(c);
        let d = tick_tlp(c);
        lemma_tick_persist_sound(d);
        let e = tick_persist(d);
        lemma_tick_keepalive_sound(e);
        let f = tick_keepalive(e);
        lemma_tick_user_timeout_sound(f);
        let g = tick_user_timeout(f);
        lemma_send_data(g);
        reveal(tick_ack);
        lemma_pure_ack(send_data(g));
    }
}

/// The application's calls take a connection along the edges of the state diagram.
/// Left out is the passive open of a connection in TIME_WAIT, which gives its place
/// to a new connection.
pub proof fn law_calls_are_legal(s: TcbView)
    ensures
        legal_step(s.state, closed(s).state),
        legal_step(s.state, aborted(s).state),
        s.state is Closed ==> legal_step(s.state, connected(s).state),
        s.state is Closed || s.state is Listen ==> legal_step(s.state, listening(s).state),
{
    reveal(in_state);
    reveal(unlistened);
    lemma_send_data(in_state(s, State::FinWait1));
    lemma_send_data(in_state(s, State::LastAck));
    reveal(torn_down);
    let o = opening(s);
    let bits = flags::SYN | flags::ECE | flags::CWR;
    lemma_emit(o, bits, o.iss, 0, syn_opts(o), Seq::empty());
    assert(connected(s).state is SynSent) by {
        reveal(opening);
        reveal(send_syn);
        reveal(syn_in_flight);
        reveal(syn_counted);
        reveal(bump_max);
        reveal(arm_rto);
    }
}

} // verus!
