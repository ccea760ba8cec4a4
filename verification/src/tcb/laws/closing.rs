//! How a connection ends.

use crate::error::TcpError;
use crate::state::State;
use crate::tcb::laws::frame::lemma_send_data;
use crate::tcb::laws::outbound::lemma_options_fit;
use crate::tcb::laws::soundness::sound;
use crate::tcb::model::{
    aborted, ack_sent, arm_persist, arm_rto, arm_rto_if_idle, bump_max, closed, count_timeout,
    data_opts, datagram_out, due, emit, emit_fin, feedback, fin_due, fin_placed, given_up, in_state,
    injected, is_idle, listening, nxt_moved, on_reset, on_segment, open_to_all, peer_alive, reset,
    reset_by_peer, rto_kept, segment_out, send_data, send_fresh, send_lost, send_one, send_recovery,
    send_some, sendable, tick_keepalive, tick_persist, tick_rack, tick_rto, tick_time_wait,
    tick_timers, tick_tlp, tick_user_timeout, ticked, torn_down, tx_full, unlistened, unsent,
    user_timer_set, TcbView,
};
use crate::tcb::MAX_RETRANSMITS;
use crate::wire::{flags, law_emit_then_parse_round_trip, packet, parse_packet};
use crate::wire::options::no_options;
use vstd::prelude::*;

verus! {

/// Closing twice is closing once.
pub proof fn law_close_is_idempotent(s: TcbView)
    ensures
        closed(closed(s)) == closed(s),
{
    reveal(in_state);
    reveal(unlistened);
    lemma_send_data(in_state(s, State::FinWait1));
    lemma_send_data(in_state(s, State::LastAck));
}

/// The state that a graceful close leads to.
pub open spec fn closing_state(st: State) -> State {
    match st {
        State::Established | State::SynRcvd => State::FinWait1,
        State::CloseWait => State::LastAck,
        State::SynSent | State::Listen => State::Closed,
        _ => st,
    }
}

/// A graceful close leads to the state that ends the connection. Before there is a peer
/// it stages nothing, and on a connection that is closing or closed it has no effect.
pub proof fn law_close_ends_each_state(s: TcbView)
    ensures
        closed(s).state == closing_state(s.state),
        s.state is SynSent || s.state is Listen ==> closed(s).tx == s.tx,
        closing_state(s.state) == s.state ==> closed(s) == s,
{
    reveal(in_state);
    reveal(unlistened);
    lemma_send_data(in_state(s, State::FinWait1));
    lemma_send_data(in_state(s, State::LastAck));
}

/// A graceful close with nothing left to send stages exactly one packet, if there is
/// room for it: the FIN, at the next sequence number. Of a sound connection this holds
/// as it is; of any other, as long as it has sent no FIN before and does not repair a
/// loss.
pub proof fn law_close_stages_one_fin(s: TcbView)
    requires
        sound(s) || !s.fin_sent && !s.cc.in_recovery,
        s.state is Established || s.state is SynRcvd || s.state is CloseWait,
        s.send_ring.len() == 0,
        !tx_full(s),
    ensures
        ({
            let t = closed(s);
            &&& t.tx == s.tx.push(
                datagram_out(
                    s,
                    flags::FIN | flags::ACK,
                    s.snd_nxt,
                    s.rcv_nxt,
                    data_opts(s),
                    Seq::empty(),
                ),
            )
            &&& t.fin_sent
            &&& t.fin_seq == s.snd_nxt
            &&& t.snd_nxt == s.snd_nxt.wrapping_add(1)
        }),
{
    let t = in_state(s, closing_state(s.state));
    assert(t.tx == s.tx && t.snd_nxt == s.snd_nxt && t.rcv_nxt == s.rcv_nxt && t.send_ring
        == s.send_ring && !t.fin_sent && !t.cc.in_recovery && t.snd_una == s.snd_una && fin_due(t)
        && data_opts(t) == data_opts(s) && datagram_out(
        t,
        flags::FIN | flags::ACK,
        s.snd_nxt,
        s.rcv_nxt,
        data_opts(s),
        Seq::empty(),
    ) == datagram_out(
        s,
        flags::FIN | flags::ACK,
        s.snd_nxt,
        s.rcv_nxt,
        data_opts(s),
        Seq::empty(),
    )) by {
        reveal(in_state);
        reveal(data_opts);
        reveal(datagram_out);
        reveal(segment_out);
        reveal(feedback);
    }
    let u = emit_fin(t);
    assert(u.tx == s.tx.push(
        datagram_out(
            t,
            flags::FIN | flags::ACK,
            t.snd_nxt,
            t.rcv_nxt,
            data_opts(t),
            Seq::empty(),
        ),
    ) && u.fin_sent && u.fin_seq == s.snd_nxt && u.snd_nxt == s.snd_nxt.wrapping_add(1)
        && !u.cc.in_recovery && u.send_ring.len() == 0) by {
        reveal(emit_fin);
        reveal(emit);
        reveal(fin_placed);
        reveal(nxt_moved);
        reveal(bump_max);
        reveal(ack_sent);
        reveal(arm_rto_if_idle);
        reveal(arm_rto);
    }
    reveal(send_data);
    reveal_with_fuel(send_some, 3);
    reveal(send_one);
    reveal(send_lost);
    reveal(send_recovery);
    reveal(send_fresh);
    assert(send_one(t) == (u, true));
    reveal(arm_persist);
    reveal(rto_kept);
    reveal(sendable);
    assert(!fin_due(u) && unsent(u) == 0);
}

/// Tearing down twice is tearing down once.
pub proof fn law_abort_is_idempotent(s: TcbView)
    ensures
        aborted(aborted(s)) == aborted(s),
{
    reveal(torn_down);
}

/// A connection that is torn down is closed and empty, has failed, and has staged at
/// most a reset.
pub proof fn law_abort_empties(s: TcbView)
    ensures
        aborted(s).state is Closed,
        !(s.state is Closed) ==> {
            let t = aborted(s);
            &&& t.error == Some(TcpError::ConnectionReset)
            &&& t.send_ring.len() == 0
            &&& t.recv_ring.len() == 0
            &&& no_timer(t)
            &&& s.tx.len() <= t.tx.len() <= s.tx.len() + 1
        },
{
    reveal(torn_down);
    reveal(unlistened);
    reveal(emit);
}

/// No timer of the protocol runs.
pub open spec fn no_timer(s: TcbView) -> bool {
    &&& s.rto_deadline is None
    &&& s.time_wait_deadline is None
    &&& s.persist_deadline is None
    &&& s.ack_deadline is None
    &&& s.rack_deadline is None
    &&& s.tlp_deadline is None
}

/// A closed connection without timers stays closed and silent, whatever the clock
/// says.
pub proof fn law_closed_stays_silent(s: TcbView)
    requires
        s.state is Closed,
        no_timer(s),
    ensures
        ticked(s).state is Closed,
        ticked(s).tx == s.tx,
{
    reveal(tick_time_wait);
    reveal(tick_timers);
    reveal(tick_rto);
    reveal(tick_rack);
    reveal(tick_tlp);
    reveal(tick_persist);
    reveal(tick_keepalive);
    reveal(tick_user_timeout);
    reveal(user_timer_set);
    reveal(given_up);
}

/// A closed connection answers nothing, whatever arrives.
pub proof fn law_closed_answers_nothing(s: TcbView, b: Seq<u8>)
    requires
        s.state is Closed,
    ensures
        injected(s, b).0.state is Closed,
        injected(s, b).0.tx == s.tx,
{
    reveal(on_segment);
    reveal(on_reset);
    reveal(reset_by_peer);
    reveal(peer_alive);
}

/// Listening again forgets the connection, and doing so twice is doing so once.
pub proof fn law_listen_is_idempotent(s: TcbView)
    ensures
        listening(listening(s)) == listening(s),
{
    reveal(open_to_all);
    reveal(reset);
    reveal(in_state);
}

/// A peer that never answers is given up: after the last retransmission timeout in
/// a row the connection is closed and has failed, and the peer is not told.
pub proof fn law_silent_peer_is_given_up(s: TcbView)
    requires
        !(s.state is SynRcvd) && !(s.state is TimeWait),
        s.time_wait_deadline is None,
        s.rtx_count >= MAX_RETRANSMITS,
        due(s, s.rto_deadline),
    ensures
        ticked(s).state is Closed,
        ticked(s).error == Some(TcpError::ConnectionReset),
        ticked(s).tx == s.tx,
        no_timer(ticked(s)),
{
    reveal(tick_time_wait);
    reveal(count_timeout);
    reveal(given_up);
}

/// A peer that answers no keepalive probe is given up.
pub proof fn law_vanished_peer_is_given_up(s: TcbView)
    requires
        is_idle(s),
        no_timer(s),
        s.keepalive_idle_ms != 0,
        s.keepalive_probes >= s.keepalive_count,
        due(s, s.keepalive_deadline),
    ensures
        ticked(s).state is Closed,
        ticked(s).error == Some(TcpError::ConnectionReset),
        ticked(s).tx == s.tx,
{
    reveal(tick_time_wait);
    reveal(tick_timers);
    reveal(tick_rto);
    reveal(tick_rack);
    reveal(tick_tlp);
    reveal(tick_persist);
    reveal(tick_keepalive);
    reveal(tick_user_timeout);
    reveal(user_timer_set);
    reveal(given_up);
}

/// An abort tells a peer that knows of the connection: with a reset, at the next byte that
/// would have been sent.
pub proof fn law_abort_tells_the_peer(s: TcbView)
    requires
        s.local.ip.len() == 4,
        s.remote.ip.len() == 4,
        !tx_full(s),
        !(s.state is Closed || s.state is Listen || s.state is SynSent),
    ensures
        ({
            let t = aborted(s);
            &&& t.state is Closed
            &&& t.tx.len() == s.tx.len() + 1
            &&& parse_packet(t.tx.last()) matches Some(g)
            &&& g.has(flags::RST) && g.has(flags::ACK) && !g.has(flags::SYN)
            &&& g.seq == s.snd_nxt && g.ack == s.rcv_nxt && g.payload.len() == 0
            &&& g.dst_ip == s.remote.ip && g.dst_port == s.remote.port
        }),
{
    reveal(torn_down);
    reveal(emit);
    reveal(datagram_out);
    reveal(segment_out);
    reveal(feedback);
    let bits = flags::RST | flags::ACK;
    lemma_abort_bits();
    lemma_options_fit(s);
    let g = segment_out(s, bits, s.snd_nxt, s.rcv_nxt, no_options(), Seq::empty());
    law_emit_then_parse_round_trip(g, s.ip_id, Seq::empty());
    assert(packet(g, s.ip_id) + Seq::<u8>::empty() =~= packet(g, s.ip_id));
}

proof fn lemma_abort_bits()
    by (bit_vector)
    ensures
        (0x04u8 | 0x10u8) & 0x04u8 != 0 && (0x04u8 | 0x10u8) & 0x10u8 != 0,
        (0x04u8 | 0x10u8) & 0x02u8 == 0,
        ((0x04u8 | 0x10u8) | 0x40u8) & 0x04u8 != 0 && ((0x04u8 | 0x10u8) | 0x40u8) & 0x10u8 != 0,
        ((0x04u8 | 0x10u8) | 0x40u8) & 0x02u8 == 0,
{
}

} // verus!
