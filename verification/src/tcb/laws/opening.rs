//! A connection opens: the SYN, the SYN-ACK that answers it, and what the two make of the
//! ends.

use crate::tcb::laws::calls::untouched;
use crate::tcb::laws::outbound::lemma_options_fit;
use crate::tcb::laws::frame::lemma_pure_ack;
use crate::tcb::model::{
    agreed, arm_rto, bump_max, connected, datagram_out, due, emit, emit_synack, feedback,
    half_open, in_state, injected, on_listen, on_segment, on_syn_sent, opening, peer_alive,
    pinned, reset, rto_stopped, rtt_from_probe, segment_out, send_data, send_syn, syn_accepted,
    syn_acked, syn_counted, syn_in_flight, syn_opts, synack_accepted, synack_opts, take_offer,
    take_syn, take_synack_options, tick_ack, tick_keepalive, tick_persist, tick_rack, tick_rto,
    tick_time_wait, tick_timers, tick_tlp, tick_user_timeout, ticked, ts_agreed, user_timer_set,
    window_updated, EndpointView, TcbView,
};
use crate::state::State;
use crate::tcb::laws::outbound::options_fit;
use crate::wire::options::OptionsView;
use crate::wire::{flags, law_emit_then_parse_round_trip, packet, parse_packet};
use vstd::prelude::*;

verus! {

/// `b` holds a segment without data from `from` to `to`.
pub open spec fn bare_segment(b: Seq<u8>, from: EndpointView, to: EndpointView) -> bool {
    &&& parse_packet(b) matches Some(g)
    &&& g.src_ip == from.ip && g.src_port == from.port
    &&& g.dst_ip == to.ip && g.dst_port == to.port
    &&& g.payload.len() == 0
}

/// `b` is the SYN at `seq` from `from` to `to`.
pub open spec fn is_syn(b: Seq<u8>, from: EndpointView, to: EndpointView, seq: u32) -> bool {
    &&& bare_segment(b, from, to)
    &&& parse_packet(b) matches Some(g)
    &&& g.seq == seq
    &&& g.has(flags::SYN) && !g.has(flags::ACK) && !g.has(flags::RST)
}

/// `b` is a SYN-ACK from `from` to `to` that acknowledges what is before `ack`.
pub open spec fn is_synack(b: Seq<u8>, from: EndpointView, to: EndpointView, ack: u32) -> bool {
    &&& bare_segment(b, from, to)
    &&& parse_packet(b) matches Some(g)
    &&& g.ack == ack
    &&& g.has(flags::SYN) && g.has(flags::ACK) && !g.has(flags::RST)
}

/// A segment without data parses to what was staged.
proof fn lemma_bare_parses(s: TcbView, bits: u8, seq: u32, ack: u32, opts: OptionsView)
    requires
        s.local.ip.len() == 4,
        s.remote.ip.len() == 4,
        options_fit(opts),
        bits & flags::SYN != 0,
    ensures
        ({
            let b = datagram_out(s, bits, seq, ack, opts, Seq::empty());
            &&& bare_segment(b, s.local, s.remote)
            &&& parse_packet(b) matches Some(g)
            &&& g.seq == seq && g.ack == ack && g.flags == bits
        }),
{
    reveal(datagram_out);
    reveal(segment_out);
    reveal(feedback);
    let g = segment_out(s, bits, seq, ack, opts, Seq::empty());
    law_emit_then_parse_round_trip(g, s.ip_id, Seq::empty());
    assert(packet(g, s.ip_id) + Seq::<u8>::empty() =~= packet(g, s.ip_id));
}

/// An active open stages one packet: the SYN.
pub proof fn law_connect_sends_a_syn(s: TcbView)
    requires
        untouched(s),
        s.tx.len() == 0,
        s.local.ip.len() == 4,
        s.remote.ip.len() == 4,
    ensures
        ({
            let c = connected(s);
            &&& c.state is SynSent
            &&& c.tx.len() == 1
            &&& is_syn(c.tx[0], s.local, s.remote, s.iss)
            &&& c.local == s.local && c.remote == s.remote
            &&& c.snd_nxt == s.iss.wrapping_add(1)
        }),
{
    reveal(opening);
    reveal(send_syn);
    let o = opening(s);
    let bits = flags::SYN | flags::ECE | flags::CWR;
    assert((0x02u8 | 0x40u8 | 0x80u8) & 0x02u8 != 0 && (0x02u8 | 0x40u8 | 0x80u8) & 0x10u8 == 0 && (
    0x02u8 | 0x40u8 | 0x80u8) & 0x04u8 == 0) by (bit_vector);
    lemma_options_fit(o);
    lemma_bare_parses(o, bits, o.iss, 0, syn_opts(o));
    reveal(emit);
    reveal(syn_in_flight);
    reveal(syn_counted);
    reveal(bump_max);
    reveal(arm_rto);
}

/// A listener without cookies answers a SYN with one packet: the SYN-ACK for it.
pub proof fn law_syn_is_answered(v: TcbView, b: Seq<u8>, from: EndpointView, seq: u32)
    requires
        v.state is Listen,
        !v.cookie_secret_set,
        v.local.ip.len() == 4,
        is_syn(b, from, v.local, seq),
    ensures
        ({
            let w = injected(v, b).0;
            &&& w.state is SynRcvd
            &&& w.tx.len() == 1
            &&& is_synack(w.tx[0], v.local, from, seq.wrapping_add(1))
        }),
{
    let g = parse_packet(b)->0;
    assert(g.src_ip.len() == 4);
    reveal(on_segment);
    reveal(on_listen);
    reveal(peer_alive);
    reveal(syn_accepted);
    let a = reset(v);
    let t = take_syn(a, g);
    assert(t.local == v.local && t.remote.ip == from.ip && t.remote.port == from.port && t.tx.len()
        == 0 && t.rcv_nxt == seq.wrapping_add(1)) by {
        reveal(reset);
        reveal(take_syn);
        reveal(pinned);
        reveal(take_offer);
        reveal(ts_agreed);
        reveal(agreed);
        reveal(window_updated);
    }
    let bits = flags::SYN | flags::ACK | (if t.ecn_enabled {
        flags::ECE
    } else {
        0u8
    });
    assert((0x02u8 | 0x10u8 | 0x40u8) & 0x02u8 != 0 && (0x02u8 | 0x10u8 | 0x40u8) & 0x10u8 != 0 && (
    0x02u8 | 0x10u8 | 0x40u8) & 0x04u8 == 0 && (0x02u8 | 0x10u8 | 0u8) & 0x02u8 != 0 && (0x02u8
        | 0x10u8 | 0u8) & 0x10u8 != 0 && (0x02u8 | 0x10u8 | 0u8) & 0x04u8 == 0) by (bit_vector);
    lemma_options_fit(t);
    lemma_bare_parses(t, bits, t.iss, t.rcv_nxt, synack_opts(t));
    reveal(emit_synack);
    reveal(emit);
    reveal(half_open);
    reveal(syn_in_flight);
    reveal(syn_counted);
    reveal(bump_max);
    reveal(arm_rto);
}

/// The SYN-ACK for its SYN establishes a connection that opens actively.
pub proof fn law_synack_establishes(c: TcbView, b: Seq<u8>)
    requires
        c.state is SynSent,
        is_synack(b, c.remote, c.local, c.snd_nxt),
    ensures
        injected(c, b).0.state is Established,
{
    let g = parse_packet(b)->0;
    reveal(on_segment);
    reveal(on_syn_sent);
    reveal(peer_alive);
    reveal(synack_accepted);
    reveal(in_state);
    let t = take_synack_options(syn_acked(take_offer(c, g), g.ack), g);
    lemma_pure_ack(in_state(rto_stopped(rtt_from_probe(t, g.ack)), State::Established));
}

/// No timer of a connection that waits in a handshake is due.
pub open spec fn handshake_waits(s: TcbView) -> bool {
    &&& s.state is SynSent || s.state is Listen
    &&& !due(s, s.time_wait_deadline)
    &&& !due(s, s.rto_deadline)
    &&& !due(s, s.rack_deadline)
    &&& !due(s, s.tlp_deadline)
    &&& !due(s, s.persist_deadline)
    &&& !due(s, s.user_timeout_deadline)
    &&& !s.pending_ack
}

/// Before any of its timers is due, driving them leaves such a connection as it is.
pub proof fn law_handshake_waits(s: TcbView)
    requires
        handshake_waits(s),
    ensures
        ({
            let t = ticked(s);
            &&& t.state == s.state
            &&& t.tx == s.tx
            &&& t.local == s.local && t.remote == s.remote
            &&& t.snd_nxt == s.snd_nxt
            &&& t.cookie_secret_set == s.cookie_secret_set
        }),
{
    reveal(tick_time_wait);
    reveal(tick_timers);
    reveal(tick_rto);
    reveal(tick_rack);
    reveal(tick_tlp);
    reveal(tick_persist);
    reveal(tick_keepalive);
    reveal(tick_user_timeout);
    reveal(user_timer_set);
    reveal(send_data);
    reveal(tick_ack);
}

} // verus!
