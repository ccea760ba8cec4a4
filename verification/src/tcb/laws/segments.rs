//! Inbound segments keep a connection sound.

use crate::reassembly::{first_starting, MAX_HOLES};
use crate::state::{synchronized, State};
use crate::tcb::laws::acking::lemma_take_ack_sound;
use crate::tcb::laws::frame::{lemma_emit, lemma_pure_ack, only_sent};
use crate::tcb::laws::outbound::same_out;
use crate::tcb::laws::sending::{
    lemma_emit_send, lemma_pure_ack_send, lemma_send_data_sound, same_send,
};
use crate::tcb::laws::soundness::{outstanding, sound};
use crate::tcb::model::{
    accept, ack_owed, ack_timed, agreed, answer, arm_rto, bump_max, cookie_restored, drain,
    drain_runs, emit_cookie, emit_synack, fin_received, for_us, from_cookie, half_open,
    handshake_done, in_state, injected, note_marks, on_listen, on_reset, on_segment,
    on_syn_rcvd, on_syn_sent, on_synchronised, owe_ack, peer_alive, pinned, probe_dropped,
    received, refuse, relisten, reset, reset_by_peer, reset_reply, rto_stopped, rtt_from_echo,
    rtt_from_probe, rtt_sample, run_drained, set_aside, syn_accepted, syn_acked, syn_counted,
    syn_in_flight, synack_accepted, synack_opts, take_ack, take_fin, take_in_order, take_offer,
    take_payload, take_syn, take_synack_options, ts_agreed, unpinned, window_updated, TcbView,
};
use crate::tcb::{DEFAULT_PEER_MSS, RTO_MAX_MS, RTO_MIN_MS};
use crate::wire::options::no_options;
use crate::wire::{flags, parse_packet, SegmentView};
use crate::MSS;
use vstd::prelude::*;

verus! {

/// The state after the peer's FIN, or the same.
pub open spec fn peer_fin_step(st: State) -> State {
    match st {
        State::Established => State::CloseWait,
        State::FinWait1 => State::Closing,
        State::FinWait2 => State::TimeWait,
        _ => st,
    }
}

proof fn lemma_drain_runs_send(s: TcbView, turns: nat)
    ensures
        same_send(s, drain_runs(s, turns)),
        same_out(s, drain_runs(s, turns)),
    decreases turns,
{
    reveal_with_fuel(drain_runs, 2);
    let i = first_starting(s.reasm.runs, s.rcv_nxt, 0);
    if turns > 0 && i < s.reasm.runs.len() {
        let len = s.reasm.runs[i].data.len();
        let n = crate::num::min(len as int, s.cap - s.recv_ring.len());
        reveal(run_drained);
        if n >= len {
            lemma_drain_runs_send(run_drained(s, i, n), (turns - 1) as nat);
        }
    }
}

pub proof fn lemma_drain_send(s: TcbView)
    ensures
        same_send(s, drain(s)),
        same_out(s, drain(s)),
        same_send(s, window_updated(s)),
        same_out(s, window_updated(s)),
{
    reveal(drain);
    reveal(window_updated);
    lemma_drain_runs_send(s, MAX_HOLES as nat + 2);
}

/// Taking data in leaves the send side alone.
pub proof fn lemma_take_payload_send(s: TcbView, g: SegmentView)
    ensures
        same_send(s, take_payload(s, g).0),
        same_out(s, take_payload(s, g).0),
{
    reveal(take_payload);
    reveal(take_in_order);
    reveal(received);
    reveal(set_aside);
    let t = received(s, g.payload);
    lemma_drain_send(t);
    lemma_drain_send(take_in_order(s, g.payload).0);
    lemma_drain_send(set_aside(s, g.seq, g.payload));
    lemma_drain_send(s);
}

pub proof fn lemma_take_fin_sound(s: TcbView, g: SegmentView)
    requires
        sound(s),
        synchronized(s.state) || s.state is Closed,
    ensures
        sound(take_fin(s, g)),
        take_fin(s, g).state == s.state || take_fin(s, g).state == peer_fin_step(s.state),
        take_fin(s, g).tx == s.tx,
{
    reveal(take_fin);
    reveal(fin_received);
}

pub proof fn lemma_answer_send(s: TcbView, g: SegmentView, advanced: bool, filled: bool)
    ensures
        same_send(s, answer(s, g, advanced, filled)),
        only_sent(s, answer(s, g, advanced, filled)),
{
    reveal(answer);
    lemma_pure_ack_send(s);
    lemma_pure_ack(s);
    reveal(owe_ack);
    reveal(ack_owed);
    reveal(ack_timed);
    lemma_pure_ack_send(ack_owed(s));
    lemma_pure_ack(ack_owed(s));
}

proof fn lemma_accept_sound(s: TcbView, g: SegmentView)
    requires
        sound(s),
        synchronized(s.state),
    ensures
        sound(accept(s, g)),
{
    reveal(accept);
    let a = if g.has(flags::ACK) {
        take_ack(s, g)
    } else {
        s
    };
    lemma_take_ack_sound(s, g);
    lemma_take_payload_send(a, g);
    let (b, filled) = take_payload(a, g);
    assert(sound(b));
    lemma_take_fin_sound(b, g);
    let c = take_fin(b, g);
    lemma_answer_send(c, g, c.rcv_nxt != s.rcv_nxt, filled);
    let d = answer(c, g, c.rcv_nxt != s.rcv_nxt, filled);
    assert(sound(d));
    lemma_send_data_sound(d);
}

pub proof fn lemma_on_synchronised_sound(s: TcbView, g: SegmentView)
    requires
        sound(s),
        synchronized(s.state),
    ensures
        sound(on_synchronised(s, g)),
{
    reveal(on_synchronised);
    reveal(note_marks);
    let t = note_marks(s, g);
    assert(sound(t));
    lemma_accept_sound(t, g);
    reveal(refuse);
    lemma_take_ack_sound(t, g);
    lemma_pure_ack_send(t);
    lemma_pure_ack_send(take_ack(t, g));
}

pub proof fn lemma_reset_reply_sound(s: TcbView, seq: u32, ack: u32)
    requires
        sound(s),
    ensures
        sound(reset_reply(s, seq, ack)),
{
    reveal(reset_reply);
    lemma_emit_send(s, flags::RST, seq, ack, no_options(), Seq::empty());
}

/// What [`sound`] speaks of is the same but for the timeout, which keeps its bounds.
spec fn same_but_timeout(s: TcbView, t: TcbView) -> bool {
    &&& RTO_MIN_MS <= t.rto_ms <= RTO_MAX_MS
    &&& t.cap == s.cap
    &&& t.state == s.state
    &&& t.snd_una == s.snd_una
    &&& t.snd_nxt == s.snd_nxt
    &&& t.snd_max == s.snd_max
    &&& t.iss == s.iss
    &&& t.send_ring == s.send_ring
    &&& t.fin_sent == s.fin_sent
    &&& t.cc == s.cc
    &&& t.rack_deadline == s.rack_deadline
    &&& t.rto_deadline == s.rto_deadline
    &&& t.tlp_deadline == s.tlp_deadline
    &&& t.local_mss == s.local_mss
    &&& t.peer_mss == s.peer_mss
    &&& t.time_wait_deadline == s.time_wait_deadline
}

proof fn lemma_rtt_sample_timeout(s: TcbView, r: u32)
    ensures
        same_but_timeout(s, rtt_sample(s, r)),
{
    reveal(rtt_sample);
}

proof fn lemma_synack_options_timeout(s: TcbView, g: SegmentView)
    requires
        RTO_MIN_MS <= s.rto_ms <= RTO_MAX_MS,
    ensures
        same_but_timeout(s, take_synack_options(s, g)),
{
    reveal(take_synack_options);
    reveal(agreed);
    let t = ts_agreed(s, g);
    assert(same_but_timeout(s, t)) by {
        reveal(ts_agreed);
    }
    if let Some((_, tsecr)) = g.options.ts {
        assert(same_but_timeout(t, rtt_from_echo(t, tsecr))) by {
            reveal(rtt_from_echo);
            let r = crate::tcb::model::ts_val(t).wrapping_sub(tsecr);
            lemma_rtt_sample_timeout(t, crate::num::max(r as int, 1) as u32);
        }
    }
}

proof fn lemma_probe_timeout(s: TcbView, ack: u32)
    requires
        RTO_MIN_MS <= s.rto_ms <= RTO_MAX_MS,
    ensures
        same_but_timeout(s, rtt_from_probe(s, ack)),
{
    reveal(rtt_from_probe);
    let t = probe_dropped(s);
    assert(same_but_timeout(s, t)) by {
        reveal(probe_dropped);
    }
    if let Some(p) = s.rtt_probe {
        lemma_rtt_sample_timeout(t, crate::num::max(s.now_ms - p.sent_at, 0) as u32);
    }
}

pub proof fn lemma_synack_accepted_sound(s: TcbView, g: SegmentView)
    requires
        sound(s),
        s.state is SynSent,
        g.ack == s.snd_nxt,
    ensures
        sound(synack_accepted(s, g)),
        synack_accepted(s, g).state is Established,
{
    reveal(synack_accepted);
    let o = take_offer(s, g);
    let a = syn_acked(o, g.ack);
    let b = take_synack_options(a, g);
    let c = rtt_from_probe(b, g.ack);
    assert(a.rto_ms == s.rto_ms && a.cap == s.cap && a.snd_una == g.ack && a.snd_nxt == s.snd_nxt
        && a.snd_max == s.snd_max && a.send_ring == s.send_ring && a.fin_sent == s.fin_sent && a.cc
        == s.cc && a.rack_deadline == s.rack_deadline && a.tlp_deadline == s.tlp_deadline
        && a.local_mss == s.local_mss && a.peer_mss >= DEFAULT_PEER_MSS && a.time_wait_deadline
        == s.time_wait_deadline) by {
        reveal(take_offer);
        reveal(syn_acked);
    }
    lemma_synack_options_timeout(a, g);
    lemma_probe_timeout(b, g.ack);
    let d = in_state(rto_stopped(c), State::Established);
    assert(sound(d)) by {
        reveal(rto_stopped);
        reveal(in_state);
    }
    assert(d.state is Established) by {
        reveal(in_state);
    }
    lemma_pure_ack_send(d);
}

pub proof fn lemma_emit_synack_send(s: TcbView)
    ensures
        same_send(s, emit_synack(s)),
        only_sent(s, emit_synack(s)),
{
    reveal(emit_synack);
    let bits = flags::SYN | flags::ACK | (if s.ecn_enabled {
        flags::ECE
    } else {
        0u8
    });
    lemma_emit_send(s, bits, s.iss, s.rcv_nxt, synack_opts(s), Seq::empty());
    lemma_emit(s, bits, s.iss, s.rcv_nxt, synack_opts(s), Seq::empty());
}

/// Our SYN goes out, or goes out again.
pub proof fn lemma_syn_in_flight_sound(s: TcbView)
    requires
        s.cap <= 0x4000_0000,
        RTO_MIN_MS <= s.rto_ms <= RTO_MAX_MS,
        s.local_mss == MSS && s.peer_mss >= DEFAULT_PEER_MSS,
        s.cc.cwnd > 0,
        s.state is SynSent || s.state is SynRcvd,
        s.snd_una == s.iss,
        outstanding(s) <= 1,
        s.send_ring.len() == 0,
        !s.fin_sent,
        !s.cc.in_recovery,
        s.tlp_deadline is None,
        s.rack_deadline is None,
        s.time_wait_deadline is None,
    ensures
        sound(syn_in_flight(s)),
        syn_in_flight(s).state == s.state,
        syn_in_flight(s).rto_deadline is Some,
        outstanding(syn_in_flight(s)) == 1,
{
    reveal(syn_in_flight);
    reveal(syn_counted);
    reveal(bump_max);
    reveal(arm_rto);
}

pub proof fn lemma_syn_accepted_sound(s: TcbView, g: SegmentView)
    requires
        s.cap <= 0x4000_0000,
        RTO_MIN_MS <= s.rto_ms <= RTO_MAX_MS,
        s.local_mss == MSS,
    ensures
        sound(syn_accepted(s, g)),
        syn_accepted(s, g).state is SynRcvd,
{
    reveal(syn_accepted);
    reveal(reset);
    let a = reset(s);
    let b = take_syn(a, g);
    assert(same_send(a, TcbView { peer_mss: a.peer_mss, ..b }) && b.peer_mss >= DEFAULT_PEER_MSS) by {
        reveal(take_syn);
        reveal(pinned);
        reveal(take_offer);
        reveal(ts_agreed);
        reveal(agreed);
        reveal(window_updated);
    }
    lemma_emit_synack_send(b);
    reveal(half_open);
    lemma_syn_in_flight_sound(half_open(emit_synack(b)));
}

pub proof fn lemma_from_cookie_sound(s: TcbView, g: SegmentView)
    requires
        s.cap <= 0x4000_0000,
        RTO_MIN_MS <= s.rto_ms <= RTO_MAX_MS,
        s.local_mss == MSS,
    ensures
        sound(from_cookie(s, g)),
        from_cookie(s, g).state is Established,
{
    reveal(from_cookie);
    reveal(reset);
    reveal(pinned);
    reveal(cookie_restored);
    reveal(ts_agreed);
    reveal(window_updated);
    reveal(in_state);
}

proof fn lemma_on_listen_sound(s: TcbView, g: SegmentView)
    requires
        sound(s),
        s.state is Listen,
    ensures
        sound(on_listen(s, g)),
{
    reveal(on_listen);
    lemma_reset_reply_sound(s, g.ack, 0);
    assert(same_send(s, emit_cookie(s, g))) by {
        reveal(emit_cookie);
    }
    lemma_syn_accepted_sound(s, g);
    lemma_from_cookie_sound(s, g);
    lemma_on_synchronised_sound(from_cookie(s, g), g);
}

pub proof fn lemma_handshake_done_sound(s: TcbView, g: SegmentView)
    requires
        sound(s),
        s.state is SynRcvd,
        g.ack == s.iss.wrapping_add(1),
    ensures
        sound(handshake_done(s, g)),
        handshake_done(s, g).state is Established,
{
    reveal(handshake_done);
    assert(handshake_done(s, g).snd_max == s.iss.wrapping_add(1));
}

proof fn lemma_on_syn_rcvd_sound(s: TcbView, g: SegmentView)
    requires
        sound(s),
        s.state is SynRcvd,
    ensures
        sound(on_syn_rcvd(s, g)),
{
    reveal(on_syn_rcvd);
    lemma_reset_reply_sound(s, g.ack, 0);
    lemma_emit_synack_send(s);
    if g.ack == s.iss.wrapping_add(1) {
        lemma_handshake_done_sound(s, g);
        lemma_on_synchronised_sound(handshake_done(s, g), g);
    }
}

proof fn lemma_on_reset_sound(s: TcbView, g: SegmentView)
    requires
        sound(s),
    ensures
        sound(on_reset(s, g).0),
{
    reveal(on_reset);
    assert(sound(reset_by_peer(s))) by {
        reveal(reset_by_peer);
    }
    lemma_relisten_sound(s);
}

pub proof fn lemma_relisten_sound(s: TcbView)
    requires
        s.cap <= 0x4000_0000,
        RTO_MIN_MS <= s.rto_ms <= RTO_MAX_MS,
        s.local_mss == MSS,
    ensures
        sound(relisten(s)),
        relisten(s).state is Listen || relisten(s).state is Closed,
{
    reveal(relisten);
    reveal(unpinned);
    reveal(reset);
}

/// A segment keeps a connection sound.
pub proof fn lemma_on_segment_sound(s: TcbView, g: SegmentView)
    requires
        sound(s),
    ensures
        sound(on_segment(s, g).0),
{
    reveal(on_segment);
    lemma_on_reset_sound(s, g);
    match s.state {
        State::Closed => {},
        State::Listen => {
            lemma_on_listen_sound(s, g);
        },
        State::SynSent => {
            reveal(on_syn_sent);
            lemma_reset_reply_sound(s, 0, g.seq.wrapping_add(1));
            lemma_reset_reply_sound(s, g.ack, 0);
            if g.ack == s.snd_nxt {
                lemma_synack_accepted_sound(s, g);
            }
        },
        State::SynRcvd => {
            lemma_on_syn_rcvd_sound(s, g);
        },
        _ => {
            lemma_on_synchronised_sound(s, g);
        },
    }
}

/// An inbound datagram keeps a connection sound, whatever it holds.
pub proof fn law_inbound_keeps_sound(s: TcbView, b: Seq<u8>)
    requires
        sound(s),
    ensures
        sound(injected(s, b).0),
{
    if let Some(g) = parse_packet(b) {
        if for_us(s, g) {
            lemma_on_segment_sound(s, g);
            reveal(peer_alive);
        }
    }
}

} // verus!
