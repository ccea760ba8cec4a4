//! What two ends agree on when a connection opens: each takes what the other offers, and
//! keeps to it from then on.

use crate::num::{max, min};
use crate::reassembly::{held, nothing_held, Run};
use crate::state::State;
use crate::tcb::laws::marks::{heard, law_segments_update_the_terms, moved, moved_on, stays_up, up};
use crate::tcb::laws::network::Event;
use crate::tcb::laws::outbound::{lemma_options_fit, options_fit};
use crate::tcb::laws::staged::{
    addressable, law_answers_keep_to_the_terms, law_calls_keep_to_the_terms,
    law_timers_keep_to_the_terms, lemma_data_opts, lemma_feedback_bits, lemma_on_synchronised_keeps,
    lemma_shift_is_small, proper, receipt, stages, terms,
};
use crate::tcb::laws::windows::{halved, law_window_shift_is_least};
use crate::tcb::model::{
    ack_sent, agreed, arm_rto, bump_max, connected, cookie_restored, data_opts, datagram_out, emit,
    emit_synack, feedback, for_us, from_cookie, half_open, handshake_done, in_state, injected,
    note_marks, on_listen, on_reset, on_segment, on_syn_rcvd, on_syn_sent, on_synchronised, opening,
    peer_alive, pinned, probe_dropped, pure_ack, relisten, reset, reset_by_peer, reset_reply,
    rto_stopped, rtt_from_echo, rtt_from_probe, rtt_sample, segment_out, send_syn, syn_accepted,
    syn_acked, syn_counted, syn_in_flight, syn_opts, synack_accepted, synack_opts, take_offer,
    take_syn, take_synack_options, ts_agreed, tx_full, unpinned, window_shift, window_updated,
    TcbView,
};
use crate::wire::{flags, law_emit_then_parse_round_trip, packet, parse_packet, SegmentView};
use crate::wire::flags::{ACK, CWR, ECE, FIN, RST, SYN};
use crate::wire::options::{wire_options, OptionsView};
use vstd::prelude::*;

verus! {

/// `b` holds the SYN-ACK that answers the SYN of `c`.
pub open spec fn answers_syn(c: TcbView, b: Seq<u8>) -> bool {
    &&& parse_packet(b) matches Some(g)
    &&& for_us(c, g)
    &&& g.has(flags::SYN) && g.has(flags::ACK) && !g.has(flags::RST)
    &&& g.ack == c.snd_nxt
}

/// `b` holds a SYN for the listener `v`.
pub open spec fn asks(v: TcbView, b: Seq<u8>) -> bool {
    &&& parse_packet(b) matches Some(g)
    &&& for_us(v, g)
    &&& g.has(flags::SYN) && !g.has(flags::ACK) && !g.has(flags::RST)
}

/// `t` takes the segment size that `g` offers, and `default` if it offers none: no size
/// below 536 counts.
pub open spec fn takes_size(g: SegmentView, t: TcbView, default: u16) -> bool {
    match g.options.mss {
        Some(m) => t.peer_mss == (if m >= 536 {
            m
        } else {
            536
        }),
        None => t.peer_mss == default,
    }
}

/// `t` takes the window scale that `g` offers, of 14 at most, and then scales its own
/// windows by the least shift that lets a full buffer fit; without an offer no window is
/// scaled differently from `default`.
pub open spec fn takes_scale(g: SegmentView, t: TcbView, default: (u8, u8)) -> bool {
    match g.options.wscale {
        Some(w) => {
            &&& t.snd_wscale == min(w as int, 14)
            &&& halved(t.cap as nat, t.rcv_wscale as nat) <= 0xFFFF
            &&& t.rcv_wscale > 0 ==> halved(t.cap as nat, (t.rcv_wscale - 1) as nat) > 0xFFFF
        },
        None => t.snd_wscale == default.0 && t.rcv_wscale == default.1,
    }
}

/// `t` uses timestamps if `g` has one, which is then the one to echo, and selective
/// acknowledgement exactly if `g` permits it.
pub open spec fn takes_options(g: SegmentView, t: TcbView, stamped: bool) -> bool {
    &&& match g.options.ts {
        Some((sent, _)) => t.ts_enabled && t.ts_recent == sent,
        None => t.ts_enabled == stamped,
    }
    &&& t.sack_enabled == g.options.sack_permitted
}

proof fn lemma_shift_fits(cap: nat)
    requires
        cap <= u32::MAX,
    ensures
        window_shift(cap) <= 16,
        halved(cap, window_shift(cap)) <= 0xFFFF,
        window_shift(cap) > 0 ==> halved(cap, (window_shift(cap) - 1) as nat) > 0xFFFF,
{
    lemma_shift_is_small(cap);
    law_window_shift_is_least(cap);
}

/// An active open takes what the SYN-ACK offers. Its window is not scaled. Congestion
/// notification is in use exactly if the SYN-ACK confirms it. The connection is established,
/// and acknowledges the SYN-ACK at once.
pub proof fn law_synack_is_taken(c: TcbView, b: Seq<u8>)
    requires
        addressable(c),
        c.state is SynSent,
        answers_syn(c, b),
    ensures
        ({
            let g = parse_packet(b)->0;
            let t = injected(c, b).0;
            &&& t.state is Established
            &&& t.rcv_nxt == g.seq.wrapping_add(1) && t.irs == g.seq
            &&& t.snd_una == g.ack && t.snd_nxt == c.snd_nxt
            &&& t.snd_wnd == g.window
            &&& takes_size(g, t, c.peer_mss)
            &&& takes_scale(g, t, (c.snd_wscale, c.rcv_wscale))
            &&& takes_options(g, t, c.ts_enabled)
            &&& t.ecn_enabled <==> g.has(flags::ECE) && !g.has(flags::CWR)
            &&& t.rto_deadline is None && t.rtx_count == 0
            &&& !tx_full(c) ==> t.tx.len() == c.tx.len() + 1 && is_bare_ack(t, t.tx.last())
        }),
{
    let g = parse_packet(b)->0;
    reveal(on_segment);
    reveal(on_syn_sent);
    reveal(peer_alive);
    reveal(synack_accepted);
    lemma_shift_fits(c.cap as nat);
    let a = take_synack_options(syn_acked(take_offer(c, g), g.ack), g);
    let d = in_state(rto_stopped(rtt_from_probe(a, g.ack)), State::Established);
    assert({
        &&& addressable(d) && d.state is Established && d.tx == c.tx
        &&& d.rcv_nxt == g.seq.wrapping_add(1) && d.irs == g.seq
        &&& d.snd_una == g.ack && d.snd_nxt == c.snd_nxt && d.snd_wnd == g.window
        &&& takes_size(g, d, c.peer_mss)
        &&& takes_scale(g, d, (c.snd_wscale, c.rcv_wscale))
        &&& takes_options(g, d, c.ts_enabled)
        &&& d.ecn_enabled <==> g.has(flags::ECE) && !g.has(flags::CWR)
        &&& d.rto_deadline is None && d.rtx_count == 0
    }) by {
        reveal(take_offer);
        reveal(syn_acked);
        reveal(take_synack_options);
        reveal(ts_agreed);
        reveal(rtt_from_echo);
        reveal(rtt_sample);
        reveal(agreed);
        reveal(rtt_from_probe);
        reveal(probe_dropped);
        reveal(rto_stopped);
        reveal(in_state);
    }
    if !tx_full(d) {
        lemma_pure_ack_staged(d);
    }
    reveal(pure_ack);
    reveal(ack_sent);
    reveal(emit);
}

/// `b` is a bare acknowledgement from `s` to its peer: of everything that it has received,
/// at the next byte that it will send.
pub open spec fn is_bare_ack(s: TcbView, b: Seq<u8>) -> bool {
    &&& parse_packet(b) matches Some(g)
    &&& g.src_ip == s.local.ip && g.src_port == s.local.port
    &&& g.dst_ip == s.remote.ip && g.dst_port == s.remote.port
    &&& g.has(flags::ACK) && !g.has(flags::SYN) && !g.has(flags::RST) && !g.has(flags::FIN)
    &&& g.seq == s.snd_nxt && g.ack == s.rcv_nxt
    &&& g.payload.len() == 0
}

/// A bare acknowledgement is staged, and then none is owed.
pub proof fn lemma_pure_ack_staged(s: TcbView)
    requires
        addressable(s),
        !tx_full(s),
    ensures
        ({
            let t = pure_ack(s);
            &&& t.tx.len() == s.tx.len() + 1
            &&& is_bare_ack(s, t.tx.last())
            &&& !t.pending_ack && t.delayed_ack_count == 0 && t.ack_deadline is None
        }),
{
    reveal(pure_ack);
    reveal(ack_sent);
    reveal(emit);
    reveal(datagram_out);
    reveal(segment_out);
    reveal(feedback);
    lemma_feedback_bits(flags::ACK);
    lemma_ack_bits();
    lemma_data_opts(s);
    let opts = data_opts(s);
    let g = segment_out(s, flags::ACK, s.snd_nxt, s.rcv_nxt, opts, Seq::empty());
    law_emit_then_parse_round_trip(g, s.ip_id, Seq::empty());
    assert(packet(g, s.ip_id) + Seq::<u8>::empty() =~= packet(g, s.ip_id));
}

proof fn lemma_ack_bits()
    by (bit_vector)
    ensures
        0x10u8 & 0x01u8 == 0 && (0x10u8 | 0x40u8) & 0x01u8 == 0,
        0x10u8 & 0x04u8 == 0 && 0x10u8 & 0x10u8 != 0,
        (0x02u8 | 0x10u8 | 0u8) & 0x40u8 == 0 && (0x02u8 | 0x10u8 | 0u8) & 0x80u8 == 0,
        (0x02u8 | 0x10u8 | 0u8) & 0x10u8 != 0 && (0x02u8 | 0x10u8 | 0u8) & 0x02u8 != 0,
        (0x02u8 | 0x10u8 | 0x40u8) & 0x40u8 != 0 && (0x02u8 | 0x10u8 | 0x40u8) & 0x80u8 == 0,
        (0x02u8 | 0x10u8 | 0x40u8) & 0x10u8 != 0 && (0x02u8 | 0x10u8 | 0x40u8) & 0x02u8 != 0,
        (0x02u8 | 0x40u8 | 0x80u8) & 0x40u8 != 0 && (0x02u8 | 0x40u8 | 0x80u8) & 0x80u8 != 0,
        (0x02u8 | 0x40u8 | 0x80u8) & 0x02u8 != 0 && (0x02u8 | 0x40u8 | 0x80u8) & 0x10u8 == 0,
{
}

/// A segment of a handshake parses to what was staged.
proof fn lemma_handshake_parses(s: TcbView, bits: u8, seq: u32, ack: u32, opts: OptionsView)
    requires
        s.local.ip.len() == 4,
        s.remote.ip.len() == 4,
        options_fit(opts),
        bits & flags::SYN != 0,
        s.cap <= u32::MAX,
        !tx_full(s),
    ensures
        ({
            let t = emit(s, bits, seq, ack, opts, Seq::empty());
            &&& t.tx.len() == s.tx.len() + 1
            &&& parse_packet(t.tx.last()) matches Some(g)
            &&& g.src_ip == s.local.ip && g.src_port == s.local.port
            &&& g.dst_ip == s.remote.ip && g.dst_port == s.remote.port
            &&& g.seq == seq && g.ack == ack && g.flags == bits
            &&& g.payload.len() == 0 && g.ecn == 0
            &&& g.window == min(max(s.cap - s.recv_ring.len() - held(s.reasm.runs), 0), 0xFFFF)
            &&& g.options == wire_options(opts)
        }),
{
    reveal(emit);
    reveal(datagram_out);
    reveal(segment_out);
    reveal(feedback);
    let g = segment_out(s, bits, seq, ack, opts, Seq::empty());
    law_emit_then_parse_round_trip(g, s.ip_id, Seq::empty());
    assert(packet(g, s.ip_id) + Seq::<u8>::empty() =~= packet(g, s.ip_id));
}

/// A passive open takes what the SYN offers, and its SYN-ACK says so: it offers scaling and
/// timestamps, permits selective acknowledgement and confirms congestion notification
/// exactly if the SYN did. Windows in a handshake are not scaled.
pub proof fn law_syn_is_taken(v: TcbView, b: Seq<u8>)
    requires
        addressable(v),
        v.state is Listen,
        !v.cookie_secret_set,
        asks(v, b),
    ensures
        ({
            let g = parse_packet(b)->0;
            let t = injected(v, b).0;
            let notified = g.has(flags::ECE) && g.has(flags::CWR);
            &&& t.state is SynRcvd
            &&& t.remote.ip == g.src_ip && t.remote.port == g.src_port
            &&& t.rcv_nxt == g.seq.wrapping_add(1) && t.irs == g.seq
            &&& t.snd_una == v.iss && t.snd_nxt == v.iss.wrapping_add(1)
            &&& t.snd_wnd == g.window
            &&& takes_size(g, t, 536)
            &&& takes_scale(g, t, (0, 0))
            &&& takes_options(g, t, false)
            &&& t.ecn_enabled == notified && !t.ce_observed
            &&& t.rto_deadline == Some(v.now_ms.wrapping_add(v.rto_ms as u64))
            &&& t.tx.len() == 1
            &&& parse_packet(t.tx[0]) matches Some(h)
            &&& h.dst_ip == g.src_ip && h.dst_port == g.src_port
            &&& h.seq == v.iss && h.ack == g.seq.wrapping_add(1)
            &&& h.has(flags::SYN) && h.has(flags::ACK) && !h.has(flags::CWR)
            &&& h.has(flags::ECE) == notified
            &&& h.window == min(v.cap as int, 0xFFFF)
            &&& h.options.mss == Some(v.local_mss)
            &&& h.options.wscale is Some <==> g.options.wscale is Some
            &&& h.options.wscale matches Some(w) ==> w == min(t.rcv_wscale as int, 14)
            &&& h.options.ts is Some <==> g.options.ts is Some
            &&& h.options.ts matches Some((sent, echo)) ==> sent == v.now_ms as u32 && echo
                == t.ts_recent
            &&& h.options.sack_permitted == g.options.sack_permitted
        }),
{
    let g = parse_packet(b)->0;
    assert(g.src_ip.len() == 4);
    reveal(on_segment);
    reveal(on_listen);
    reveal(peer_alive);
    reveal(syn_accepted);
    lemma_shift_fits(v.cap as nat);
    let t = take_syn(reset(v), g);
    assert({
        &&& addressable(t) && t.tx.len() == 0 && t.local == v.local && t.cap == v.cap
        &&& t.remote.ip == g.src_ip && t.remote.port == g.src_port
        &&& t.rcv_nxt == g.seq.wrapping_add(1) && t.irs == g.seq
        &&& t.snd_una == v.iss && t.iss == v.iss && t.snd_max == v.iss && t.snd_wnd == g.window
        &&& takes_size(g, t, 536) && takes_scale(g, t, (0, 0)) && takes_options(g, t, false)
        &&& t.ecn_enabled == (g.has(flags::ECE) && g.has(flags::CWR)) && !t.ce_observed
        &&& t.ws_offered == (g.options.wscale is Some) && t.local_mss == v.local_mss
        &&& t.now_ms == v.now_ms && t.rto_ms == v.rto_ms
        &&& t.ts_enabled == (g.options.ts is Some)
        &&& t.recv_ring.len() == 0 && t.reasm == nothing_held()
    }) by {
        reveal(reset);
        reveal(take_syn);
        reveal(pinned);
        reveal(take_offer);
        reveal(ts_agreed);
        reveal(agreed);
        reveal(window_updated);
    }
    lemma_nothing_held();
    let bits = flags::SYN | flags::ACK | (if t.ecn_enabled {
        flags::ECE
    } else {
        0u8
    });
    lemma_ack_bits();
    lemma_options_fit(t);
    lemma_handshake_parses(t, bits, t.iss, t.rcv_nxt, synack_opts(t));
    reveal(synack_opts);
    reveal(emit_synack);
    reveal(emit);
    reveal(half_open);
    reveal(syn_in_flight);
    reveal(syn_counted);
    reveal(bump_max);
    reveal(arm_rto);
}

/// An empty buffer holds nothing.
proof fn lemma_nothing_held()
    ensures
        held(nothing_held().runs) == 0,
{
    lemma_free_runs_hold_nothing(nothing_held().runs);
}

proof fn lemma_free_runs_hold_nothing(runs: Seq<Run>)
    requires
        forall|i: int| 0 <= i < runs.len() ==> (#[trigger] runs[i]).data.len() == 0,
    ensures
        held(runs) == 0,
    decreases runs.len(),
{
    if runs.len() > 0 {
        lemma_free_runs_hold_nothing(runs.drop_last());
    }
}

/// The SYN of an active open offers everything: our segment size, the scale of our windows,
/// timestamps, selective acknowledgement and congestion notification.
pub proof fn law_syn_offers_everything(s: TcbView)
    requires
        addressable(s),
        !tx_full(s),
    ensures
        ({
            let c = connected(s);
            &&& c.state is SynSent
            &&& c.snd_nxt == s.iss.wrapping_add(1)
            &&& c.rto_deadline == Some(s.now_ms.wrapping_add(s.rto_ms as u64))
            &&& c.tx.len() == s.tx.len() + 1
            &&& parse_packet(c.tx.last()) matches Some(h)
            &&& h.dst_ip == s.remote.ip && h.dst_port == s.remote.port
            &&& h.seq == s.iss && h.payload.len() == 0
            &&& h.has(flags::SYN) && !h.has(flags::ACK) && h.has(flags::ECE) && h.has(flags::CWR)
            &&& h.window == min(max(s.cap - s.recv_ring.len() - held(s.reasm.runs), 0), 0xFFFF)
            &&& h.options.mss == Some(s.local_mss)
            &&& h.options.wscale matches Some(w)
            &&& w < 14 ==> halved(s.cap as nat, w as nat) <= 0xFFFF
            &&& 0 < w <= 14 ==> halved(s.cap as nat, (w - 1) as nat) > 0xFFFF
            &&& h.options.ts == Some((s.now_ms as u32, 0u32))
            &&& h.options.sack_permitted
        }),
{
    reveal(opening);
    reveal(send_syn);
    let o = opening(s);
    let bits = flags::SYN | flags::ECE | flags::CWR;
    lemma_ack_bits();
    lemma_options_fit(o);
    lemma_shift_fits(s.cap as nat);
    law_window_shift_is_least(s.cap as nat);
    lemma_handshake_parses(o, bits, o.iss, 0, syn_opts(o));
    reveal(syn_opts);
    reveal(emit);
    reveal(syn_in_flight);
    reveal(syn_counted);
    reveal(bump_max);
    reveal(arm_rto);
}

/// A connection that a returned cookie stands for has neither scaled windows nor selective
/// acknowledgement nor congestion notification: the listener kept no note of the offer.
pub proof fn law_cookie_connection_is_plain(s: TcbView, g: SegmentView)
    ensures
        ({
            let t = from_cookie(s, g);
            &&& t.snd_wscale == 0 && t.rcv_wscale == 0
            &&& !t.sack_enabled && !t.ecn_enabled && !t.ce_observed
            &&& t.ts_enabled == (g.options.ts is Some)
            &&& t.peer_mss >= 536
            &&& t.snd_una == g.ack && t.rcv_nxt == g.seq
            &&& t.remote.ip == g.src_ip && t.remote.port == g.src_port
        }),
{
    reveal(from_cookie);
    reveal(cookie_restored);
    reveal(pinned);
    reveal(reset);
    reveal(ts_agreed);
    reveal(window_updated);
    reveal(in_state);
}

/// What was agreed on stays, from event to event of a synchronised connection.
proof fn lemma_agreement_stays(s: TcbView, ev: Event)
    requires
        addressable(s),
        up(s, ev),
    ensures
        ({
            let t = moved(s, ev);
            &&& addressable(t)
            &&& t.peer_mss == s.peer_mss
            &&& t.snd_wscale == s.snd_wscale && t.rcv_wscale == s.rcv_wscale
            &&& t.ts_enabled == s.ts_enabled && t.sack_enabled == s.sack_enabled
            &&& t.ecn_enabled == s.ecn_enabled
            &&& forall|k: int|
                s.tx.len() <= k < t.tx.len() ==> fits_peer(s.peer_mss, #[trigger] t.tx[k])
        }),
{
    reveal(moved);
    let t = moved(s, ev);
    match ev {
        Event::Tick => law_timers_keep_to_the_terms(s),
        Event::Arrive(b) => {
            law_answers_keep_to_the_terms(s, b);
            if heard(s, b) {
                law_segments_update_the_terms(s, b);
            } else {
                reveal(on_segment);
                reveal(on_reset);
                reveal(reset_by_peer);
                reveal(peer_alive);
            }
        },
        Event::Write(data) => law_calls_keep_to_the_terms(s, data, 0),
        Event::Read(room) => law_calls_keep_to_the_terms(s, Seq::empty(), room),
        Event::Close => law_calls_keep_to_the_terms(s, Seq::empty(), 0),
        _ => {},
    }
    assert(terms(t).mss == t.peer_mss && terms(t).ts is Some == t.ts_enabled && terms(t).shifts == (
        t.snd_wscale,
        t.rcv_wscale,
    ));
    assert forall|k: int| s.tx.len() <= k < t.tx.len() implies fits_peer(
        s.peer_mss,
        #[trigger] t.tx[k],
    ) by {
        assert(!(ev is Take) && stages(s, t));
        assert(proper(terms(t), receipt(s), t.tx[k]) || proper(terms(t), receipt(t), t.tx[k]));
    }
}

/// A segment with data in the datagram `b` has options and data of `m` bytes at most.
pub open spec fn fits_peer(m: u16, b: Seq<u8>) -> bool {
    &&& parse_packet(b) matches Some(g)
    &&& !g.has(flags::SYN) && g.payload.len() > 0 ==> b.len() <= 40 + m
}

/// What was agreed on stays for good: whatever happens to a synchronised connection, the
/// peer's segment size, the scales and the options in use are those of the handshake, and no
/// segment with data that is staged is longer than the peer said that it takes.
pub proof fn law_agreement_is_kept(s: TcbView, evs: Seq<Event>, n: int)
    requires
        addressable(s),
        0 <= n <= evs.len(),
        stays_up(s, evs, n),
    ensures
        ({
            let t = moved_on(s, evs, n);
            &&& addressable(t)
            &&& t.peer_mss == s.peer_mss
            &&& t.snd_wscale == s.snd_wscale && t.rcv_wscale == s.rcv_wscale
            &&& t.ts_enabled == s.ts_enabled && t.sack_enabled == s.sack_enabled
            &&& t.ecn_enabled == s.ecn_enabled
            &&& n > 0 ==> forall|k: int|
                moved_on(s, evs, n - 1).tx.len() <= k < t.tx.len() ==> fits_peer(
                    s.peer_mss,
                    #[trigger] t.tx[k],
                )
        }),
    decreases n,
{
    if n > 0 {
        law_agreement_is_kept(s, evs, n - 1);
        let p = moved_on(s, evs, n - 1);
        assert(up(p, evs[n - 1]));
        lemma_agreement_stays(p, evs[n - 1]);
    }
}

/// The peer's offer binds every segment: after a SYN-ACK that offers segments of `m` bytes,
/// at least 536, whatever happens no segment with data that is staged has more than `m`
/// bytes of options and data.
pub proof fn law_offer_bounds_every_segment(
    c: TcbView,
    b: Seq<u8>,
    m: u16,
    evs: Seq<Event>,
    n: int,
)
    requires
        addressable(c),
        c.state is SynSent,
        answers_syn(c, b),
        parse_packet(b)->0.options.mss == Some(m),
        m >= 536,
        0 < n <= evs.len(),
        stays_up(injected(c, b).0, evs, n),
    ensures
        ({
            let s = injected(c, b).0;
            forall|k: int|
                moved_on(s, evs, n - 1).tx.len() <= k < moved_on(s, evs, n).tx.len() ==> fits_peer(
                    m,
                    #[trigger] moved_on(s, evs, n).tx[k],
                )
        }),
{
    law_synack_is_taken(c, b);
    law_answers_keep_to_the_terms(c, b);
    law_agreement_is_kept(injected(c, b).0, evs, n);
}

/// The rest of the handshake leaves what was agreed on alone, unless it fails.
pub proof fn law_half_open_keeps_the_offer(s: TcbView, b: Seq<u8>)
    requires
        addressable(s),
        s.state is SynRcvd,
    ensures
        ({
            let t = injected(s, b).0;
            t.state is Listen || t.state is Closed || {
                &&& t.peer_mss == s.peer_mss
                &&& t.snd_wscale == s.snd_wscale && t.rcv_wscale == s.rcv_wscale
                &&& t.ts_enabled == s.ts_enabled && t.sack_enabled == s.sack_enabled
                &&& t.ecn_enabled == s.ecn_enabled
            }
        }),
{
    if let Some(g) = parse_packet(b) {
        if for_us(s, g) {
            reveal(on_segment);
            reveal(on_reset);
            reveal(reset_by_peer);
            reveal(relisten);
            reveal(unpinned);
            reveal(on_syn_rcvd);
            reveal(reset_reply);
            reveal(emit_synack);
            reveal(emit);
            let h = handshake_done(s, g);
            assert(addressable(h) && terms(h) == terms(s)) by {
                reveal(handshake_done);
            }
            lemma_on_synchronised_keeps(h, g);
            let u = on_synchronised(h, g);
            assert(terms(u).mss == h.peer_mss && terms(u).ts is Some == h.ts_enabled) by {
                reveal(note_marks);
            }
            reveal(note_marks);
            reveal(peer_alive);
        }
    }
}

} // verus!
