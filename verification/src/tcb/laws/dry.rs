//! Connections that nothing is written to: what they exchange carries no data, and there
//! is nothing to read, in whatever state they are.

use crate::reassembly::{nothing_held, used};
use crate::state::State;
use crate::tcb::laws::frame::lemma_rack_scan;
use crate::tcb::laws::outbound::{lemma_options_fit, lemma_rack_scan_out, options_fit};
use crate::tcb::model::{
    accept, ack_advance, ack_advanced, ack_fin, ack_owed, ack_prune, ack_recovery, ack_repeated,
    ack_sample, ack_sent, ack_timed, ack_timing, agreed, answer, arm_persist, arm_rto,
    arm_rto_if_idle, begin_recovery, bump_max, closed, collapse, connected, count_repeat,
    count_timeout, data_acked, data_opts, datagram_out, delivery_credited, delivery_noted, emit,
    emit_fin, emit_synack, fin_due, fin_placed, fin_received, fire_tlp, for_us, given_up,
    half_open, handshake_done, in_state, injected, keepalive_counted, listening, lost_taken,
    note_echo, note_marks, note_sacks, nxt_caught_up, nxt_moved, on_listen, on_reset,
    on_segment, on_syn_rcvd, on_syn_sent, on_synchronised, open_to_all, opening, owe_ack,
    patience_restored, peer_alive, persist_backed_off, pinned, probe_dropped, pure_ack,
    rack_disarmed, rack_scan, records_pruned, recovering, recovery_ended, recovery_left, refuse,
    relisten, repeat_counted, resend_handshake, reset, reset_by_peer, reset_reply, retransmit,
    retry_counted, rto_gives_up, rto_kept, rto_stopped, rtt_from_echo, rtt_from_probe,
    rtt_sample, rxt_caught_up, sacks_noted, segment_out, send_data, send_fresh, send_lost,
    send_one, send_recovery, send_some, send_syn, sendable, syn_accepted, syn_acked,
    syn_counted, syn_in_flight, syn_opts, synack_accepted, synack_opts, take_ack, take_fin,
    take_offer, take_payload, take_syn, take_synack_options, take_window, tick_ack,
    tick_keepalive, tick_persist, tick_rack, tick_rto, tick_time_wait, tick_timers, tick_tlp,
    tick_user_timeout, ticked, tlp_disarmed, tlp_reset, tlp_spent, ts_agreed, tx_full,
    una_moved, unlistened, unpinned, user_timer_restarted, user_timer_set, window_updated,
    TcbView,
};
use crate::tx_ring::TX_RING_CAP;
use crate::wire::options::{no_options, OptionsView};
use crate::wire::{flags, law_emit_then_parse_round_trip, packet, parse_packet, SegmentView};
use crate::MSS;
use vstd::prelude::*;

verus! {

/// The datagram carries no data.
pub open spec fn no_data(b: Seq<u8>) -> bool {
    parse_packet(b) matches Some(g) ==> g.payload.len() == 0
}

/// Nothing is buffered either way, and no packet that waits carries data. Cookies are off.
pub open spec fn dry(s: TcbView) -> bool {
    &&& s.local.ip.len() == 4
    &&& s.remote.ip.len() == 4
    &&& s.local_mss <= MSS
    &&& !s.cookie_secret_set
    &&& s.send_ring.len() == 0
    &&& s.recv_ring.len() == 0
    &&& forall|i: int| 0 <= i < s.reasm.runs.len() ==> !used(#[trigger] s.reasm.runs[i])
    &&& forall|k: int| 0 <= k < s.tx.len() ==> no_data(#[trigger] s.tx[k])
}

/// What [`dry`] speaks of is the same.
spec fn same(s: TcbView, t: TcbView) -> bool {
    &&& t.local == s.local
    &&& t.remote == s.remote
    &&& t.local_mss == s.local_mss
    &&& t.cookie_secret_set == s.cookie_secret_set
    &&& t.send_ring == s.send_ring
    &&& t.recv_ring == s.recv_ring
    &&& t.reasm == s.reasm
    &&& t.tx == s.tx
}

proof fn lemma_emit_dry(s: TcbView, bits: u8, seq: u32, ack: u32, opts: OptionsView)
    requires
        dry(s),
        options_fit(opts),
    ensures
        dry(emit(s, bits, seq, ack, opts, Seq::empty())),
{
    reveal(emit);
    let t = emit(s, bits, seq, ack, opts, Seq::empty());
    if !tx_full(s) {
        reveal(datagram_out);
        reveal(segment_out);
        let g = segment_out(s, bits, seq, ack, opts, Seq::empty());
        law_emit_then_parse_round_trip(g, s.ip_id, Seq::empty());
        assert(packet(g, s.ip_id) + Seq::<u8>::empty() =~= packet(g, s.ip_id));
        assert forall|k: int| 0 <= k < t.tx.len() implies no_data(#[trigger] t.tx[k]) by {
            if k < s.tx.len() {
                assert(t.tx[k] == s.tx[k]);
            }
        }
    }
}

proof fn lemma_pure_ack_dry(s: TcbView)
    requires
        dry(s),
    ensures
        dry(pure_ack(s)),
{
    reveal(pure_ack);
    reveal(ack_sent);
    lemma_options_fit(s);
    lemma_emit_dry(s, flags::ACK, s.snd_nxt, s.rcv_nxt, data_opts(s));
}

proof fn lemma_reset_reply_dry(s: TcbView, seq: u32, ack: u32)
    requires
        dry(s),
    ensures
        dry(reset_reply(s, seq, ack)),
{
    reveal(reset_reply);
    lemma_options_fit(s);
    lemma_emit_dry(s, flags::RST, seq, ack, no_options());
}

proof fn lemma_send_fresh_dry(s: TcbView)
    requires
        dry(s),
    ensures
        dry(send_fresh(s).0),
{
    reveal(send_fresh);
    reveal(sendable);
    reveal(arm_persist);
    reveal(rto_kept);
    if fin_due(s) && !tx_full(s) {
        reveal(emit_fin);
        lemma_options_fit(s);
        let bits = flags::FIN | flags::ACK;
        lemma_emit_dry(s, bits, s.snd_nxt, s.rcv_nxt, data_opts(s));
        reveal(fin_placed);
        reveal(nxt_moved);
        reveal(bump_max);
        reveal(ack_sent);
        reveal(arm_rto_if_idle);
        reveal(arm_rto);
    }
}

/// With nothing buffered there is nothing to send again.
proof fn lemma_retransmit_dry(s: TcbView, seq: u32, bytes: int)
    requires
        dry(s),
    ensures
        retransmit(s, seq, bytes) == s,
{
    reveal(retransmit);
}

proof fn lemma_send_one_dry(s: TcbView)
    requires
        dry(s),
    ensures
        dry(send_one(s).0),
{
    reveal(send_one);
    reveal(recovery_left);
    reveal(send_lost);
    reveal(lost_taken);
    reveal(send_recovery);
    let a = recovery_left(s);
    assert(dry(a));
    assert forall|u: TcbView, seq: u32, n: int| dry(u) implies #[trigger] retransmit(u, seq, n)
        == u by {
        lemma_retransmit_dry(u, seq, n);
    }
    lemma_send_fresh_dry(s);
    lemma_send_fresh_dry(a);
    lemma_send_fresh_dry(lost_taken(s));
    lemma_send_fresh_dry(lost_taken(a));
}

proof fn lemma_send_some_dry(s: TcbView, turns: nat)
    requires
        dry(s),
    ensures
        dry(send_some(s, turns)),
    decreases turns,
{
    reveal_with_fuel(send_some, 2);
    if turns > 0 {
        lemma_send_one_dry(s);
        lemma_send_some_dry(send_one(s).0, (turns - 1) as nat);
    }
}

proof fn lemma_send_data_dry(s: TcbView)
    requires
        dry(s),
    ensures
        dry(send_data(s)),
{
    reveal(send_data);
    lemma_send_some_dry(s, TX_RING_CAP as nat + 2);
}

proof fn lemma_rack_scan_dry(s: TcbView)
    ensures
        same(s, rack_scan(s)),
        same(s, begin_recovery(s)),
{
    lemma_rack_scan(s);
    lemma_rack_scan_out(s);
    reveal(begin_recovery);
    reveal(recovering);
    reveal(arm_rto);
}

/// Notes and timers of an acknowledgement.
proof fn lemma_ack_notes_dry(s: TcbView, g: SegmentView, n: u32)
    ensures
        same(s, note_sacks(note_echo(patience_restored(s), g), g).0),
        same(s, count_repeat(s, g)),
        same(s, delivery_credited(s, n)),
        same(s, take_window(s, g.window)),
        same(s, ack_prune(s)),
        same(s, ack_recovery(s, n)),
        same(s, ack_fin(ack_timing(tlp_reset(s, n), g))),
{
    reveal(patience_restored);
    reveal(note_echo);
    reveal(recovering);
    reveal(note_sacks);
    reveal(sacks_noted);
    reveal(count_repeat);
    reveal(repeat_counted);
    lemma_rack_scan_dry(s);
    lemma_rack_scan_dry(repeat_counted(s));
    reveal(delivery_credited);
    reveal(take_window);
    reveal(ack_prune);
    reveal(delivery_noted);
    reveal(records_pruned);
    reveal(ack_recovery);
    reveal(rxt_caught_up);
    reveal(recovery_ended);
    reveal(ack_fin);
    reveal(ack_timing);
    reveal(ack_sample);
    reveal(tlp_reset);
    reveal(rtt_from_echo);
    reveal(rtt_from_probe);
    reveal(probe_dropped);
    reveal(rtt_sample);
    reveal(rto_stopped);
    reveal(arm_rto);
}

proof fn lemma_take_ack_dry(s: TcbView, g: SegmentView)
    requires
        dry(s),
    ensures
        dry(take_ack(s, g)),
{
    reveal(take_ack);
    lemma_pure_ack_dry(s);
    let (t, newly) = note_sacks(note_echo(patience_restored(s), g), g);
    lemma_ack_notes_dry(s, g, 0);
    reveal(ack_repeated);
    let a = count_repeat(t, g);
    lemma_ack_notes_dry(t, g, 0);
    lemma_ack_notes_dry(a, g, newly);
    let b = if newly > 0 {
        delivery_credited(a, newly)
    } else {
        a
    };
    lemma_rack_scan_dry(b);
    lemma_ack_notes_dry(rack_scan(b), g, 0);
    reveal(ack_advanced);
    let acked = g.ack.wrapping_sub(t.snd_una);
    let c = ack_advance(t, g.ack);
    assert(dry(c)) by {
        reveal(ack_advance);
        reveal(nxt_caught_up);
        reveal(user_timer_restarted);
        reveal(una_moved);
        reveal(data_acked);
    }
    lemma_ack_notes_dry(c, g, acked);
    let d = ack_prune(c);
    lemma_ack_notes_dry(d, g, acked);
    let e = ack_recovery(d, acked);
    lemma_rack_scan_dry(e);
    let f = rack_scan(e);
    lemma_ack_notes_dry(f, g, acked);
    let h = ack_fin(ack_timing(tlp_reset(f, acked), g));
    lemma_ack_notes_dry(h, g, acked);
}

proof fn lemma_on_synchronised_dry(s: TcbView, g: SegmentView)
    requires
        dry(s),
        g.payload.len() == 0,
    ensures
        dry(on_synchronised(s, g)),
{
    reveal(on_synchronised);
    let t = note_marks(s, g);
    assert(dry(t)) by {
        reveal(note_marks);
    }
    lemma_take_ack_dry(t, g);
    lemma_pure_ack_dry(t);
    lemma_pure_ack_dry(take_ack(t, g));
    reveal(refuse);
    reveal(accept);
    let a = if g.has(flags::ACK) {
        take_ack(t, g)
    } else {
        t
    };
    let (b, filled) = take_payload(a, g);
    assert(b == a) by {
        reveal(take_payload);
    }
    let c = take_fin(b, g);
    assert(dry(c)) by {
        reveal(take_fin);
        reveal(fin_received);
    }
    let advanced = c.rcv_nxt != t.rcv_nxt;
    assert(dry(answer(c, g, advanced, filled))) by {
        reveal(answer);
        reveal(owe_ack);
        reveal(ack_owed);
        reveal(ack_timed);
        lemma_pure_ack_dry(c);
        lemma_pure_ack_dry(ack_owed(c));
    }
    lemma_send_data_dry(answer(c, g, advanced, filled));
}

proof fn lemma_emit_synack_dry(s: TcbView)
    requires
        dry(s),
    ensures
        dry(emit_synack(s)),
{
    reveal(emit_synack);
    lemma_options_fit(s);
    let bits = flags::SYN | flags::ACK | (if s.ecn_enabled {
        flags::ECE
    } else {
        0u8
    });
    lemma_emit_dry(s, bits, s.iss, s.rcv_nxt, synack_opts(s));
}

proof fn lemma_syn_in_flight_dry(s: TcbView)
    ensures
        same(s, syn_in_flight(s)),
{
    reveal(syn_in_flight);
    reveal(syn_counted);
    reveal(bump_max);
    reveal(arm_rto);
}

proof fn lemma_send_syn_dry(s: TcbView)
    requires
        dry(s),
    ensures
        dry(send_syn(s)),
{
    reveal(send_syn);
    lemma_options_fit(s);
    let bits = flags::SYN | flags::ECE | flags::CWR;
    lemma_emit_dry(s, bits, s.iss, 0, syn_opts(s));
    lemma_syn_in_flight_dry(emit(s, bits, s.iss, 0, syn_opts(s), Seq::empty()));
}

proof fn lemma_reset_dry(s: TcbView)
    requires
        dry(s),
    ensures
        dry(reset(s)),
        dry(relisten(s)),
{
    reveal(reset);
    reveal(relisten);
    reveal(unpinned);
    assert forall|i: int| 0 <= i < nothing_held().runs.len() implies !used(
        #[trigger] nothing_held().runs[i],
    ) by {}
}

proof fn lemma_syn_accepted_dry(s: TcbView, g: SegmentView)
    requires
        dry(s),
        g.src_ip.len() == 4,
    ensures
        dry(syn_accepted(s, g)),
{
    reveal(syn_accepted);
    lemma_reset_dry(s);
    let t = take_syn(reset(s), g);
    assert(dry(t)) by {
        reveal(take_syn);
        reveal(pinned);
        reveal(take_offer);
        reveal(ts_agreed);
        reveal(agreed);
        reveal(window_updated);
    }
    lemma_emit_synack_dry(t);
    reveal(half_open);
    let h = half_open(emit_synack(t));
    lemma_syn_in_flight_dry(h);
}

proof fn lemma_synack_accepted_dry(s: TcbView, g: SegmentView)
    requires
        dry(s),
    ensures
        dry(synack_accepted(s, g)),
{
    reveal(synack_accepted);
    let a = syn_acked(take_offer(s, g), g.ack);
    let b = take_synack_options(a, g);
    let c = rtt_from_probe(b, g.ack);
    let d = in_state(rto_stopped(c), State::Established);
    assert(dry(d)) by {
        reveal(take_offer);
        reveal(syn_acked);
        reveal(take_synack_options);
        reveal(ts_agreed);
        reveal(rtt_from_echo);
        reveal(rtt_sample);
        reveal(agreed);
        reveal(rtt_from_probe);
        reveal(probe_dropped);
        reveal(rto_stopped);
        reveal(in_state);
    }
    lemma_pure_ack_dry(d);
}

/// A datagram without data leaves a connection dry.
pub proof fn lemma_injected_dry(s: TcbView, b: Seq<u8>)
    requires
        dry(s),
        no_data(b),
    ensures
        dry(injected(s, b).0),
{
    if let Some(g) = parse_packet(b) {
        if for_us(s, g) {
            assert(g.src_ip.len() == 4);
            reveal(on_segment);
            reveal(on_reset);
            reveal(reset_by_peer);
            lemma_reset_dry(s);
            lemma_reset_reply_dry(s, g.ack, 0);
            lemma_reset_reply_dry(s, 0, g.seq.wrapping_add(1));
            reveal(on_listen);
            lemma_syn_accepted_dry(s, g);
            reveal(on_syn_sent);
            lemma_synack_accepted_dry(s, g);
            reveal(on_syn_rcvd);
            lemma_emit_synack_dry(s);
            let h = handshake_done(s, g);
            assert(dry(h)) by {
                reveal(handshake_done);
            }
            lemma_on_synchronised_dry(h, g);
            lemma_on_synchronised_dry(s, g);
            assert(dry(on_segment(s, g).0));
            reveal(peer_alive);
        }
    }
}

proof fn lemma_given_up_dry(s: TcbView)
    requires
        dry(s),
    ensures
        dry(given_up(s)),
{
    reveal(given_up);
    assert forall|i: int| 0 <= i < nothing_held().runs.len() implies !used(
        #[trigger] nothing_held().runs[i],
    ) by {}
}

proof fn lemma_tick_rto_dry(s: TcbView)
    requires
        dry(s),
    ensures
        dry(tick_rto(s)),
{
    reveal(tick_rto);
    let t = collapse(count_timeout(s));
    assert(dry(t)) by {
        reveal(count_timeout);
        reveal(collapse);
    }
    reveal(resend_handshake);
    lemma_send_syn_dry(t);
    let u = retry_counted(t);
    assert(dry(u)) by {
        reveal(retry_counted);
    }
    lemma_reset_dry(u);
    lemma_emit_synack_dry(u);
    lemma_syn_in_flight_dry(emit_synack(u));
}

proof fn lemma_tick_limits_dry(s: TcbView)
    requires
        dry(s),
    ensures
        dry(tick_user_timeout(tick_keepalive(s))),
{
    reveal(tick_keepalive);
    lemma_given_up_dry(s);
    lemma_options_fit(s);
    let p = s.snd_nxt.wrapping_sub(1);
    lemma_emit_dry(s, flags::ACK, p, s.rcv_nxt, data_opts(s));
    reveal(keepalive_counted);
    let t = tick_keepalive(s);
    assert(dry(t));
    reveal(tick_user_timeout);
    lemma_given_up_dry(t);
    reveal(user_timer_set);
}

/// Driving the timers leaves a connection dry.
pub proof fn lemma_ticked_dry(s: TcbView)
    requires
        dry(s),
    ensures
        dry(ticked(s)),
{
    let a = tick_time_wait(s);
    assert(dry(a)) by {
        reveal(tick_time_wait);
    }
    if rto_gives_up(a) {
        assert(dry(count_timeout(a))) by {
            reveal(count_timeout);
        }
        lemma_given_up_dry(count_timeout(a));
    } else {
        lemma_tick_rto_dry(a);
        let b = tick_rto(a);
        let c = tick_rack(b);
        assert(dry(c)) by {
            reveal(tick_rack);
            reveal(rack_disarmed);
            lemma_rack_scan_dry(rack_disarmed(b));
        }
        let d = tick_tlp(c);
        assert(dry(d)) by {
            reveal(tick_tlp);
            reveal(fire_tlp);
            reveal(tlp_disarmed);
            reveal(tlp_spent);
            assert forall|u: TcbView, seq: u32, n: int| dry(u) implies #[trigger] retransmit(
                u,
                seq,
                n,
            ) == u by {
                lemma_retransmit_dry(u, seq, n);
            }
            assert(dry(tlp_disarmed(c)));
        }
        let e = tick_persist(d);
        assert(dry(e)) by {
            reveal(tick_persist);
            reveal(persist_backed_off);
        }
        lemma_tick_limits_dry(e);
        let t = tick_timers(a);
        assert(dry(t)) by {
            reveal(tick_timers);
        }
        lemma_send_data_dry(t);
        lemma_pure_ack_dry(send_data(t));
        reveal(tick_ack);
    }
}

/// Closing leaves a connection dry.
pub proof fn lemma_closed_dry(s: TcbView)
    requires
        dry(s),
    ensures
        dry(closed(s)),
{
    reveal(in_state);
    reveal(unlistened);
    lemma_send_data_dry(in_state(s, State::FinWait1));
    lemma_send_data_dry(in_state(s, State::LastAck));
}

/// Opening leaves a connection dry.
pub proof fn lemma_opened_dry(s: TcbView)
    requires
        dry(s),
    ensures
        dry(connected(s)),
        dry(listening(s)),
{
    let o = opening(s);
    assert(dry(o)) by {
        reveal(opening);
    }
    lemma_send_syn_dry(o);
    let l = open_to_all(s);
    assert(dry(l)) by {
        reveal(open_to_all);
    }
    lemma_reset_dry(l);
    reveal(in_state);
}

} // verus!
