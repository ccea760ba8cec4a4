//! Every round trip moves a connection on: what a timeout sends again is what the peer
//! waits for, what arrives in order is taken and acknowledged, and what is acknowledged
//! is done with.

use crate::num::min;
use crate::reassembly::MAX_HOLES;
use crate::state::synchronized;
use crate::seq::{seq_gt, seq_le};
use crate::tcb::laws::acking::{lemma_ack_advanced_sound, lemma_note_sound, lemma_take_ack_sound};
use crate::tcb::laws::delivery::{lemma_first_starting, lemma_run_drained, rx_ok};
use crate::tcb::laws::frame::{
    lemma_arm, lemma_emit, lemma_fire_tlp, lemma_nxt_moved, lemma_pure_ack, lemma_rack_scan,
    lemma_send_data, only_sent,
};
use crate::tcb::laws::segments::{lemma_answer_send, lemma_take_payload_send};
use crate::tcb::laws::soundness::sound;
use crate::tcb::model::{
    accept, acceptable, answer, collapse, count_timeout, data_opts, drain, drain_runs, emit,
    emit_window_probe, fin_received, flight, for_us, given_up, injected, keepalive_counted,
    note_echo, note_marks, note_sacks, nxt_moved, on_reset, on_segment, on_synchronised,
    patience_restored, peer_alive, persist_backed_off, rack_disarmed, received, refuse,
    resend_handshake, reset_by_peer, ring_bytes, rto_gives_up, run_drained, send_data,
    set_aside, take_ack, take_fin, take_in_order, take_payload, takes_data, tick_ack,
    tick_keepalive, tick_persist, tick_rack, tick_rto, tick_time_wait, tick_timers, tick_tlp,
    tick_user_timeout, ticked, user_timer_set, window_updated, TcbView,
};
use crate::wire::{flags, parse_packet, SegmentView};
use vstd::prelude::*;

verus! {

/// `t` has received as many more bytes than `s` as its ring has grown, and `fin` more
/// sequence numbers.
pub open spec fn gained(s: TcbView, t: TcbView, fin: int) -> bool {
    &&& t.cap == s.cap
    &&& s.recv_ring.len() <= t.recv_ring.len() <= t.cap
    &&& t.recv_ring.take(s.recv_ring.len() as int) == s.recv_ring
    &&& t.rcv_nxt == s.rcv_nxt.wrapping_add((t.recv_ring.len() - s.recv_ring.len() + fin) as u32)
}

/// Receiving more twice is receiving more.
proof fn lemma_gained_again(s: TcbView, t: TcbView, u: TcbView, fin: int)
    requires
        gained(s, t, 0),
        gained(t, u, fin),
        s.cap <= 0x4000_0000,
        0 <= fin <= 1,
    ensures
        gained(s, u, fin),
{
    let n = t.recv_ring.len() - s.recv_ring.len();
    let m = u.recv_ring.len() - t.recv_ring.len() + fin;
    assert(s.rcv_nxt.wrapping_add(n as u32).wrapping_add(m as u32) == s.rcv_nxt.wrapping_add(
        (n + m) as u32,
    ));
    assert(u.recv_ring.take(s.recv_ring.len() as int) =~= u.recv_ring.take(
        t.recv_ring.len() as int,
    ).take(s.recv_ring.len() as int));
}

/// What is the same has gained nothing.
proof fn lemma_gained_nothing(s: TcbView, t: TcbView)
    requires
        t.cap == s.cap,
        t.rcv_nxt == s.rcv_nxt,
        t.recv_ring == s.recv_ring,
        s.recv_ring.len() <= s.cap,
    ensures
        gained(s, t, 0),
{
    assert(t.recv_ring.take(s.recv_ring.len() as int) =~= s.recv_ring);
}

proof fn lemma_drain_runs_gained(s: TcbView, turns: nat)
    requires
        rx_ok(s),
        s.cap <= 0x4000_0000,
    ensures
        gained(s, drain_runs(s, turns), 0),
    decreases turns,
{
    reveal_with_fuel(drain_runs, 2);
    let i = crate::reassembly::first_starting(s.reasm.runs, s.rcv_nxt, 0);
    lemma_first_starting(s.reasm.runs, s.rcv_nxt, 0);
    if turns > 0 && i < s.reasm.runs.len() {
        let len = s.reasm.runs[i].data.len();
        let n = min(len as int, s.cap - s.recv_ring.len());
        lemma_run_drained(s, i, n);
        let t = run_drained(s, i, n);
        assert(gained(s, t, 0)) by {
            reveal(run_drained);
            assert(t.recv_ring.take(s.recv_ring.len() as int) =~= s.recv_ring);
        }
        if n >= len {
            lemma_drain_runs_gained(t, (turns - 1) as nat);
            lemma_gained_again(s, t, drain_runs(t, (turns - 1) as nat), 0);
        }
    } else {
        assert(s.recv_ring.take(s.recv_ring.len() as int) =~= s.recv_ring);
    }
}

proof fn lemma_drain_gained(s: TcbView)
    requires
        rx_ok(s),
        s.cap <= 0x4000_0000,
    ensures
        gained(s, drain(s), 0),
{
    reveal(drain);
    reveal(window_updated);
    lemma_drain_runs_gained(s, MAX_HOLES as nat + 2);
}

proof fn lemma_take_payload_gained(s: TcbView, g: SegmentView)
    requires
        rx_ok(s),
        s.cap <= 0x4000_0000,
    ensures
        gained(s, take_payload(s, g).0, 0),
        take_payload(s, g).0.state == s.state,
{
    reveal(take_payload);
    reveal(take_in_order);
    reveal(received);
    reveal(set_aside);
    reveal(window_updated);
    lemma_take_payload_send(s, g);
    let t = received(s, g.payload);
    assert(gained(s, t, 0)) by {
        assert(t.recv_ring.take(s.recv_ring.len() as int) =~= s.recv_ring);
    }
    lemma_drain_gained(t);
    lemma_gained_again(s, t, drain(t), 0);
    let u = take_payload(s, g).0;
    if g.payload.len() == 0 || !takes_data(s.state) || g.seq != s.rcv_nxt {
        lemma_gained_nothing(s, u);
    }
}

/// What a segment in the window makes of the receive side.
proof fn lemma_accept_gained(s: TcbView, g: SegmentView)
    requires
        sound(s),
        rx_ok(s),
        synchronized(s.state),
    ensures
        gained(s, accept(s, g), 0) || g.has(flags::FIN) && gained(s, accept(s, g), 1),
{
    reveal(accept);
    if g.has(flags::ACK) {
        lemma_take_ack_sound(s, g);
    }
    let a = if g.has(flags::ACK) {
        take_ack(s, g)
    } else {
        s
    };
    lemma_take_payload_gained(a, g);
    let (b, filled) = take_payload(a, g);
    let c = take_fin(b, g);
    reveal(take_fin);
    reveal(fin_received);
    let d = answer(c, g, c.rcv_nxt != s.rcv_nxt, filled);
    lemma_answer_send(c, g, c.rcv_nxt != s.rcv_nxt, filled);
    lemma_send_data(d);
    let n = b.recv_ring.len() - s.recv_ring.len();
    assert(s.rcv_nxt.wrapping_add(n as u32).wrapping_add(1) == s.rcv_nxt.wrapping_add(
        (n + 1) as u32,
    ));
}

/// What was received is never taken back: whatever a datagram holds, the next byte
/// that a connection expects moves on by exactly the bytes that the application can
/// read more than before, and one more for the peer's FIN.
pub proof fn law_received_never_goes_back(s: TcbView, b: Seq<u8>)
    requires
        sound(s),
        rx_ok(s),
        synchronized(s.state),
        synchronized(injected(s, b).0.state),
    ensures
        gained(s, injected(s, b).0, 0) || gained(s, injected(s, b).0, 1),
{
    if let Some(g) = parse_packet(b) {
        if for_us(s, g) {
            reveal(on_segment);
            reveal(peer_alive);
            reveal(on_reset);
            reveal(reset_by_peer);
            reveal(on_synchronised);
            let t = note_marks(s, g);
            assert(sound(t) && rx_ok(t) && t.cap == s.cap && t.state == s.state && t.rcv_nxt
                == s.rcv_nxt && t.recv_ring == s.recv_ring) by {
                reveal(note_marks);
            }
            lemma_gained_nothing(s, t);
            lemma_gained_nothing(s, s);
            lemma_accept_gained(t, g);
            lemma_take_ack_sound(t, g);
            reveal(refuse);
            lemma_pure_ack(t);
            lemma_pure_ack(take_ack(t, g));
            let u = refuse(t, g);
            lemma_gained_nothing(s, u);
        }
    }
    lemma_gained_nothing(s, s);
}

/// The timers take nothing back either, of what was received or of what is buffered.
pub proof fn law_tick_keeps_what_was_received(s: TcbView)
    requires
        sound(s),
        rx_ok(s),
        synchronized(s.state),
        synchronized(ticked(s).state),
    ensures
        gained(s, ticked(s), 0),
        ticked(s).recv_ring == s.recv_ring,
        ticked(s).snd_una == s.snd_una,
        ticked(s).send_ring == s.send_ring,
        ticked(s).local == s.local && ticked(s).remote == s.remote,
{
    let a = tick_time_wait(s);
    assert(a.rcv_nxt == s.rcv_nxt && a.recv_ring == s.recv_ring && a.cap == s.cap && a.snd_una
        == s.snd_una && a.send_ring == s.send_ring && a.local == s.local && a.remote == s.remote && (
    a.state == s.state || a.state is Closed)) by {
        reveal(tick_time_wait);
    }
    reveal(given_up);
    if !rto_gives_up(a) {
        reveal(tick_timers);
        let b = tick_rto(a);
        assert(b.rcv_nxt == a.rcv_nxt && b.recv_ring == a.recv_ring && b.cap == a.cap && b.snd_una
            == a.snd_una && b.send_ring == a.send_ring && b.local == a.local && b.remote == a.remote
            && b.state == a.state) by {
            reveal(tick_rto);
            reveal(count_timeout);
            reveal(collapse);
            reveal(resend_handshake);
        }
        reveal(tick_rack);
        reveal(rack_disarmed);
        lemma_rack_scan(rack_disarmed(b));
        let c = tick_rack(b);
        reveal(tick_tlp);
        lemma_fire_tlp(c);
        let d = tick_tlp(c);
        lemma_tick_persist_only(d);
        let e = tick_persist(d);
        lemma_tick_limits_only(e);
        let t = tick_timers(a);
        lemma_send_data(t);
        lemma_pure_ack(send_data(t));
        reveal(tick_ack);
        lemma_gained_nothing(s, ticked(s));
    }
}

pub proof fn lemma_tick_persist_only(s: TcbView)
    ensures
        only_sent(s, tick_persist(s)),
{
    reveal(tick_persist);
    reveal(persist_backed_off);
    reveal(emit_window_probe);
    let p = ring_bytes(s, flight(s) as int, 1);
    lemma_emit(s, flags::ACK | flags::PSH, s.snd_nxt, s.rcv_nxt, data_opts(s), p);
    let t = emit(s, flags::ACK | flags::PSH, s.snd_nxt, s.rcv_nxt, data_opts(s), p);
    lemma_nxt_moved(t, 1);
    lemma_arm(nxt_moved(t, 1), nxt_moved(t, 1).snd_nxt);
}

pub proof fn lemma_tick_limits_only(s: TcbView)
    ensures
        ({
            let t = tick_user_timeout(tick_keepalive(s));
            t.state is Closed || t.rcv_nxt == s.rcv_nxt && t.recv_ring == s.recv_ring && t.cap
                == s.cap && t.snd_una == s.snd_una && t.send_ring == s.send_ring && t.local
                == s.local && t.remote == s.remote && t.state == s.state
        }),
{
    reveal(tick_keepalive);
    reveal(tick_user_timeout);
    reveal(user_timer_set);
    reveal(keepalive_counted);
    reveal(given_up);
    let p = s.snd_nxt.wrapping_sub(1);
    lemma_emit(s, flags::ACK, p, s.rcv_nxt, data_opts(s), Seq::empty());
}

/// A segment is looked at: it is in the window, or is an old duplicate.
pub open spec fn looked_at(s: TcbView, g: SegmentView) -> bool {
    acceptable(s, g.seq, g.payload.len() as u32) || seq_le(
        g.seq.wrapping_add(g.payload.len() as u32),
        s.rcv_nxt,
    )
}

/// An acknowledgement does what it says: one of something that is outstanding makes
/// what it names the oldest unacknowledged byte, and exactly the bytes before that
/// leave what is buffered.
pub proof fn law_ack_takes_off_what_it_covers(s: TcbView, b: Seq<u8>)
    requires
        sound(s),
        synchronized(s.state),
        parse_packet(b) matches Some(g) && for_us(s, g) && g.has(flags::ACK) && !g.has(flags::RST)
            && looked_at(s, g) && seq_gt(g.ack, s.snd_una) && seq_le(g.ack, s.snd_max),
    ensures
        ({
            let t = injected(s, b).0;
            let ack = parse_packet(b)->0.ack;
            &&& t.snd_una == ack
            &&& s.fin_sent ==> t.send_ring.len() == 0
            &&& !s.fin_sent ==> t.send_ring == s.send_ring.skip(ack.wrapping_sub(s.snd_una) as int)
        }),
{
    let g = parse_packet(b)->0;
    reveal(on_segment);
    reveal(peer_alive);
    reveal(on_synchronised);
    reveal(acceptable);
    let t = note_marks(s, g);
    assert(sound(t) && t.state == s.state && t.rcv_nxt == s.rcv_nxt && t.rcv_wnd == s.rcv_wnd
        && t.snd_una == s.snd_una && t.snd_max == s.snd_max && t.send_ring == s.send_ring
        && t.fin_sent == s.fin_sent) by {
        reveal(note_marks);
    }
    let a = take_ack(t, g);
    assert(a.snd_una == g.ack && (s.fin_sent ==> a.send_ring.len() == 0) && (!s.fin_sent
        ==> a.send_ring == s.send_ring.skip(g.ack.wrapping_sub(s.snd_una) as int))) by {
        reveal(take_ack);
        lemma_note_sound(t, g);
        let k = note_sacks(note_echo(patience_restored(t), g), g).0;
        lemma_ack_advanced_sound(k, g);
    }
    reveal(refuse);
    lemma_pure_ack(a);
    reveal(accept);
    lemma_take_payload_send(a, g);
    let (p, filled) = take_payload(a, g);
    let c = take_fin(p, g);
    assert(c.snd_una == p.snd_una && c.send_ring == p.send_ring) by {
        reveal(take_fin);
        reveal(fin_received);
    }
    lemma_answer_send(c, g, c.rcv_nxt != t.rcv_nxt, filled);
    lemma_send_data(answer(c, g, c.rcv_nxt != t.rcv_nxt, filled));
}

/// A segment that continues what was received, and has room, is in the window.
proof fn lemma_next_is_acceptable(s: TcbView, len: u32)
    ensures
        acceptable(s, s.rcv_nxt, len),
{
    reveal(acceptable);
}

/// What comes in order is taken: a segment that starts at the next expected byte and
/// has room is handed on whole, behind what waits for the application.
pub proof fn law_next_data_is_taken(s: TcbView, b: Seq<u8>)
    requires
        sound(s),
        rx_ok(s),
        takes_data(s.state),
        parse_packet(b) matches Some(g) && for_us(s, g) && !g.has(flags::RST) && g.seq == s.rcv_nxt
            && g.payload.len() <= s.cap - s.recv_ring.len(),
    ensures
        ({
            let t = injected(s, b).0;
            let data = parse_packet(b)->0.payload;
            &&& t.recv_ring.len() >= s.recv_ring.len() + data.len()
            &&& t.recv_ring.take((s.recv_ring.len() + data.len()) as int) == s.recv_ring + data
            &&& gained(s, t, 0) || gained(s, t, 1)
        }),
{
    let g = parse_packet(b)->0;
    reveal(on_segment);
    reveal(peer_alive);
    reveal(on_synchronised);
    let t = note_marks(s, g);
    assert(sound(t) && rx_ok(t) && t.cap == s.cap && t.state == s.state && t.rcv_nxt == s.rcv_nxt
        && t.recv_ring == s.recv_ring) by {
        reveal(note_marks);
    }
    lemma_next_is_acceptable(t, g.payload.len() as u32);
    lemma_accept_gained(t, g);
    reveal(accept);
    lemma_take_ack_sound(t, g);
    let a = if g.has(flags::ACK) {
        take_ack(t, g)
    } else {
        t
    };
    let (p, filled) = take_payload(a, g);
    let whole = a.recv_ring + g.payload;
    assert(p.recv_ring.len() >= whole.len() && p.recv_ring.take(whole.len() as int) == whole) by {
        reveal(take_payload);
        reveal(window_updated);
        if g.payload.len() > 0 {
            reveal(take_in_order);
            reveal(received);
            let r = received(a, g.payload);
            assert(r.recv_ring =~= whole);
            assert(rx_ok(r));
            lemma_drain_gained(r);
        } else {
            assert(whole =~= a.recv_ring);
            assert(p.recv_ring.take(whole.len() as int) =~= whole);
        }
    }
    let c = take_fin(p, g);
    assert(c.recv_ring == p.recv_ring) by {
        reveal(take_fin);
        reveal(fin_received);
    }
    lemma_answer_send(c, g, c.rcv_nxt != t.rcv_nxt, filled);
    lemma_send_data(answer(c, g, c.rcv_nxt != t.rcv_nxt, filled));
}

} // verus!
