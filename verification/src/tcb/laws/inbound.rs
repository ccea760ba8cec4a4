//! The stream laws for the calls of a connection: what arrives, what the timers do
//! and what the application does keep the receive side in agreement with the
//! peer's stream, and reading hands that stream over.

use crate::reassembly::laws::holds;
use crate::reassembly::{nothing_held, reasm_ok, used};
use crate::state::{synchronized, State};
use crate::tcb::laws::delivery::rx_ok;
use crate::tcb::laws::frame::{
    lemma_arm, lemma_emit, lemma_fire_tlp, lemma_nxt_moved, lemma_pure_ack, lemma_rack_scan,
    lemma_send_data,
};
use crate::tcb::laws::segments::{
    lemma_emit_synack_send, lemma_from_cookie_sound, lemma_handshake_done_sound,
};
use crate::tcb::laws::soundness::sound;
use crate::tcb::laws::stream::{
    continues, head, intact, lemma_continues_on, lemma_drain_agrees,
    lemma_on_synchronised_agrees, lemma_same_recv, nothing_in, peer_done, same_recv, Stream,
};
use crate::tcb::model::{
    aborted, agreed, app_recv, app_send, arm_rto, bump_max, closed, collapse, connected,
    cookie_restored, count_timeout, created, data_buffered, data_opts, data_read, drain, due,
    emit, emit_cookie, emit_synack, emit_window_probe, flight, for_us, from_cookie, given_up,
    half_open, handshake_done, in_state, injected, keepalive_counted, listening, nxt_moved,
    on_listen, on_reset, on_segment, on_syn_rcvd, on_syn_sent, open_to_all, opening, peer_alive,
    persist_backed_off, pinned, probe_dropped, pure_ack, rack_disarmed, relisten,
    resend_handshake, reset, reset_by_peer, reset_reply, retry_counted, ring_bytes,
    rto_gives_up, rto_stopped, rtt_from_echo, rtt_from_probe, rtt_sample, send_data, send_syn,
    syn_accepted, syn_acked, syn_counted, syn_in_flight, syn_opts, synack_accepted, take_offer,
    take_syn, take_synack_options, tick_ack, tick_keepalive, tick_persist, tick_rack, tick_rto,
    tick_time_wait, tick_timers, tick_tlp, tick_user_timeout, ticked, torn_down, ts_agreed,
    unlistened, unpinned, user_timer_set, window_updated, EndpointView, TcbView,
};
use crate::wire::options::no_options;
use crate::wire::{flags, parse_packet, SegmentView};
use vstd::prelude::*;

verus! {

/// A connection that has received nothing agrees with every stream.
pub proof fn lemma_nothing_in(s: TcbView, f: Stream)
    requires
        f.wf(),
        s.cap <= 0x4000_0000,
        rx_ok(s),
        nothing_in(s),
        s.error is None,
        !peer_done(s.state) || s.state is Closed,
    ensures
        intact(s, f),
{
    assert forall|x: u32, b: u8| #[trigger] holds(s.reasm.runs, x, b) implies (f.byte)(x)
        == Some(b) by {
        let i = choose|i: int|
            0 <= i < s.reasm.runs.len() && crate::reassembly::laws::run_holds(
                #[trigger] s.reasm.runs[i],
                x,
                b,
            );
        assert(used(s.reasm.runs[i]));
    }
}

proof fn lemma_reset_in(s: TcbView)
    ensures
        nothing_in(reset(s)),
        rx_ok(reset(s)),
        reset(s).error is None,
        reset(s).cap == s.cap,
{
    reveal(reset);
    assert forall|i: int| 0 <= i < nothing_held().runs.len() implies !used(
        #[trigger] nothing_held().runs[i],
    ) by {}
}

proof fn lemma_failed(s: TcbView, f: Stream)
    requires
        f.wf(),
        s.cap <= 0x4000_0000,
    ensures
        intact(given_up(s), f),
        intact(torn_down(s), f),
        rx_ok(s) ==> intact(reset_by_peer(s), f),
{
    reveal(given_up);
    reveal(torn_down);
    reveal(reset_by_peer);
    assert(reasm_ok(nothing_held()));
}

proof fn lemma_payload_len(b: Seq<u8>)
    requires
        parse_packet(b) is Some,
    ensures
        parse_packet(b)->0.payload.len() <= 0xFFFF,
{
}

proof fn lemma_synack_accepted_agrees(s: TcbView, g: SegmentView, f: Stream)
    requires
        intact(s, f),
        s.state is SynSent,
    ensures
        intact(synack_accepted(s, g), f),
{
    reveal(synack_accepted);
    reveal(take_offer);
    reveal(syn_acked);
    let a = syn_acked(take_offer(s, g), g.ack);
    let b = take_synack_options(a, g);
    assert(same_recv(a, b)) by {
        reveal(take_synack_options);
        reveal(ts_agreed);
        reveal(rtt_from_echo);
        reveal(rtt_sample);
        reveal(agreed);
    }
    let c = rtt_from_probe(b, g.ack);
    assert(same_recv(b, c)) by {
        reveal(rtt_from_probe);
        reveal(probe_dropped);
        reveal(rtt_sample);
    }
    reveal(rto_stopped);
    reveal(in_state);
    let d = in_state(rto_stopped(c), State::Established);
    lemma_pure_ack(d);
    assert(nothing_in(pure_ack(d)));
    lemma_nothing_in(pure_ack(d), f);
}

proof fn lemma_syn_accepted_agrees(s: TcbView, g: SegmentView, f: Stream)
    requires
        f.wf(),
        s.cap <= 0x4000_0000,
    ensures
        intact(syn_accepted(s, g), f),
{
    reveal(syn_accepted);
    lemma_reset_in(s);
    let a = reset(s);
    let b = take_syn(a, g);
    assert(b.cap == a.cap && b.recv_ring == a.recv_ring && b.reasm == a.reasm && b.error
        == a.error) by {
        reveal(take_syn);
        reveal(pinned);
        reveal(take_offer);
        reveal(ts_agreed);
        reveal(agreed);
        reveal(window_updated);
    }
    lemma_emit_synack_send(b);
    let c = half_open(emit_synack(b));
    reveal(half_open);
    let d = syn_in_flight(c);
    assert(same_recv(c, d) && d.state == c.state) by {
        reveal(syn_in_flight);
        reveal(syn_counted);
        reveal(bump_max);
        reveal(arm_rto);
    }
    assert(nothing_in(d));
    lemma_nothing_in(d, f);
}

proof fn lemma_from_cookie_agrees(s: TcbView, g: SegmentView, f: Stream)
    requires
        f.wf(),
        s.cap <= 0x4000_0000,
    ensures
        intact(from_cookie(s, g), f),
        from_cookie(s, g).error is None,
        from_cookie(s, g).state is Established,
{
    lemma_reset_in(s);
    reveal(from_cookie);
    reveal(pinned);
    reveal(cookie_restored);
    reveal(ts_agreed);
    reveal(window_updated);
    reveal(in_state);
    assert(nothing_in(from_cookie(s, g)));
    lemma_nothing_in(from_cookie(s, g), f);
}

proof fn lemma_on_segment_agrees(s: TcbView, g: SegmentView, f: Stream)
    requires
        sound(s),
        intact(s, f),
        g.payload.len() <= 0xFFFF,
        f.carries(g),
    ensures
        intact(on_segment(s, g).0, f),
        synchronized(s.state) && !g.has(flags::RST) ==> on_segment(s, g).0.error is None
            && continues(s, on_segment(s, g).0),
{
    reveal(on_segment);
    lemma_emit(s, flags::RST, g.ack, 0, no_options(), Seq::empty());
    lemma_emit(s, flags::RST, 0, g.seq.wrapping_add(1), no_options(), Seq::empty());
    reveal(reset_reply);
    lemma_same_recv(s, reset_reply(s, g.ack, 0), f);
    lemma_same_recv(s, reset_reply(s, 0, g.seq.wrapping_add(1)), f);
    if g.has(flags::RST) {
        reveal(on_reset);
        lemma_failed(s, f);
        lemma_relisten_agrees(s, f);
    } else if s.state is Listen {
        reveal(on_listen);
        assert(same_recv(s, emit_cookie(s, g)) && emit_cookie(s, g).state == s.state) by {
            reveal(emit_cookie);
        }
        lemma_same_recv(s, emit_cookie(s, g), f);
        lemma_syn_accepted_agrees(s, g, f);
        lemma_from_cookie_agrees(s, g, f);
        lemma_from_cookie_sound(s, g);
        lemma_on_synchronised_agrees(from_cookie(s, g), g, f);
    } else if s.state is SynSent {
        reveal(on_syn_sent);
        lemma_synack_accepted_agrees(s, g, f);
    } else if s.state is SynRcvd {
        reveal(on_syn_rcvd);
        lemma_emit_synack_send(s);
        lemma_same_recv(s, emit_synack(s), f);
        let t = handshake_done(s, g);
        assert(same_recv(s, t) && t.state is Established) by {
            reveal(handshake_done);
        }
        if g.ack == s.iss.wrapping_add(1) {
            lemma_handshake_done_sound(s, g);
            assert(nothing_in(t));
            lemma_nothing_in(t, f);
            lemma_on_synchronised_agrees(t, g, f);
        }
    } else if synchronized(s.state) {
        lemma_on_synchronised_agrees(s, g, f);
    }
}

proof fn lemma_relisten_agrees(s: TcbView, f: Stream)
    requires
        f.wf(),
        s.cap <= 0x4000_0000,
    ensures
        intact(relisten(s), f),
{
    reveal(relisten);
    reveal(unpinned);
    lemma_reset_in(s);
    assert(nothing_in(relisten(s)));
    lemma_nothing_in(relisten(s), f);
}

/// The states in which there may be something of the peer's to read.
pub open spec fn has_heard(st: State) -> bool {
    synchronized(st) || st is Closed
}

/// Delivery: if the datagrams that arrive carry segments of the peer's stream, in
/// whatever order, as often as they like and with whatever lost, then what waits
/// for the application is the stream, from where it has read up to on, without a
/// gap. A datagram never takes back or changes what waits.
pub proof fn law_inbound_keeps_the_stream(s: TcbView, b: Seq<u8>, f: Stream)
    requires
        sound(s),
        intact(s, f),
        f.carried_by(b),
    ensures
        intact(injected(s, b).0, f),
        has_heard(s.state) && injected(s, b).0.error is None ==> continues(s, injected(s, b).0),
{
    assert(s.recv_ring.take(s.recv_ring.len() as int) =~= s.recv_ring);
    if let Some(g) = parse_packet(b) {
        lemma_payload_len(b);
        if for_us(s, g) {
            lemma_on_segment_agrees(s, g, f);
            let t = on_segment(s, g).0;
            assert(same_recv(t, peer_alive(t)) && peer_alive(t).state == t.state) by {
                reveal(peer_alive);
            }
            lemma_same_recv(t, peer_alive(t), f);
            if g.has(flags::RST) && has_heard(s.state) {
                assert(t.error is Some) by {
                    reveal(on_segment);
                    reveal(on_reset);
                    reveal(reset_by_peer);
                }
            } else if synchronized(s.state) {
                lemma_continues_on(s, t, peer_alive(t));
            } else if s.state is Closed {
                assert(t == s) by {
                    reveal(on_segment);
                }
                lemma_continues_on(s, s, peer_alive(s));
            }
        }
    }
}

/// Reading hands the stream over: the bytes that the application gets are the
/// stream's from where it has read up to on, and the next read goes on behind
/// them.
pub proof fn law_read_returns_the_stream(s: TcbView, room: int, f: Stream)
    requires
        intact(s, f),
        room >= 0,
    ensures
        intact(app_recv(s, room).0, f),
        app_recv(s, room).1 matches Ok(n) ==> {
            &&& f.agrees(head(s), s.recv_ring.take(n))
            &&& head(app_recv(s, room).0) == head(s).wrapping_add(n as u32)
        },
{
    let (t, r) = app_recv(s, room);
    if let Ok(n) = r {
        assert forall|i: int| 0 <= i < n implies (f.byte)(head(s).wrapping_add(i as u32)) == Some(
            #[trigger] s.recv_ring.take(n)[i],
        ) by {
            assert(s.recv_ring.take(n)[i] == s.recv_ring[i]);
        }
        if n > 0 {
            reveal(data_read);
            reveal(window_updated);
            let a = data_read(s, n);
            assert(head(a) == head(s).wrapping_add(n as u32));
            assert forall|i: int| 0 <= i < a.recv_ring.len() implies (f.byte)(
                head(a).wrapping_add(i as u32),
            ) == Some(#[trigger] a.recv_ring[i]) by {
                assert(a.recv_ring[i] == s.recv_ring[i + n]);
                assert(head(a).wrapping_add(i as u32) == head(s).wrapping_add((i + n) as u32));
            }
            assert(intact(a, f));
            lemma_drain_agrees(a, f);
            lemma_same_recv(drain(a), t, f);
        }
    }
}

/// What the timers may make of the receive side.
spec fn timed(s: TcbView, t: TcbView, f: Stream) -> bool {
    ||| same_recv(s, t) && t.state == s.state
    ||| t.error is Some && intact(t, f)
    ||| s.state is SynRcvd && !(t.state is SynRcvd) && nothing_in(t) && intact(t, f)
}

proof fn lemma_tick_rto_recv(s: TcbView, f: Stream)
    requires
        f.wf(),
        s.cap <= 0x4000_0000,
    ensures
        timed(s, tick_rto(s), f),
        tick_rto(s).cap == s.cap,
{
    reveal(tick_rto);
    reveal(count_timeout);
    reveal(collapse);
    let t = collapse(count_timeout(s));
    if due(s, s.rto_deadline) {
        reveal(resend_handshake);
        reveal(retry_counted);
        if s.state is SynSent {
            reveal(send_syn);
            let bits = flags::SYN | flags::ECE | flags::CWR;
            lemma_emit(t, bits, t.iss, 0, syn_opts(t), Seq::empty());
            reveal(syn_in_flight);
            reveal(syn_counted);
            reveal(bump_max);
            reveal(arm_rto);
        } else if s.state is SynRcvd {
            let u = retry_counted(t);
            lemma_relisten_agrees(u, f);
            lemma_reset_in(u);
            assert(nothing_in(relisten(u)) && relisten(u).cap == u.cap && !(relisten(
                u,
            ).state is SynRcvd)) by {
                reveal(relisten);
                reveal(unpinned);
            }
            lemma_emit_synack_send(u);
            reveal(syn_in_flight);
            reveal(syn_counted);
            reveal(bump_max);
            reveal(arm_rto);
        }
    }
}

proof fn lemma_tick_probes_recv(s: TcbView)
    ensures
        same_recv(s, tick_persist(tick_tlp(tick_rack(s)))),
        tick_persist(tick_tlp(tick_rack(s))).state == s.state,
{
    reveal(tick_rack);
    reveal(rack_disarmed);
    lemma_rack_scan(rack_disarmed(s));
    let a = tick_rack(s);
    assert(same_recv(s, a) && a.state == s.state);
    reveal(tick_tlp);
    lemma_fire_tlp(a);
    let b = tick_tlp(a);
    reveal(tick_persist);
    reveal(persist_backed_off);
    let w = emit_window_probe(b);
    assert(same_recv(b, w) && w.state == b.state) by {
        reveal(emit_window_probe);
        let p = ring_bytes(b, flight(b) as int, 1);
        lemma_emit(b, flags::ACK | flags::PSH, b.snd_nxt, b.rcv_nxt, data_opts(b), p);
        let t = emit(b, flags::ACK | flags::PSH, b.snd_nxt, b.rcv_nxt, data_opts(b), p);
        lemma_nxt_moved(t, 1);
        lemma_arm(nxt_moved(t, 1), nxt_moved(t, 1).snd_nxt);
    }
}

proof fn lemma_tick_limits_recv(s: TcbView, f: Stream)
    requires
        f.wf(),
        s.cap <= 0x4000_0000,
    ensures
        timed(s, tick_user_timeout(tick_keepalive(s)), f),
{
    reveal(tick_keepalive);
    reveal(tick_user_timeout);
    reveal(user_timer_set);
    reveal(keepalive_counted);
    lemma_failed(s, f);
    let p = s.snd_nxt.wrapping_sub(1);
    lemma_emit(s, flags::ACK, p, s.rcv_nxt, data_opts(s), Seq::empty());
    let t = tick_keepalive(s);
    assert(t.cap == s.cap) by {
        reveal(given_up);
    }
    lemma_failed(t, f);
    assert(given_up(s).error is Some) by {
        reveal(given_up);
    }
    assert(t.error is Some && intact(t, f) || same_recv(s, t) && t.state == s.state);
    if t.error is Some && intact(t, f) {
        let u = tick_user_timeout(t);
        assert(u == given_up(t) || same_recv(t, u) && u.state == t.state);
        if u != given_up(t) {
            lemma_same_recv(t, u, f);
        }
        assert(given_up(t).error is Some) by {
            reveal(given_up);
        }
    }
    assert(given_up(t).error is Some) by {
        reveal(given_up);
    }
}

/// The timers keep what waits for the application in agreement with the stream; a
/// connection that they give up has failed.
pub proof fn law_tick_keeps_the_stream(s: TcbView, f: Stream)
    requires
        sound(s),
        intact(s, f),
    ensures
        intact(ticked(s), f),
        has_heard(s.state) && ticked(s).error is None ==> continues(s, ticked(s)) && ticked(
            s,
        ).recv_ring == s.recv_ring,
        !has_heard(s.state) && ticked(s).error is None ==> nothing_in(ticked(s)),
        ticked(s).state is SynRcvd ==> ticked(s).rcv_nxt == s.rcv_nxt,
{
    let a = tick_time_wait(s);
    assert(same_recv(s, a) && (a.state == s.state || s.state is TimeWait && a.state is Closed)) by {
        reveal(tick_time_wait);
    }
    lemma_same_recv(s, a, f);
    if rto_gives_up(a) {
        assert(count_timeout(a).cap == a.cap) by {
            reveal(count_timeout);
        }
        lemma_failed(count_timeout(a), f);
        assert(given_up(count_timeout(a)).error is Some) by {
            reveal(given_up);
        }
    } else {
        reveal(tick_timers);
        lemma_tick_rto_recv(a, f);
        let b = tick_rto(a);
        if same_recv(a, b) && b.state == a.state {
            lemma_same_recv(a, b, f);
        }
        lemma_tick_probes_recv(b);
        let c = tick_persist(tick_tlp(tick_rack(b)));
        lemma_same_recv(b, c, f);
        lemma_tick_limits_recv(c, f);
        let d = tick_user_timeout(tick_keepalive(c));
        if same_recv(c, d) && d.state == c.state {
            lemma_same_recv(c, d, f);
        }
        lemma_send_data(d);
        let e = send_data(d);
        lemma_same_recv(d, e, f);
        lemma_pure_ack(e);
        reveal(tick_ack);
        lemma_same_recv(e, tick_ack(e), f);
        if has_heard(s.state) && ticked(s).error is None {
            assert(same_recv(a, b));
            assert(same_recv(c, d));
            assert(same_recv(s, ticked(s)));
            assert(s.recv_ring.take(s.recv_ring.len() as int) =~= s.recv_ring);
        }
    }
}

/// Buffering data to send leaves what waits for the application alone.
pub proof fn law_send_keeps_the_stream(s: TcbView, data: Seq<u8>, f: Stream)
    requires
        intact(s, f),
    ensures
        intact(app_send(s, data).0, f),
        continues(s, app_send(s, data).0),
{
    reveal(data_buffered);
    lemma_same_recv(s, app_send(s, data).0, f);
}

/// A graceful close leaves what waits for the application alone: it can still be
/// read.
pub proof fn law_close_keeps_the_stream(s: TcbView, f: Stream)
    requires
        intact(s, f),
    ensures
        intact(closed(s), f),
        has_heard(s.state) ==> continues(s, closed(s)),
{
    reveal(in_state);
    reveal(unlistened);
    if s.state is CloseWait || s.state is Established {
        let t = in_state(
            s,
            if s.state is CloseWait {
                State::LastAck
            } else {
                State::FinWait1
            },
        );
        lemma_send_data(t);
        lemma_same_recv(s, closed(s), f);
    } else if s.state is SynRcvd {
        lemma_send_data(in_state(s, State::FinWait1));
        assert(nothing_in(closed(s)));
        lemma_nothing_in(closed(s), f);
    } else if s.state is SynSent || s.state is Listen {
        assert(nothing_in(closed(s)));
        lemma_nothing_in(closed(s), f);
    } else {
        lemma_same_recv(s, closed(s), f);
    }
}

/// Tearing a connection down makes it fail; it hands nothing over any more.
pub proof fn law_abort_keeps_the_stream(s: TcbView, f: Stream)
    requires
        intact(s, f),
    ensures
        intact(aborted(s), f),
{
    reveal(unlistened);
    lemma_failed(unlistened(s), f);
    let bits = flags::RST | flags::ACK;
    lemma_emit(s, bits, s.snd_nxt, s.rcv_nxt, no_options(), Seq::empty());
    lemma_failed(emit(s, bits, s.snd_nxt, s.rcv_nxt, no_options(), Seq::empty()), f);
}

/// A passive open starts from nothing.
pub proof fn law_listen_keeps_the_stream(s: TcbView, f: Stream)
    requires
        intact(s, f),
    ensures
        intact(listening(s), f),
{
    reveal(in_state);
    reveal(open_to_all);
    lemma_reset_in(open_to_all(s));
    assert(nothing_in(listening(s)));
    lemma_nothing_in(listening(s), f);
}

/// An active open of a connection that has received nothing starts from nothing.
pub proof fn law_connect_keeps_the_stream(s: TcbView, f: Stream)
    requires
        intact(s, f),
        nothing_in(s),
        s.error is None,
    ensures
        intact(connected(s), f),
{
    let o = opening(s);
    let bits = flags::SYN | flags::ECE | flags::CWR;
    lemma_emit(o, bits, o.iss, 0, syn_opts(o), Seq::empty());
    assert(same_recv(s, connected(s)) && connected(s).state is SynSent) by {
        reveal(opening);
        reveal(send_syn);
        reveal(syn_in_flight);
        reveal(syn_counted);
        reveal(bump_max);
        reveal(arm_rto);
    }
    assert(nothing_in(connected(s)));
    lemma_nothing_in(connected(s), f);
}

/// A new connection agrees with every stream.
pub proof fn law_new_keeps_the_stream(
    cap: usize,
    local: EndpointView,
    remote: EndpointView,
    iss: u32,
    initial_rto_ms: u32,
    f: Stream,
)
    requires
        f.wf(),
        cap <= 0x4000_0000,
    ensures
        intact(created(cap, local, remote, iss, initial_rto_ms), f),
{
    let s = created(cap, local, remote, iss, initial_rto_ms);
    assert forall|i: int| 0 <= i < nothing_held().runs.len() implies !used(
        #[trigger] nothing_held().runs[i],
    ) by {}
    lemma_nothing_in(s, f);
}

} // verus!
