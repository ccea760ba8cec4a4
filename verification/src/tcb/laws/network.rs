//! Two connections over a network that may lose, repeat, delay and reorder packets.

use crate::num::min;
use crate::reassembly::{first_starting, MAX_HOLES};
use crate::tcb::laws::calls::{
    law_close_keeps_sound, law_connect_keeps_sound, law_listen_is_sound, law_new_is_sound,
    law_recv_keeps_sound, law_send_keeps_sound, law_settings_keep_sound, untouched,
};
use crate::tcb::laws::inbound::{
    has_heard, law_close_keeps_the_stream, law_connect_keeps_the_stream,
    law_inbound_keeps_the_stream, law_listen_keeps_the_stream, law_new_keeps_the_stream,
    law_read_returns_the_stream, law_send_keeps_the_stream, law_tick_keeps_the_stream,
};
use crate::tcb::laws::outbound::{lemma_same_out, ours, tail, written};
use crate::tcb::laws::places::{
    lemma_arrival_placed, lemma_close_placed, lemma_closed_ticks_closed, lemma_tick_placed, placed,
};
use crate::tcb::laws::segments::{law_inbound_keeps_sound, lemma_drain_send};
use crate::tcb::laws::sending::lemma_same_send;
use crate::tcb::laws::soundness::{outstanding, sound};
use crate::tcb::laws::stream::{head, intact, lemma_same_recv, same_recv, Stream};
use crate::tcb::laws::timers::{handshake_has_room, law_tick_keeps_sound};
use crate::tcb::laws::transitions::{
    law_calls_are_legal, law_inbound_steps_are_legal, law_tick_steps_are_legal,
};
use crate::tcb::laws::writing::{
    law_close_ends_the_stream, law_connect_keeps_written, law_extract_keeps_written,
    law_inbound_keeps_written, law_listen_keeps_written, law_new_keeps_written,
    law_recv_keeps_written, law_tick_keeps_written,
    law_write_extends_the_stream,
};
use crate::tcb::model::{
    app_recv, app_recv_len, app_send, arm_rto, bump_max, closed, connected, created, data_buffered,
    data_read, drain, drain_runs, emit, in_state, injected, listening, on_reset, on_segment,
    opening, peer_alive, reset_by_peer, run_drained, send_syn, syn_counted, syn_in_flight, ticked,
    window_updated, with_key, EndpointView, TcbView,
};
use vstd::prelude::*;

verus! {

/// What happens at one end.
pub enum Event {
    /// The clock is set.
    Clock(u64),
    /// The timers are driven.
    Tick,
    /// A datagram arrives.
    Arrive(Seq<u8>),
    /// The application writes.
    Write(Seq<u8>),
    /// The application asks for that many bytes.
    Read(int),
    /// The application closes its side.
    Close,
    /// The host takes the first packet that waits, and sends it.
    Take,
}

/// One end: the connection, what the application has read, where in the peer's stream
/// that starts, and how many bytes it has written, counted as sequence numbers are.
pub struct End {
    pub conn: TcbView,
    pub got: Seq<u8>,
    pub from: u32,
    pub put: u32,
}

/// The end after `ev`.
pub open spec fn happened(e: End, ev: Event) -> End {
    let s = e.conn;
    match ev {
        Event::Clock(now) => End { conn: TcbView { now_ms: now, ..s }, ..e },
        Event::Tick => End { conn: ticked(s), ..e },
        Event::Arrive(b) => End { conn: injected(s, b).0, ..e },
        Event::Write(data) => match app_send(s, data) {
            (t, Ok(n)) => End { conn: t, put: e.put.wrapping_add(n as u32), ..e },
            (t, Err(_)) => End { conn: t, ..e },
        },
        Event::Read(room) => match app_recv(s, room) {
            (t, Ok(n)) => End {
                conn: t,
                got: e.got + s.recv_ring.take(n),
                from: if e.got.len() == 0 {
                    head(s)
                } else {
                    e.from
                },
                ..e
            },
            (t, Err(_)) => End { conn: t, ..e },
        },
        Event::Close => End { conn: closed(s), ..e },
        Event::Take => End { conn: TcbView { tx: s.tx.skip(1), ..s }, ..e },
    }
}

/// `ev` may happen at an end whose application writes the stream `f`: what it writes is
/// the next part of `f`, and it closes behind the last byte. While a handshake is under
/// way the timers are driven only with room to send, and the application does not
/// close. An application reads less than the sequence numbers go round.
pub open spec fn may_happen(e: End, ev: Event, f: Stream) -> bool {
    let s = e.conn;
    match ev {
        Event::Tick => handshake_has_room(s),
        Event::Write(data) => app_send(s, data).1 matches Ok(n) ==> f.agrees(
            tail(s),
            data.take(n),
        ),
        Event::Read(room) => room >= 0 && e.got.len() + app_recv_len(s, room) <= u32::MAX,
        Event::Close => {
            &&& !(s.state is SynSent || s.state is SynRcvd)
            &&& s.state is Established || s.state is CloseWait ==> tail(s) == f.end
        },
        Event::Take => s.tx.len() > 0,
        _ => true,
    }
}

/// Where the SYNs of both streams are known, the end counts from them: what has been
/// written is the first part of `f`, and what has been read is the first part of `g`.
pub open spec fn in_place(e: End, f: Stream, g: Stream) -> bool {
    f.syn is Some && g.syn is Some ==> {
        &&& placed(e.conn, f.syn->0, g.syn->0, e.put, e.got.len() as u32)
        &&& e.got.len() > 0 ==> e.from == g.syn->0.wrapping_add(1)
    }
}

/// The end whose application writes `f` and whose peer writes `g` is in order: what
/// waits to be sent is the stream `f`, what waits to be read is the stream `g`, and what
/// has been read is the part of `g` before that.
#[verifier::opaque]
pub open spec fn in_order(e: End, f: Stream, g: Stream) -> bool {
    &&& sound(e.conn)
    &&& written(e.conn, f)
    &&& intact(e.conn, g)
    &&& e.got.len() <= u32::MAX
    &&& g.agrees(e.from, e.got)
    &&& e.got.len() > 0 ==> has_heard(e.conn.state) && (e.conn.error is None ==> head(e.conn)
        == e.from.wrapping_add(e.got.len() as u32))
    &&& in_place(e, f, g)
}

/// One that has heard of its peer does not forget it, whatever arrives or runs out.
pub proof fn lemma_heard_stays(s: TcbView, b: Seq<u8>)
    requires
        sound(s),
        has_heard(s.state),
    ensures
        has_heard(injected(s, b).0.state),
        has_heard(ticked(s).state),
        has_heard(closed(s).state),
{
    law_calls_are_legal(s);
    if s.state is Closed {
        lemma_closed_ticks_closed(s);
        reveal(on_segment);
        reveal(on_reset);
        reveal(reset_by_peer);
        reveal(peer_alive);
    } else {
        law_inbound_steps_are_legal(s, b);
        law_tick_steps_are_legal(s);
    }
}

/// Handing on what is held fails nothing.
proof fn lemma_drain_error(s: TcbView)
    ensures
        drain(s).error == s.error,
{
    reveal(drain);
    reveal(window_updated);
    lemma_drain_runs_error(s, MAX_HOLES as nat + 2);
}

proof fn lemma_drain_runs_error(s: TcbView, turns: nat)
    ensures
        drain_runs(s, turns).error == s.error,
    decreases turns,
{
    reveal_with_fuel(drain_runs, 2);
    reveal(run_drained);
    let i = first_starting(s.reasm.runs, s.rcv_nxt, 0);
    if turns > 0 && i < s.reasm.runs.len() {
        let n = min(s.reasm.runs[i].data.len() as int, s.cap - s.recv_ring.len());
        lemma_drain_runs_error(run_drained(s, i, n), (turns - 1) as nat);
    }
}

/// A failed connection does not recover by itself.
proof fn lemma_error_stays(s: TcbView, b: Seq<u8>)
    requires
        s.error is Some,
        s.state is Closed,
    ensures
        injected(s, b).0.error is Some,
{
    reveal(on_segment);
    reveal(on_reset);
    reveal(reset_by_peer);
    reveal(peer_alive);
}

proof fn lemma_arrival_in_order(e: End, b: Seq<u8>, f: Stream, g: Stream)
    requires
        in_order(e, f, g),
        g.carried_by(b),
    ensures
        in_order(happened(e, Event::Arrive(b)), f, g),
{
    reveal(in_order);
    law_inbound_keeps_sound(e.conn, b);
    law_inbound_keeps_written(e.conn, b, f);
    law_inbound_keeps_the_stream(e.conn, b, g);
    if f.syn is Some && g.syn is Some {
        lemma_arrival_placed(e.conn, b, f, g, e.put, e.got.len() as u32);
    }
    if e.got.len() > 0 {
        lemma_heard_stays(e.conn, b);
        if e.conn.error is Some {
            lemma_error_stays(e.conn, b);
        }
    }
}

proof fn lemma_tick_in_order(e: End, f: Stream, g: Stream)
    requires
        in_order(e, f, g),
        handshake_has_room(e.conn),
    ensures
        in_order(happened(e, Event::Tick), f, g),
{
    reveal(in_order);
    law_tick_keeps_sound(e.conn);
    law_tick_keeps_written(e.conn, f);
    law_tick_keeps_the_stream(e.conn, g);
    if f.syn is Some && g.syn is Some {
        lemma_tick_placed(e.conn, g, f.syn->0, g.syn->0, e.put, e.got.len() as u32);
    }
    if e.got.len() > 0 {
        lemma_heard_stays(e.conn, Seq::empty());
        if e.conn.error is Some {
            lemma_closed_ticks_closed(e.conn);
        }
    }
}

proof fn lemma_read_in_order(e: End, room: int, f: Stream, g: Stream)
    requires
        in_order(e, f, g),
        room >= 0,
        e.got.len() + app_recv_len(e.conn, room) <= u32::MAX,
    ensures
        in_order(happened(e, Event::Read(room)), f, g),
{
    reveal(in_order);
    let s = e.conn;
    law_recv_keeps_sound(s, room);
    law_recv_keeps_written(s, room, f);
    law_read_returns_the_stream(s, room, g);
    let (t, r) = app_recv(s, room);
    if let Ok(n) = r {
        let part = s.recv_ring.take(n);
        let x = happened(e, Event::Read(room));
        assert(t.state == s.state && t.error == s.error) by {
            reveal(data_read);
            let a = data_read(s, app_recv_len(s, room));
            lemma_drain_send(a);
            lemma_drain_send(drain(a));
            lemma_drain_error(a);
            reveal(window_updated);
        }
        assert(x.got.len() == e.got.len() + n);
        assert forall|i: int| 0 <= i < x.got.len() implies (g.byte)(x.from.wrapping_add(i as u32))
            == Some(#[trigger] x.got[i]) by {
            if i < e.got.len() {
                assert(x.got[i] == e.got[i]);
            } else {
                let j = i - e.got.len();
                assert(x.got[i] == part[j]);
                assert(x.from.wrapping_add(i as u32) == head(s).wrapping_add(j as u32));
            }
        }
        if n > 0 {
            assert(has_heard(s.state));
        }
        assert(tail(t) == tail(s) && outstanding(t) == outstanding(s) && t.rcv_nxt == s.rcv_nxt
            || n > 0) by {
            reveal(data_read);
        }
        assert(tail(t) == tail(s)) by {
            reveal(data_read);
            let a = data_read(s, app_recv_len(s, room));
            lemma_drain_send(a);
            lemma_drain_send(drain(a));
        }
    }
}

proof fn lemma_clock_in_order(e: End, now: u64, f: Stream, g: Stream)
    requires
        in_order(e, f, g),
    ensures
        in_order(happened(e, Event::Clock(now)), f, g),
{
    reveal(in_order);
    let s = e.conn;
    let t = TcbView { now_ms: now, ..s };
    law_settings_keep_sound(s, 0, 0, 0, 0, now);
    lemma_same_out(s, t, f);
    lemma_same_recv(s, t, g);
}

proof fn lemma_write_in_order(e: End, data: Seq<u8>, f: Stream, g: Stream)
    requires
        in_order(e, f, g),
        may_happen(e, Event::Write(data), f),
    ensures
        in_order(happened(e, Event::Write(data)), f, g),
{
    reveal(in_order);
    let s = e.conn;
    law_send_keeps_sound(s, data);
    law_write_extends_the_stream(s, data, f);
    law_send_keeps_the_stream(s, data, g);
    reveal(data_buffered);
}

proof fn lemma_close_in_order(e: End, f: Stream, g: Stream)
    requires
        in_order(e, f, g),
        may_happen(e, Event::Close, f),
    ensures
        in_order(happened(e, Event::Close), f, g),
{
    reveal(in_order);
    let s = e.conn;
    law_close_keeps_sound(s);
    law_close_ends_the_stream(s, f);
    law_close_keeps_the_stream(s, g);
    if f.syn is Some && g.syn is Some {
        lemma_close_placed(s, g, f.syn->0, g.syn->0, e.put, e.got.len() as u32);
    }
    if e.got.len() > 0 {
        lemma_heard_stays(s, Seq::empty());
    }
}

pub proof fn lemma_take_in_order(e: End, f: Stream, g: Stream)
    requires
        in_order(e, f, g),
        e.conn.tx.len() > 0,
    ensures
        in_order(happened(e, Event::Take), f, g),
        f.carried_by(e.conn.tx[0]),
{
    reveal(in_order);
    let s = e.conn;
    let t = TcbView { tx: s.tx.skip(1), ..s };
    law_extract_keeps_written(s, f);
    lemma_same_recv(s, t, g);
    lemma_same_send(s, t);
    assert(ours(s, s.tx[0], f));
}

/// Whatever may happen at an end leaves it in order.
pub proof fn law_end_stays_in_order(e: End, ev: Event, f: Stream, g: Stream)
    requires
        in_order(e, f, g),
        may_happen(e, ev, f),
        ev matches Event::Arrive(b) ==> g.carried_by(b),
    ensures
        in_order(happened(e, ev), f, g),
{
    match ev {
        Event::Clock(now) => lemma_clock_in_order(e, now, f, g),
        Event::Tick => lemma_tick_in_order(e, f, g),
        Event::Arrive(b) => lemma_arrival_in_order(e, b, f, g),
        Event::Write(data) => lemma_write_in_order(e, data, f, g),
        Event::Read(room) => lemma_read_in_order(e, room, f, g),
        Event::Close => lemma_close_in_order(e, f, g),
        Event::Take => lemma_take_in_order(e, f, g),
    }
}

/// Two ends and the packets that are on their way, or may turn up again, to the one on
/// the right and to the one on the left.
pub struct Network {
    pub left: End,
    pub right: End,
    pub rightward: Set<Seq<u8>>,
    pub leftward: Set<Seq<u8>>,
}

/// Something happens at the left end or at the right end.
pub struct Step {
    pub at_left: bool,
    pub event: Event,
}

/// What happens at one end: the end, and the packets on their way from it.
pub open spec fn sent_off(e: End, ev: Event, out: Set<Seq<u8>>) -> Set<Seq<u8>> {
    if ev is Take {
        out.insert(e.conn.tx[0])
    } else {
        out
    }
}

/// The network after a step. No packet ever leaves the sets: it may arrive late, in any
/// order and more than once, or never.
#[verifier::opaque]
pub open spec fn stepped(n: Network, x: Step) -> Network {
    if x.at_left {
        Network {
            left: happened(n.left, x.event),
            rightward: sent_off(n.left, x.event, n.rightward),
            ..n
        }
    } else {
        Network {
            right: happened(n.right, x.event),
            leftward: sent_off(n.right, x.event, n.leftward),
            ..n
        }
    }
}

/// The step may happen, where the application on the left writes `f` and the one on the
/// right writes `g`: what arrives was sent by the other end.
#[verifier::opaque]
pub open spec fn possible(n: Network, x: Step, f: Stream, g: Stream) -> bool {
    if x.at_left {
        may_happen(n.left, x.event, f) && (x.event matches Event::Arrive(b)
            ==> n.leftward.contains(b))
    } else {
        may_happen(n.right, x.event, g) && (x.event matches Event::Arrive(b)
            ==> n.rightward.contains(b))
    }
}

/// Both ends are in order, and every packet carries its stream.
pub open spec fn all_in_order(n: Network, f: Stream, g: Stream) -> bool {
    &&& in_order(n.left, f, g)
    &&& in_order(n.right, g, f)
    &&& forall|b: Seq<u8>| #[trigger] n.rightward.contains(b) ==> f.carried_by(b)
    &&& forall|b: Seq<u8>| #[trigger] n.leftward.contains(b) ==> g.carried_by(b)
}

/// An end where nothing has been read.
pub open spec fn fresh_end(conn: TcbView) -> End {
    End { conn, got: Seq::empty(), from: 0, put: 0 }
}

/// A new connection that opens actively on the left, one that listens on the right, with
/// cookies if there is a key for them, and nothing on its way.
pub open spec fn opening_network(
    cap: usize,
    left: EndpointView,
    right: EndpointView,
    iss: (u32, u32),
    rto_ms: u32,
    key: Option<Seq<u8>>,
) -> Network {
    Network {
        left: fresh_end(connected(created(cap, left, right, iss.0, rto_ms))),
        right: fresh_end(with_key(listening(created(cap, right, left, iss.1, rto_ms)), key)),
        rightward: Set::empty(),
        leftward: Set::empty(),
    }
}

/// A client and a listener start in order, whatever they are going to write.
pub proof fn law_opening_is_in_order(
    cap: usize,
    left: EndpointView,
    right: EndpointView,
    iss: (u32, u32),
    rto_ms: u32,
    key: Option<Seq<u8>>,
    f: Stream,
    g: Stream,
)
    requires
        cap <= 0x4000_0000,
        left.ip.len() == 4,
        right.ip.len() == 4,
        f.wf(),
        g.wf(),
        f.syn matches Some(x) ==> iss.0 == x,
        g.syn matches Some(y) ==> iss.1 == y && key is None,
    ensures
        all_in_order(opening_network(cap, left, right, iss, rto_ms, key), f, g),
{
    reveal(in_order);
    let a = created(cap, left, right, iss.0, rto_ms);
    let b = created(cap, right, left, iss.1, rto_ms);
    law_new_is_sound(cap, left, right, iss.0, rto_ms);
    law_new_is_sound(cap, right, left, iss.1, rto_ms);
    law_new_keeps_written(cap, left, right, iss.0, rto_ms, f);
    law_new_keeps_written(cap, right, left, iss.1, rto_ms, g);
    law_new_keeps_the_stream(cap, left, right, iss.0, rto_ms, g);
    law_new_keeps_the_stream(cap, right, left, iss.1, rto_ms, f);
    law_connect_keeps_sound(a);
    law_connect_keeps_written(a, f);
    law_connect_keeps_the_stream(a, g);
    law_listen_is_sound(b);
    law_listen_keeps_written(b, g);
    law_listen_keeps_the_stream(b, f);
    let l = listening(b);
    assert(l.state is Listen) by {
        reveal(in_state);
    }
    let k = with_key(l, key);
    assert(sound(k) && same_recv(l, k) && k.state == l.state);
    assert(written(k, g)) by {
        assert forall|i: int| 0 <= i < k.tx.len() implies ours(k, #[trigger] k.tx[i], g) by {
            assert(ours(l, l.tx[i], g));
        }
    }
    lemma_same_recv(l, k, f);
    lemma_connected_waits(a);
}

/// A connection that opens actively has its SYN out, if there was room for it.
pub proof fn lemma_connected_waits(s: TcbView)
    requires
        untouched(s),
        s.tx.len() == 0,
    ensures
        connected(s).state is SynSent,
        connected(s).tx.len() == 1,
        outstanding(connected(s)) == 1,
{
    reveal(opening);
    reveal(send_syn);
    reveal(emit);
    reveal(syn_in_flight);
    reveal(syn_counted);
    reveal(bump_max);
    reveal(arm_rto);
}

/// A step leaves the network in order.
proof fn lemma_step_in_order(n: Network, x: Step, f: Stream, g: Stream)
    requires
        all_in_order(n, f, g),
        possible(n, x, f, g),
    ensures
        all_in_order(stepped(n, x), f, g),
{
    reveal(stepped);
    reveal(possible);
    if x.at_left {
        law_end_stays_in_order(n.left, x.event, f, g);
        if x.event is Take {
            lemma_take_in_order(n.left, f, g);
        }
    } else {
        law_end_stays_in_order(n.right, x.event, g, f);
        if x.event is Take {
            lemma_take_in_order(n.right, g, f);
        }
    }
}

/// The network after the first `k` steps.
pub open spec fn after_steps(n: Network, xs: Seq<Step>, k: int) -> Network
    decreases k,
{
    if k <= 0 {
        n
    } else {
        stepped(after_steps(n, xs, k - 1), xs[k - 1])
    }
}

proof fn lemma_steps_in_order(n: Network, xs: Seq<Step>, k: int, f: Stream, g: Stream)
    requires
        all_in_order(n, f, g),
        0 <= k <= xs.len(),
        forall|i: int| 0 <= i < xs.len() ==> possible(after_steps(n, xs, i), #[trigger] xs[i], f, g),
    ensures
        all_in_order(after_steps(n, xs, k), f, g),
    decreases k,
{
    if k > 0 {
        lemma_steps_in_order(n, xs, k - 1, f, g);
        let m = after_steps(n, xs, k - 1);
        let x = xs[k - 1];
        assert(possible(m, x, f, g));
        assert(all_in_order(stepped(m, x), f, g)) by {
            lemma_step_in_order(m, x, f, g);
        }
        assert(after_steps(n, xs, k) == stepped(m, x));
    }
}

/// The bytes come across: over a network that loses, repeats, delays and reorders
/// packets as it likes, and whatever the applications and the clocks do, what the
/// application at either end has read is what the application at the other end has
/// written, in order, without a gap and without a byte changed. Where the sequence
/// numbers of the SYNs are known, it is so from the first byte on.
pub proof fn law_streams_come_across(n: Network, xs: Seq<Step>, k: int, f: Stream, g: Stream)
    requires
        all_in_order(n, f, g),
        0 <= k <= xs.len(),
        forall|i: int| 0 <= i < xs.len() ==> possible(after_steps(n, xs, i), #[trigger] xs[i], f, g),
    ensures
        all_in_order(after_steps(n, xs, k), f, g),
        g.agrees(after_steps(n, xs, k).left.from, after_steps(n, xs, k).left.got),
        f.agrees(after_steps(n, xs, k).right.from, after_steps(n, xs, k).right.got),
        f.syn is Some && g.syn is Some ==> {
            let m = after_steps(n, xs, k);
            &&& m.left.got.len() > 0 ==> m.left.from == g.syn->0.wrapping_add(1)
            &&& m.right.got.len() > 0 ==> m.right.from == f.syn->0.wrapping_add(1)
        },
{
    reveal(in_order);
    lemma_steps_in_order(n, xs, k, f, g);
}

} // verus!
