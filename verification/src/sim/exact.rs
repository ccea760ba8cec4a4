//! No byte comes out wrong: what a pair of connections reads over the links is what it
//! was handed at the other end.

use crate::reassembly::used;
use crate::sim::link::{due, kept};
use crate::sim::net::{
    all_arrived, arrived, cli_emptied, cli_served, emptied, exchanged, let_out, srv_emptied,
    srv_served, NetView, OutletView,
};
use crate::sim::pair::{
    cli_inspected, driven, inspected, paired, srv_inspected, supplied, transferred, wound_up,
    PairView,
};
use crate::sim::stream::{
    at_time, checked, cli_end, ferried, first_wrong, new_client, new_server, offered, pattern,
    pattern_bytes, srv_end,
};
use crate::sim::{CLI_ISS, CLI_STREAM, SRV_ISS, SRV_STREAM};
use crate::tcb::laws::calls::{
    law_connect_keeps_sound, law_listen_is_sound, law_new_is_sound, untouched,
};
use crate::tcb::laws::closing::law_close_ends_each_state;
use crate::tcb::laws::inbound::{
    has_heard, law_connect_keeps_the_stream, law_listen_keeps_the_stream, law_new_keeps_the_stream,
};
use crate::tcb::laws::network::{
    happened, in_order, law_end_stays_in_order, lemma_connected_waits, lemma_heard_stays,
    lemma_take_in_order, may_happen, End, Event,
};
use crate::tcb::laws::outbound::{tail, written};
use crate::tcb::laws::segments::lemma_drain_send;
use crate::tcb::laws::soundness::sound;
use crate::tcb::laws::stream::{head, intact, nothing_in, Stream};
use crate::tcb::laws::timers::handshake_has_room;
use crate::tcb::laws::writing::{
    law_connect_keeps_written, law_listen_keeps_written, law_new_keeps_written,
};
use crate::tcb::model::{
    app_recv, app_recv_len, app_send, closed, connected, data_buffered, data_read, drain, in_state,
    injected, listening, ticked, TcbView,
};
use vstd::prelude::*;

verus! {

/// Who sends a stream: which pattern it is, and where its SYN is.
pub struct Source {
    pub stream: u32,
    pub iss: u32,
}

/// The client.
pub open spec fn client() -> Source {
    Source { stream: CLI_STREAM, iss: CLI_ISS }
}

/// The server.
pub open spec fn server() -> Source {
    Source { stream: SRV_STREAM, iss: SRV_ISS }
}

/// The stream of `xfer` bytes that `a` sends.
pub open spec fn known(a: Source, xfer: u32) -> Stream {
    Stream {
        byte: |q: u32|
            {
                let k = q.wrapping_sub(a.iss.wrapping_add(1));
                if k < xfer {
                    Some(pattern(a.stream, k))
                } else {
                    None
                }
            },
        end: a.iss.wrapping_add(1).wrapping_add(xfer),
        syn: Some(a.iss),
    }
}

/// The end at which `put` bytes have been taken and `got` bytes of `peer`'s stream handed
/// over, as they should be.
pub open spec fn end_at(s: TcbView, peer: Source, put: u32, got: u32) -> End {
    End {
        conn: s,
        got: pattern_bytes(peer.stream, 0, got as int),
        from: peer.iss.wrapping_add(1),
        put,
    }
}

/// Of the `xfer` bytes that `me` and `peer` send each other, the connection of `me` has
/// taken `put` and handed over `got`, and all that it holds is in order.
#[verifier::opaque]
pub open spec fn exact(
    s: TcbView,
    me: Source,
    peer: Source,
    xfer: u32,
    put: u32,
    got: u32,
) -> bool {
    &&& put <= xfer
    &&& got <= xfer
    &&& 0 < xfer < u32::MAX
    &&& in_order(end_at(s, peer, put, got), known(me, xfer), known(peer, xfer))
}

/// The byte at an offset of a stream.
proof fn lemma_known_byte(a: Source, xfer: u32, k: u32)
    ensures
        (known(a, xfer).byte)(a.iss.wrapping_add(1).wrapping_add(k)) == (if k < xfer {
            Some(pattern(a.stream, k))
        } else {
            None
        }),
{
    assert(a.iss.wrapping_add(1).wrapping_add(k).wrapping_sub(a.iss.wrapping_add(1)) == k);
}

proof fn lemma_known_wf(a: Source, xfer: u32)
    requires
        xfer < u32::MAX,
    ensures
        known(a, xfer).wf(),
{
    lemma_known_byte(a, xfer, (xfer + 1) as u32);
    let start = a.iss.wrapping_add(1);
    assert(start.wrapping_add(xfer).wrapping_add(1) == start.wrapping_add((xfer + 1) as u32));
}

/// Driving the clock and the timers.
proof fn lemma_driven_exact(
    s: TcbView,
    now: u64,
    me: Source,
    peer: Source,
    xfer: u32,
    put: u32,
    got: u32,
)
    requires
        exact(s, me, peer, xfer, put, got),
        handshake_has_room(s),
    ensures
        exact(ticked(at_time(s, now)), me, peer, xfer, put, got),
{
    reveal(exact);
    let e = end_at(s, peer, put, got);
    let a = happened(e, Event::Clock(now));
    law_end_stays_in_order(e, Event::Clock(now), known(me, xfer), known(peer, xfer));
    assert(a == end_at(at_time(s, now), peer, put, got));
    law_end_stays_in_order(a, Event::Tick, known(me, xfer), known(peer, xfer));
    assert(happened(a, Event::Tick) == end_at(ticked(at_time(s, now)), peer, put, got));
}

/// Taking the first packet that waits: it carries the stream.
proof fn lemma_taken_exact(
    s: TcbView,
    me: Source,
    peer: Source,
    xfer: u32,
    put: u32,
    got: u32,
)
    requires
        exact(s, me, peer, xfer, put, got),
        s.tx.len() > 0,
    ensures
        exact(TcbView { tx: s.tx.skip(1), ..s }, me, peer, xfer, put, got),
        known(me, xfer).carried_by(s.tx[0]),
{
    reveal(exact);
    let e = end_at(s, peer, put, got);
    lemma_take_in_order(e, known(me, xfer), known(peer, xfer));
    assert(happened(e, Event::Take) == end_at(TcbView { tx: s.tx.skip(1), ..s }, peer, put, got));
}

/// A packet of the other side arrives.
proof fn lemma_injected_exact(
    s: TcbView,
    b: Seq<u8>,
    me: Source,
    peer: Source,
    xfer: u32,
    put: u32,
    got: u32,
)
    requires
        exact(s, me, peer, xfer, put, got),
        known(peer, xfer).carried_by(b),
    ensures
        exact(injected(s, b).0, me, peer, xfer, put, got),
{
    reveal(exact);
    let e = end_at(s, peer, put, got);
    law_end_stays_in_order(e, Event::Arrive(b), known(me, xfer), known(peer, xfer));
    assert(happened(e, Event::Arrive(b)) == end_at(injected(s, b).0, peer, put, got));
}

/// The application hands over the next bytes of its stream.
proof fn lemma_offered_exact(
    s: TcbView,
    me: Source,
    peer: Source,
    xfer: u32,
    put: u32,
    got: u32,
    chunk: u32,
)
    requires
        exact(s, me, peer, xfer, put, got),
    ensures
        ({
            let (t, n) = offered(s, me.stream, put, xfer, chunk);
            &&& exact(t, me, peer, xfer, n, got)
            &&& t.state == s.state
            &&& t.tx == s.tx
        }),
{
    reveal(exact);
    reveal(data_buffered);
    if s.state is Established && put < xfer {
        let n = crate::num::min(chunk as int, xfer - put);
        let data = pattern_bytes(me.stream, put, n);
        let (t, r) = app_send(s, data);
        let e = end_at(s, peer, put, got);
        let f = known(me, xfer);
        if let Ok(w) = r {
            let start = me.iss.wrapping_add(1);
            assert(tail(s) == start.wrapping_add(put) && s.send_ring.len() <= s.cap) by {
                reveal(in_order);
            }
            assert(0 <= w <= n);
            assert forall|i: int| 0 <= i < w implies (f.byte)(tail(s).wrapping_add(i as u32))
                == Some(#[trigger] data.take(w)[i]) by {
                lemma_known_byte(me, xfer, (put + i) as u32);
                assert(start.wrapping_add(put).wrapping_add(i as u32) == start.wrapping_add(
                    (put + i) as u32,
                ));
                assert(put.wrapping_add(i as u32) == (put + i) as u32);
                assert(data.take(w)[i] == data[i]);
            }
            assert(may_happen(e, Event::Write(data), f));
            law_end_stays_in_order(e, Event::Write(data), f, known(peer, xfer));
            assert(put.wrapping_add(w as u32) == (put + w) as u32);
            assert(happened(e, Event::Write(data)) == end_at(t, peer, (put + w) as u32, got));
        }
    }
}

/// Bytes that are all right have none that is wrong.
proof fn lemma_none_wrong(b: Seq<u8>, stream: u32, offset: u32, i: int)
    requires
        0 <= i <= b.len(),
        forall|k: int|
            0 <= k < b.len() ==> #[trigger] b[k] == pattern(stream, offset.wrapping_add(k as u32)),
    ensures
        first_wrong(b, stream, offset, i) == b.len(),
    decreases b.len() - i,
{
    if i < b.len() {
        assert(b[i] == pattern(stream, offset.wrapping_add(i as u32)));
        lemma_none_wrong(b, stream, offset, i + 1);
    }
}

/// What waits to be read is the next part of the other side's stream.
proof fn lemma_waiting_exact(
    s: TcbView,
    me: Source,
    peer: Source,
    xfer: u32,
    put: u32,
    got: u32,
)
    requires
        exact(s, me, peer, xfer, put, got),
        s.error is None,
    ensures
        got + s.recv_ring.len() <= xfer,
        forall|i: int|
            0 <= i < s.recv_ring.len() ==> #[trigger] s.recv_ring[i] == pattern(
                peer.stream,
                (got + i) as u32,
            ),
{
    let g = known(peer, xfer);
    let start = peer.iss.wrapping_add(1);
    let n = s.recv_ring.len();
    assert(got <= xfer < u32::MAX && g.agrees(head(s), s.recv_ring) && (n > 0 ==> head(s)
        == start.wrapping_add(got))) by {
        reveal(exact);
        reveal(in_order);
    }
    if n > 0 {
        assert forall|i: int| 0 <= i < n && got + i <= xfer implies (#[trigger] s.recv_ring[i])
            == pattern(peer.stream, (got + i) as u32) && got + i < xfer by {
            assert((g.byte)(head(s).wrapping_add(i as u32)) == Some(s.recv_ring[i]));
            lemma_known_byte(peer, xfer, (got + i) as u32);
            assert(start.wrapping_add(got).wrapping_add(i as u32) == start.wrapping_add(
                (got + i) as u32,
            ));
        }
        if got + n > xfer {
            let b = s.recv_ring[xfer - got];
        }
    }
}

/// The application reads and finds every byte right.
proof fn lemma_checked_exact(
    s: TcbView,
    me: Source,
    peer: Source,
    xfer: u32,
    put: u32,
    got: u32,
    room: u32,
)
    requires
        exact(s, me, peer, xfer, put, got),
    ensures
        checked(s, peer.stream, got, room) matches Ok((t, n)) && {
            &&& exact(t, me, peer, xfer, put, n)
            &&& t.state == s.state
            &&& t.tx == s.tx
        },
{
    let n = app_recv_len(s, room as int);
    let (t, r) = app_recv(s, room as int);
    if s.error is None && n > 0 {
        lemma_waiting_exact(s, me, peer, xfer, put, got);
        let part = s.recv_ring.take(n);
        assert forall|k: int| 0 <= k < part.len() implies #[trigger] part[k] == pattern(
            peer.stream,
            got.wrapping_add(k as u32),
        ) by {
            assert(part[k] == s.recv_ring[k]);
        }
        lemma_none_wrong(part, peer.stream, got, 0);
        reveal(exact);
        let e = end_at(s, peer, put, got);
        law_end_stays_in_order(e, Event::Read(room as int), known(me, xfer), known(peer, xfer));
        assert(head(s) == peer.iss.wrapping_add(1).wrapping_add(got)) by {
            reveal(in_order);
        }
        let total = got.wrapping_add(n as u32);
        assert(e.got + part =~= pattern_bytes(peer.stream, 0, total as int)) by {
            assert forall|k: int| 0 <= k < e.got.len() + part.len() implies #[trigger] (e.got
                + part)[k] == pattern_bytes(peer.stream, 0, total as int)[k] by {
                if k >= got {
                    assert((e.got + part)[k] == part[k - got]);
                }
            }
        }
        assert(happened(e, Event::Read(room as int)) == end_at(t, peer, put, total));
        let a = data_read(s, n);
        reveal(data_read);
        lemma_drain_send(a);
        lemma_drain_send(drain(a));
    }
}

/// A side that has handed over its whole stream closes.
proof fn lemma_closed_exact(
    s: TcbView,
    me: Source,
    peer: Source,
    xfer: u32,
    got: u32,
)
    requires
        exact(s, me, peer, xfer, xfer, got),
    ensures
        exact(closed(s), me, peer, xfer, xfer, got),
        handshake_has_room(closed(s)),
{
    reveal(exact);
    let e = end_at(s, peer, xfer, got);
    assert(may_happen(e, Event::Close, known(me, xfer))) by {
        reveal(in_order);
    }
    law_end_stays_in_order(e, Event::Close, known(me, xfer), known(peer, xfer));
    assert(happened(e, Event::Close) == end_at(closed(s), peer, xfer, got));
    law_close_ends_each_state(s);
    assert(!(s.state is SynSent || s.state is SynRcvd || s.state is Listen)) by {
        reveal(in_order);
    }
}

/// Both connections of a pair are in order.
pub open spec fn pair_exact(w: PairView, xfer: u32) -> bool {
    &&& exact(w.cli, client(), server(), xfer, w.cli_sent, w.cli_recv)
    &&& exact(w.srv, server(), client(), xfer, w.srv_sent, w.srv_recv)
}

/// Neither connection is in a handshake with no room to send.
pub open spec fn has_room(w: PairView) -> bool {
    handshake_has_room(w.cli) && handshake_has_room(w.srv)
}

/// Connections that are in order are sound.
pub proof fn lemma_pair_sound(w: PairView, xfer: u32)
    requires
        pair_exact(w, xfer),
    ensures
        sound(w.cli),
        sound(w.srv),
{
    reveal(exact);
    reveal(in_order);
}

/// The clock and the timers keep a pair in order.
pub proof fn lemma_pair_driven(w: PairView, now: u64, xfer: u32)
    requires
        pair_exact(w, xfer),
        has_room(w),
    ensures
        pair_exact(driven(w, now), xfer),
{
    reveal(driven);
    lemma_driven_exact(w.cli, now, client(), server(), xfer, w.cli_sent, w.cli_recv);
    lemma_driven_exact(w.srv, now, server(), client(), xfer, w.srv_sent, w.srv_recv);
}

/// What is left of a turn: both sides are handed more, both are read from and no byte is
/// wrong, and both close when everything is across.
pub proof fn lemma_pair_turn(w: PairView, xfer: u32, chunk: u32, room: u32)
    requires
        pair_exact(w, xfer),
        has_room(w),
    ensures
        inspected(supplied(w, xfer, chunk), room) matches Ok(u) && pair_exact(
            wound_up(u, xfer),
            xfer,
        ) && has_room(wound_up(u, xfer)) && (has_heard(w.cli.state) ==> has_heard(
            wound_up(u, xfer).cli.state,
        )),
{
    let a = supplied(w, xfer, chunk);
    assert(pair_exact(a, xfer) && has_room(a) && a.cli.state == w.cli.state) by {
        reveal(supplied);
        lemma_offered_exact(w.cli, client(), server(), xfer, w.cli_sent, w.cli_recv, chunk);
        lemma_offered_exact(w.srv, server(), client(), xfer, w.srv_sent, w.srv_recv, chunk);
    }
    reveal(inspected);
    reveal(cli_inspected);
    reveal(srv_inspected);
    lemma_checked_exact(a.cli, client(), server(), xfer, a.cli_sent, a.cli_recv, room);
    lemma_checked_exact(a.srv, server(), client(), xfer, a.srv_sent, a.srv_recv, room);
    let u = inspected(a, room)->Ok_0;
    assert(pair_exact(u, xfer) && has_room(u));
    reveal(wound_up);
    if transferred(u, xfer) {
        lemma_closed_exact(u.cli, client(), server(), xfer, u.cli_recv);
        lemma_closed_exact(u.srv, server(), client(), xfer, u.srv_recv);
        law_close_ends_each_state(u.cli);
    }
}

/// A connection that opens actively starts in order.
pub proof fn lemma_connected_exact(s: TcbView, me: Source, peer: Source, xfer: u32)
    requires
        0 < xfer < u32::MAX,
        sound(s),
        untouched(s),
        s.error is None,
        s.tx.len() == 0,
        nothing_in(s),
        written(s, known(me, xfer)),
        intact(s, known(peer, xfer)),
    ensures
        exact(connected(s), me, peer, xfer, 0, 0),
        handshake_has_room(connected(s)),
{
    reveal(exact);
    reveal(in_order);
    law_connect_keeps_sound(s);
    law_connect_keeps_written(s, known(me, xfer));
    law_connect_keeps_the_stream(s, known(peer, xfer));
    lemma_connected_waits(s);
}

/// A connection that listens starts in order.
pub proof fn lemma_listening_exact(s: TcbView, me: Source, peer: Source, xfer: u32)
    requires
        0 < xfer < u32::MAX,
        sound(s),
        written(s, known(me, xfer)),
        intact(s, known(peer, xfer)),
    ensures
        exact(listening(s), me, peer, xfer, 0, 0),
        handshake_has_room(listening(s)),
{
    reveal(exact);
    reveal(in_order);
    law_listen_is_sound(s);
    law_listen_keeps_written(s, known(me, xfer));
    law_listen_keeps_the_stream(s, known(peer, xfer));
    assert(listening(s).state is Listen) by {
        reveal(in_state);
    }
}

/// The client and the server before they open.
pub proof fn lemma_new_pair(buf: usize, xfer: u32)
    requires
        buf <= 0x4000_0000,
        xfer < u32::MAX,
    ensures
        ({
            let c = new_client(buf);
            let v = new_server(buf);
            &&& sound(c) && untouched(c) && c.error is None && c.tx.len() == 0 && nothing_in(c)
            &&& written(c, known(client(), xfer)) && intact(c, known(server(), xfer))
            &&& sound(v) && written(v, known(server(), xfer)) && intact(v, known(client(), xfer))
        }),
{
    lemma_known_wf(client(), xfer);
    lemma_known_wf(server(), xfer);
    law_new_is_sound(buf, cli_end(), srv_end(), CLI_ISS, 1000);
    law_new_is_sound(buf, srv_end(), cli_end(), SRV_ISS, 1000);
    law_new_keeps_written(buf, cli_end(), srv_end(), CLI_ISS, 1000, known(client(), xfer));
    law_new_keeps_written(buf, srv_end(), cli_end(), SRV_ISS, 1000, known(server(), xfer));
    law_new_keeps_the_stream(buf, cli_end(), srv_end(), CLI_ISS, 1000, known(server(), xfer));
    law_new_keeps_the_stream(buf, srv_end(), cli_end(), SRV_ISS, 1000, known(client(), xfer));
    let c = new_client(buf);
    assert forall|i: int| 0 <= i < c.reasm.runs.len() implies !used(#[trigger] c.reasm.runs[i]) by {}
}

/// A pair that opens, with nothing transferred, is in order.
pub proof fn lemma_opening_exact(buf: usize, xfer: u32)
    requires
        buf <= 0x4000_0000,
        0 < xfer < u32::MAX,
    ensures
        pair_exact(paired(connected(new_client(buf)), listening(new_server(buf))), xfer),
        has_room(paired(connected(new_client(buf)), listening(new_server(buf)))),
{
    lemma_new_pair(buf, xfer);
    lemma_connected_exact(new_client(buf), client(), server(), xfer);
    lemma_listening_exact(new_server(buf), server(), client(), xfer);
}

/// Everything on the link carries the stream of `a`.
pub open spec fn link_exact(q: Seq<(u64, Seq<u8>)>, a: Source, xfer: u32) -> bool {
    forall|i: int| 0 <= i < q.len() ==> known(a, xfer).carried_by((#[trigger] q[i]).1)
}

/// Every packet carries the stream of `a`.
pub open spec fn packets_exact(pkts: Seq<Seq<u8>>, a: Source, xfer: u32) -> bool {
    forall|i: int| 0 <= i < pkts.len() ==> known(a, xfer).carried_by(#[trigger] pkts[i])
}

/// What a link releases and what it keeps was on it.
proof fn lemma_link_parts(q: Seq<(u64, Seq<u8>)>, iter: u64, a: Source, xfer: u32)
    requires
        link_exact(q, a, xfer),
    ensures
        packets_exact(due(q, iter), a, xfer),
        link_exact(kept(q, iter), a, xfer),
    decreases q.len(),
{
    if q.len() > 0 {
        let p = q.drop_last();
        assert forall|i: int| 0 <= i < p.len() implies known(a, xfer).carried_by(
            (#[trigger] p[i]).1,
        ) by {
            assert(p[i] == q[i]);
        }
        lemma_link_parts(p, iter, a, xfer);
        assert(known(a, xfer).carried_by(q[q.len() - 1].1));
    }
}

/// The connection and the link that it sends into are in order.
spec fn outlet_exact(
    o: OutletView,
    me: Source,
    peer: Source,
    xfer: u32,
    put: u32,
    got: u32,
) -> bool {
    exact(o.tcb, me, peer, xfer, put, got) && link_exact(o.link, me, xfer)
}

proof fn lemma_emptied_exact(
    o: OutletView,
    iter: u64,
    lossy: bool,
    me: Source,
    peer: Source,
    xfer: u32,
    put: u32,
    got: u32,
)
    requires
        outlet_exact(o, me, peer, xfer, put, got),
    ensures
        outlet_exact(emptied(o, iter, lossy), me, peer, xfer, put, got),
        emptied(o, iter, lossy).tcb.tx.len() == 0,
    decreases o.tcb.tx.len(),
{
    if o.tcb.tx.len() > 0 {
        let p = let_out(o, iter, lossy);
        assert(outlet_exact(p, me, peer, xfer, put, got) && p.tcb.tx.len() < o.tcb.tx.len()) by {
            reveal(let_out);
            lemma_taken_exact(o.tcb, me, peer, xfer, put, got);
        }
        lemma_emptied_exact(p, iter, lossy, me, peer, xfer, put, got);
    }
}

proof fn lemma_all_arrived_exact(
    o: OutletView,
    pkts: Seq<Seq<u8>>,
    n: int,
    iter: u64,
    lossy: bool,
    me: Source,
    peer: Source,
    xfer: u32,
    put: u32,
    got: u32,
)
    requires
        outlet_exact(o, me, peer, xfer, put, got),
        packets_exact(pkts, peer, xfer),
        o.tcb.tx.len() == 0,
        n <= pkts.len(),
    ensures
        outlet_exact(all_arrived(o, pkts, n, iter, lossy), me, peer, xfer, put, got),
        all_arrived(o, pkts, n, iter, lossy).tcb.tx.len() == 0,
    decreases n,
{
    if n > 0 {
        lemma_all_arrived_exact(o, pkts, n - 1, iter, lossy, me, peer, xfer, put, got);
        let a = all_arrived(o, pkts, n - 1, iter, lossy);
        reveal(arrived);
        assert(known(peer, xfer).carried_by(pkts[n - 1]));
        lemma_injected_exact(a.tcb, pkts[n - 1], me, peer, xfer, put, got);
        let b = OutletView { tcb: injected(a.tcb, pkts[n - 1]).0, ..a };
        lemma_emptied_exact(b, iter, lossy, me, peer, xfer, put, got);
    }
}

/// The connections and the links are in order.
pub open spec fn net_exact(w: NetView, xfer: u32) -> bool {
    &&& pair_exact(w.pair, xfer)
    &&& link_exact(w.c2s, client(), xfer)
    &&& link_exact(w.s2c, server(), xfer)
}

/// Whatever the links do to the packets, the connections stay in order, and nothing waits
/// at them afterwards.
pub proof fn lemma_net_exchanged(w: NetView, iter: u64, lossy: bool, xfer: u32)
    requires
        net_exact(w, xfer),
    ensures
        net_exact(exchanged(w, iter, lossy), xfer),
        has_room(exchanged(w, iter, lossy).pair),
{
    let (c, v) = (client(), server());
    let a = cli_emptied(w, iter, lossy);
    assert(net_exact(a, xfer) && a.pair.cli.tx.len() == 0) by {
        reveal(cli_emptied);
        lemma_emptied_exact(
            OutletView { tcb: w.pair.cli, link: w.c2s, dice: w.dice },
            iter,
            lossy,
            c,
            v,
            xfer,
            w.pair.cli_sent,
            w.pair.cli_recv,
        );
    }
    let b = srv_emptied(a, iter, lossy);
    assert(net_exact(b, xfer) && b.pair.cli.tx.len() == 0 && b.pair.srv.tx.len() == 0) by {
        reveal(srv_emptied);
        lemma_emptied_exact(
            OutletView { tcb: a.pair.srv, link: a.s2c, dice: a.dice },
            iter,
            lossy,
            v,
            c,
            xfer,
            a.pair.srv_sent,
            a.pair.srv_recv,
        );
    }
    let d = srv_served(b, iter, lossy);
    assert(net_exact(d, xfer) && d.pair.cli.tx.len() == 0 && d.pair.srv.tx.len() == 0) by {
        reveal(srv_served);
        lemma_link_parts(b.c2s, iter, c, xfer);
        let pkts = due(b.c2s, iter);
        lemma_all_arrived_exact(
            OutletView { tcb: b.pair.srv, link: b.s2c, dice: b.dice },
            pkts,
            pkts.len() as int,
            iter,
            lossy,
            v,
            c,
            xfer,
            b.pair.srv_sent,
            b.pair.srv_recv,
        );
    }
    let e = cli_served(d, iter, lossy);
    assert(net_exact(e, xfer) && e.pair.cli.tx.len() == 0 && e.pair.srv.tx.len() == 0) by {
        reveal(cli_served);
        lemma_link_parts(d.s2c, iter, v, xfer);
        let pkts = due(d.s2c, iter);
        lemma_all_arrived_exact(
            OutletView { tcb: d.pair.cli, link: d.c2s, dice: d.dice },
            pkts,
            pkts.len() as int,
            iter,
            lossy,
            c,
            v,
            xfer,
            d.pair.cli_sent,
            d.pair.cli_recv,
        );
    }
}

/// A side that has heard of the other does not forget it.
pub proof fn lemma_heard_exact(
    s: TcbView,
    b: Seq<u8>,
    me: Source,
    peer: Source,
    xfer: u32,
    put: u32,
    got: u32,
)
    requires
        exact(s, me, peer, xfer, put, got),
        has_heard(s.state),
    ensures
        has_heard(injected(s, b).0.state),
        forall|now: u64| has_heard(#[trigger] ticked(at_time(s, now)).state),
        has_heard(closed(s).state),
{
    assert(sound(s)) by {
        reveal(exact);
        reveal(in_order);
    }
    lemma_heard_stays(s, b);
    assert forall|now: u64| has_heard(#[trigger] ticked(at_time(s, now)).state) by {
        lemma_heard_stays(at_time(s, now), b);
    }
}

/// Carrying packets over without loss keeps both sides in order.
pub proof fn lemma_ferried_exact(
    a: TcbView,
    b: TcbView,
    me: Source,
    peer: Source,
    xfer: u32,
    a_put: u32,
    a_got: u32,
    b_put: u32,
    b_got: u32,
)
    requires
        exact(a, me, peer, xfer, a_put, a_got),
        exact(b, peer, me, xfer, b_put, b_got),
    ensures
        exact(ferried(a, b).0, me, peer, xfer, a_put, a_got),
        exact(ferried(a, b).1, peer, me, xfer, b_put, b_got),
        ferried(a, b).0.tx.len() == 0,
        ferried(a, b).0.state == a.state,
        has_heard(b.state) ==> has_heard(ferried(a, b).1.state),
    decreases a.tx.len(),
{
    if a.tx.len() > 0 {
        lemma_taken_exact(a, me, peer, xfer, a_put, a_got);
        lemma_injected_exact(b, a.tx[0], peer, me, xfer, b_put, b_got);
        if has_heard(b.state) {
            lemma_heard_exact(b, a.tx[0], peer, me, xfer, b_put, b_got);
        }
        lemma_ferried_exact(
            TcbView { tx: a.tx.skip(1), ..a },
            injected(b, a.tx[0]).0,
            me,
            peer,
            xfer,
            a_put,
            a_got,
            b_put,
            b_got,
        );
    }
}

} // verus!
