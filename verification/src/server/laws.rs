//! What the echo server gives back.

use crate::server::conn::{
    app_turn, conn_given, echo_turn, handed, has_line, line_end, read_all, reply_len, settled,
    ConnView, APP_SCRATCH,
};
use crate::server::demux::dest_index;
use crate::server::pool::{arrival_counted, enlisted, given, received, turned, ServerView};
use crate::state::State;
use crate::tcb::laws::delivery::{law_read_takes_what_it_returns, unread};
use crate::tcb::laws::frame::lemma_send_data;
use crate::tcb::laws::inbound::law_read_returns_the_stream;
use crate::tcb::laws::segments::lemma_drain_send;
use crate::tcb::laws::stream::{head, intact, Stream};
use crate::tcb::model::{
    app_recv, app_recv_len, closed, data_buffered, data_read, drain, in_state, injected,
    open_to_all, reset, EndpointView, TcbView,
};
use crate::wire::{ip_header_len, parse_packet, SegmentView};
use crate::wire::bytes::be16;
use vstd::prelude::*;

verus! {

/// What waits to be echoed is the part of the peer's stream `f` from `start` up to
/// where the connection has been read.
pub open spec fn waiting(c: ConnView, start: u32, f: Stream) -> bool {
    &&& f.agrees(start, c.pending)
    &&& c.pending.len() + unread(c.tcb) <= u32::MAX
    &&& start.wrapping_add(c.pending.len() as u32) == head(c.tcb)
}

/// Everything that is read is the stream's, and nothing is sent by reading.
proof fn lemma_read_all(s: TcbView, f: Stream)
    requires
        intact(s, f),
        unread(s) <= u32::MAX,
    ensures
        ({
            let (t, got) = read_all(s);
            &&& intact(t, f)
            &&& f.agrees(head(s), got)
            &&& got.len() + unread(t) == unread(s)
            &&& head(t) == head(s).wrapping_add(got.len() as u32)
            &&& t.state == s.state
            &&& t.cap == s.cap
            &&& t.send_ring == s.send_ring
        }),
    decreases unread(s),
{
    let room = APP_SCRATCH as int;
    law_read_takes_what_it_returns(s, room);
    law_read_returns_the_stream(s, room, f);
    if let (t, Ok(n)) = app_recv(s, room) {
        if n > 0 {
            assert(t.state == s.state && t.send_ring == s.send_ring) by {
                reveal(data_read);
                lemma_drain_send(data_read(s, app_recv_len(s, room)));
                lemma_drain_send(drain(data_read(s, app_recv_len(s, room))));
            }
            lemma_read_all(t, f);
            let (u, rest) = read_all(t);
            let part = s.recv_ring.take(n);
            assert forall|i: int| 0 <= i < (part + rest).len() implies (f.byte)(
                head(s).wrapping_add(i as u32),
            ) == Some(#[trigger] (part + rest)[i]) by {
                if i < n {
                    assert((part + rest)[i] == part[i]);
                } else {
                    assert((part + rest)[i] == rest[i - n]);
                    assert(head(s).wrapping_add(i as u32) == head(t).wrapping_add((i - n) as u32));
                }
            }
        }
    }
}

/// Closing an established connection leaves what is buffered alone.
proof fn lemma_closed_keeps_ring(s: TcbView)
    requires
        s.state is Established || s.state is CloseWait,
    ensures
        closed(s).send_ring == s.send_ring,
{
    reveal(in_state);
    if s.state is Established {
        lemma_send_data(in_state(s, State::FinWait1));
    } else {
        lemma_send_data(in_state(s, State::LastAck));
    }
}

proof fn lemma_line_end(b: Seq<u8>, i: int)
    requires
        0 <= i <= b.len(),
    ensures
        i <= line_end(b, i) <= b.len(),
        line_end(b, i) < b.len() ==> b[line_end(b, i)] == 0x0A,
        forall|k: int| i <= k < line_end(b, i) ==> #[trigger] b[k] != 0x0A,
    decreases b.len() - i,
{
    if i < b.len() && b[i] != 0x0A {
        lemma_line_end(b, i + 1);
    }
}

/// [`has_line`] finds a line feed if there is one, and the first one.
proof fn lemma_has_line(b: Seq<u8>)
    ensures
        has_line(b) == b.contains(0x0A),
        0 <= line_end(b, 0) <= b.len(),
        has_line(b) ==> b[line_end(b, 0)] == 0x0A,
        forall|k: int| 0 <= k < line_end(b, 0) ==> #[trigger] b[k] != 0x0A,
{
    lemma_line_end(b, 0);
}

/// The echo is the peer's own stream: what a turn hands over to be sent are the bytes
/// that wait, in order, and never beyond the first line feed; what is not handed over
/// goes on waiting. The connection hangs up exactly when the whole request has been
/// handed over: the line up to and with its line feed or, for a peer that closes
/// without one, everything that it has sent. The request is counted when its line feed
/// comes.
pub proof fn law_echo_is_the_stream(c: ConnView, start: u32, f: Stream)
    requires
        c.tcb.state is Established || c.tcb.state is CloseWait,
        c.tcb.send_ring.len() <= c.tcb.cap,
        !c.closing,
        intact(c.tcb, f),
        waiting(c, start, f),
    ensures
        ({
            let t = echo_turn(c);
            let all = c.pending + read_all(c.tcb).1;
            let over = c.tcb.state is CloseWait;
            &&& 0 <= t.echoed <= all.len()
            &&& f.agrees(start, all)
            &&& t.conn.tcb.send_ring == c.tcb.send_ring + all.take(t.echoed)
            &&& forall|k: int| 0 <= k < t.echoed - 1 ==> #[trigger] all[k] != 0x0A
            &&& t.conn.closing <==> (t.echoed > 0 && all[t.echoed - 1] == 0x0A) || (over
                && !all.contains(0x0A) && t.echoed == all.len())
            &&& !t.conn.closing ==> t.conn.tcb.state == c.tcb.state && waiting(
                t.conn,
                start.wrapping_add(t.echoed as u32),
                f,
            )
            &&& t.answered <==> all.contains(0x0A) && !c.pending.contains(0x0A)
        }),
{
    reveal(echo_turn);
    reveal(data_buffered);
    lemma_read_all(c.tcb, f);
    let (t, got) = read_all(c.tcb);
    let p = c.pending + got;
    assert forall|i: int| 0 <= i < p.len() implies (f.byte)(start.wrapping_add(i as u32)) == Some(
        #[trigger] p[i],
    ) by {
        if i < c.pending.len() {
            assert(p[i] == c.pending[i]);
        } else {
            let j = i - c.pending.len();
            assert(p[i] == got[j]);
            assert(start.wrapping_add(i as u32) == head(c.tcb).wrapping_add(j as u32));
        }
    }
    lemma_has_line(p);
    lemma_has_line(c.pending);
    match reply_len(p, c.tcb.state is CloseWait) {
        None => {
            assert(c.tcb.send_ring + p.take(0) =~= c.tcb.send_ring);
            assert(start.wrapping_add(0) == start);
        },
        Some(len) => {
            let line = p.take(len);
            let (u, n) = handed(t, line);
            assert(line.take(n) =~= p.take(n));
            assert(t.send_ring + p.take(0) =~= t.send_ring);
            if n == len {
                lemma_closed_keeps_ring(u);
            } else {
                let rest = p.skip(n);
                let next = start.wrapping_add(n as u32);
                assert forall|i: int| 0 <= i < rest.len() implies (f.byte)(
                    next.wrapping_add(i as u32),
                ) == Some(#[trigger] rest[i]) by {
                    assert(rest[i] == p[i + n]);
                    assert(next.wrapping_add(i as u32) == start.wrapping_add((i + n) as u32));
                }
                assert(head(u) == head(t));
                if n > 0 {
                    assert(p[n - 1] != 0x0A);
                }
            }
        },
    }
}

/// The active set names each connection that is marked active, once, and no other.
pub open spec fn listed(s: ServerView) -> bool {
    &&& s.conns.len() <= 65536
    &&& s.active.no_duplicates()
    &&& forall|i: int|
        0 <= i < s.conns.len() ==> ((#[trigger] s.conns[i]).active <==> s.active.contains(i as u16))
}

/// A datagram, whatever it holds, leaves the active set in step with the connections.
pub proof fn law_receive_keeps_active_set(s: ServerView, b: Seq<u8>, now: u64)
    requires
        listed(s),
    ensures
        listed(received(s, b, now).0),
{
    let a = arrival_counted(s);
    assert(a.conns == s.conns && a.active == s.active);
    if let Some(i) = dest_index(b, a.ip, a.base, a.conns.len() as int) {
        reveal(given);
        reveal(conn_given);
        reveal(enlisted);
        let u = given(a, i, b, now).0;
        assert(u.active == s.active);
        assert forall|k: int| 0 <= k < u.conns.len() implies (#[trigger] u.conns[k]).active
            == s.conns[k].active by {}
        assert(listed(u)) by {
            assert forall|k: int| 0 <= k < u.conns.len() implies ((#[trigger] u.conns[k]).active
                <==> u.active.contains(k as u16)) by {
                assert(u.conns[k].active == s.conns[k].active);
            }
        }
        let t = enlisted(u, i, a.conns[i].tcb.state);
        if t.active != u.active {
            assert(!u.conns[i].active && !u.active.contains(i as u16));
            let grown = u.active.push(i as u16);
            assert forall|k: int| 0 <= k < t.conns.len() implies ((#[trigger] t.conns[k]).active
                <==> grown.contains(k as u16)) by {
                assert(u.conns[k].active <==> u.active.contains(k as u16));
                assert(grown[u.active.len() as int] == i as u16);
                if u.active.contains(k as u16) {
                    let j = choose|j: int| 0 <= j < u.active.len() && u.active[j] == k as u16;
                    assert(grown[j] == k as u16);
                }
            }
            assert(grown.no_duplicates());
        }
    }
}

/// After its turn a connection is marked active exactly when it is to stay in the
/// active set.
pub proof fn law_turn_keeps_active_set(s: ServerView, i: int, now: u64, iss: u32)
    requires
        0 <= i < s.conns.len(),
        s.conns[i].active,
    ensures
        turned(s, i, now, iss).0.conns[i].active == turned(s, i, now, iss).1,
        forall|k: int|
            0 <= k < s.conns.len() && k != i ==> #[trigger] turned(s, i, now, iss).0.conns[k]
                == s.conns[k],
{
    reveal(echo_turn);
}

/// A datagram goes to the listener whose port it names, if there is one: the port is that of
/// the listener, and the address is the server's.
pub proof fn law_datagram_goes_to_its_port(b: Seq<u8>, g: SegmentView, ip: Seq<u8>, base: u16, n: int)
    requires
        parse_packet(b) == Some(g),
        0 <= n,
    ensures
        dest_index(b, ip, base, n) matches Some(i) ==> g.dst_ip == ip && g.dst_port == base + i && 0
            <= i < n,
        g.dst_ip == ip && base <= g.dst_port < base + n ==> dest_index(b, ip, base, n) == Some(
            g.dst_port - base,
        ),
{
    let ihl = ip_header_len(b);
    let t = b.subrange(ihl, be16(b, 2) as int);
    assert(be16(t, 2) == be16(b, ihl + 2)) by {
        assert(t[2] == b[ihl + 2] && t[3] == b[ihl + 3]);
    }
}

/// A datagram touches one connection at most, and every datagram is counted: as one that came
/// and, if no connection takes it, as one that was turned away.
pub proof fn law_datagram_touches_one_connection(s: ServerView, b: Seq<u8>, now: u64)
    requires
        s.stats.udp_rx < u64::MAX,
        s.stats.parse_rejects < u64::MAX,
    ensures
        ({
            let (t, taken) = received(s, b, now);
            let at = dest_index(b, s.ip, s.base, s.conns.len() as int);
            &&& t.conns.len() == s.conns.len()
            &&& forall|k: int|
                0 <= k < s.conns.len() && at != Some(k) ==> #[trigger] t.conns[k] == s.conns[k]
            &&& t.stats.udp_rx == s.stats.udp_rx + 1
            &&& taken is Some ==> taken == at && t.stats.parse_rejects == s.stats.parse_rejects
            &&& taken is None ==> t.stats.parse_rejects == s.stats.parse_rejects + 1
            &&& taken is Some <==> (at matches Some(i) && injected(
                TcbView { now_ms: now, ..s.conns[i].tcb },
                b,
            ).1 is Ok)
            &&& at matches Some(i) ==> t.conns[i].tcb == injected(
                TcbView { now_ms: now, ..s.conns[i].tcb },
                b,
            ).0
        }),
{
    reveal(given);
    reveal(conn_given);
    reveal(enlisted);
}

/// A connection that is over gives its place to a new listener on the same port, which knows
/// nothing of it; what it has answered stays counted. Another one goes on as it is.
pub proof fn law_place_is_given_back(
    c: ConnView,
    local: EndpointView,
    now: u64,
    iss: u32,
    key: Option<Seq<u8>>,
)
    ensures
        ({
            let (d, stays) = settled(c, local, now, iss, key);
            let over = c.tcb.state is Closed || c.tcb.state is TimeWait;
            &&& d.served == c.served
            &&& over ==> {
                &&& !stays && !d.active && !d.closing && d.pending.len() == 0
                &&& d.tcb.state is Listen && d.tcb.local == local && d.tcb.iss == iss
                &&& d.tcb.now_ms == now && d.tcb.error is None
                &&& d.tcb.recv_ring.len() == 0 && d.tcb.send_ring.len() == 0 && d.tcb.tx.len() == 0
                &&& d.tcb.cookie_secret_set == (key is Some)
            }
            &&& !over ==> d.tcb == c.tcb && d.pending == c.pending && d.closing == c.closing
            &&& !over ==> (stays <==> !(c.tcb.state is Listen) || c.tcb.tx.len() > 0)
            &&& !over && !stays ==> !d.active
            &&& !over && stays ==> d.active == c.active
        }),
{
    reveal(open_to_all);
    reveal(reset);
    reveal(in_state);
}

/// A turn counts what it does: the bytes that it echoes, and each request that it answers.
pub proof fn law_turn_is_counted(s: ServerView, i: int, now: u64, iss: u32)
    requires
        0 <= i < s.conns.len(),
        s.stats.bytes_echoed <= 0x7FFF_FFFF_FFFF_FFFF,
        s.stats.connections_accepted < u64::MAX,
        0 <= app_turn(s.conns[i]).echoed <= u32::MAX,
    ensures
        ({
            let a = app_turn(s.conns[i]);
            let t = turned(s, i, now, iss).0;
            &&& t.stats.bytes_echoed == s.stats.bytes_echoed + a.echoed
            &&& t.stats.connections_accepted == s.stats.connections_accepted + (if a.answered {
                1int
            } else {
                0int
            })
            &&& t.stats.udp_rx == s.stats.udp_rx && t.stats.udp_tx == s.stats.udp_tx
            &&& t.conns.len() == s.conns.len()
        }),
{
}

} // verus!
