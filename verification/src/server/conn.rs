//! One connection of the echo server.

use crate::error::TcpError;
use crate::num::min;
use crate::ring::is_power_of_two;
use crate::state::State;
use crate::tcb::laws::delivery::{law_read_takes_what_it_returns, rx_ok, unread};
use crate::tcb::model::{
    any_peer, app_recv, app_send, closed, created, injected, listening, ticked, with_key,
    EndpointView, TcbView,
};
use crate::tcb::{Endpoint, Tcb, TcbConfig};
use vstd::prelude::*;

verus! {

/// Most bytes read from a connection at once.
pub const APP_SCRATCH: usize = 4096;

/// Initial retransmission timeout of a listener.
pub const LISTENER_RTO_MS: u32 = 1000;

/// A connection with what the echo server keeps beside it.
pub struct Conn<const BUF: usize> {
    pub tcb: Tcb<BUF>,
    /// The connection is in the active set.
    pub active: bool,
    /// Bytes received and not yet echoed.
    pub pending: Vec<u8>,
    /// The answer has been handed over and the connection is closing.
    pub closing: bool,
    /// Requests answered so far.
    pub served: u64,
}

/// A connection of the server as a mathematical value.
pub struct ConnView {
    pub tcb: TcbView,
    pub active: bool,
    pub pending: Seq<u8>,
    pub closing: bool,
    pub served: u64,
}

impl<const BUF: usize> View for Conn<BUF> {
    type V = ConnView;

    open spec fn view(&self) -> ConnView {
        ConnView {
            tcb: self.tcb@,
            active: self.active,
            pending: self.pending@,
            closing: self.closing,
            served: self.served,
        }
    }
}

/// A listener on `local` that starts at time `now`.
pub open spec fn listener(
    cap: usize,
    local: EndpointView,
    iss: u32,
    now: u64,
    key: Option<Seq<u8>>,
) -> TcbView {
    let s = created(cap, local, any_peer(), iss, LISTENER_RTO_MS);
    with_key(listening(TcbView { now_ms: now, ..s }), key)
}

/// Everything the application can read now, with the connection after it.
pub open spec fn read_all(s: TcbView) -> (TcbView, Seq<u8>)
    decreases unread(s),
    when rx_ok(s)
{
    proof {
        law_read_takes_what_it_returns(s, APP_SCRATCH as int);
    }
    match app_recv(s, APP_SCRATCH as int) {
        (t, Ok(n)) => if n > 0 {
            let (u, rest) = read_all(t);
            (u, s.recv_ring.take(n) + rest)
        } else {
            (s, Seq::empty())
        },
        (_, Err(_)) => (s, Seq::empty()),
    }
}

/// Hands over as much of `data` as the connection takes: the connection after it,
/// and how many bytes that was.
pub open spec fn handed(s: TcbView, data: Seq<u8>) -> (TcbView, int) {
    match app_send(s, data) {
        (t, Ok(n)) => (t, n),
        (t, Err(_)) => (t, 0),
    }
}

/// Index of the first line feed of `b` from `i` on, or the length of `b`.
pub open spec fn line_end(b: Seq<u8>, i: int) -> int
    decreases b.len() - i,
{
    if i >= b.len() || b[i] == 0x0A {
        i
    } else {
        line_end(b, i + 1)
    }
}

/// `x` and one more.
pub open spec fn counted(x: u64) -> u64 {
    min(x + 1, u64::MAX as int) as u64
}

/// What a turn of the server did to a connection.
pub struct Turn {
    pub conn: ConnView,
    /// Bytes handed over to be echoed.
    pub echoed: int,
    /// The line feed of a request has come, so that it is answered.
    pub answered: bool,
}

/// The connection closes after its answer; what was received beyond it is dropped.
pub open spec fn hung_up(c: ConnView, t: TcbView) -> ConnView {
    ConnView { tcb: closed(t), pending: Seq::empty(), closing: true, ..c }
}

/// There is a line feed in `p`.
pub open spec fn has_line(p: Seq<u8>) -> bool {
    line_end(p, 0) < p.len()
}

/// How much of the request `p` is to be echoed: all through the line feed or, once
/// the peer has closed, all there is; nothing before its end has come.
pub open spec fn reply_len(p: Seq<u8>, peer_closed: bool) -> Option<int> {
    if has_line(p) {
        Some(line_end(p, 0) + 1)
    } else if peer_closed {
        Some(p.len() as int)
    } else {
        None
    }
}

/// A turn of a connection that can answer: everything is read, and the request is
/// echoed once its end has come. When all of it has been handed over, the connection
/// closes; what the connection does not take waits for the next turn.
#[verifier::opaque]
pub open spec fn echo_turn(c: ConnView) -> Turn {
    let (t, got) = read_all(c.tcb);
    let p = c.pending + got;
    let complete = has_line(p) && !has_line(c.pending);
    let d = ConnView {
        served: if complete {
            counted(c.served)
        } else {
            c.served
        },
        ..c
    };
    match reply_len(p, c.tcb.state is CloseWait) {
        None => Turn { conn: ConnView { tcb: t, pending: p, ..d }, echoed: 0, answered: complete },
        Some(len) => {
            let (u, n) = handed(t, p.take(len));
            Turn {
                conn: if n == len {
                    hung_up(d, u)
                } else {
                    ConnView { tcb: u, pending: p.skip(n), ..d }
                },
                echoed: n,
                answered: complete,
            }
        },
    }
}

/// What the echo application does with a connection.
pub open spec fn app_turn(c: ConnView) -> Turn {
    if (c.tcb.state is Established || c.tcb.state is CloseWait) && !c.closing {
        echo_turn(c)
    } else {
        Turn { conn: c, echoed: 0, answered: false }
    }
}

/// The connection after it was given the datagram `b`, and what came of it.
#[verifier::opaque]
pub open spec fn conn_given(c: ConnView, b: Seq<u8>, now: u64) -> (ConnView, Result<(), TcpError>) {
    let (t, r) = injected(TcbView { now_ms: now, ..c.tcb }, b);
    (ConnView { tcb: t, ..c }, r)
}

/// The connection is over, or as good as over.
pub open spec fn is_over(s: TcbView) -> bool {
    s.state is Closed || s.state is TimeWait
}

/// There is something left to do for the connection.
pub open spec fn needs_turns(s: TcbView) -> bool {
    !(s.state is Listen) || s.tx.len() > 0
}

/// The connection after its turn: one that is over listens again, under a fresh
/// sequence number. The second part says whether it stays in the active set.
pub open spec fn settled(
    c: ConnView,
    local: EndpointView,
    now: u64,
    iss: u32,
    key: Option<Seq<u8>>,
) -> (ConnView, bool) {
    if is_over(c.tcb) {
        (
            ConnView {
                tcb: listener(c.tcb.cap, local, iss, now, key),
                active: false,
                pending: Seq::empty(),
                closing: false,
                ..c
            },
            false,
        )
    } else if needs_turns(c.tcb) {
        (c, true)
    } else {
        (ConnView { active: false, ..c }, false)
    }
}

/// Index of the first line feed, or the length.
pub fn find_line_end(b: &[u8]) -> (e: usize)
    ensures
        e == line_end(b@, 0),
        e <= b@.len(),
{
    let mut i: usize = 0;
    while i < b.len() && b[i] != 0x0A
        invariant
            i <= b@.len(),
            line_end(b@, 0) == line_end(b@, i as int),
        decreases b@.len() - i,
    {
        i = i + 1;
    }
    i
}

impl<const BUF: usize> Conn<BUF> {
    pub open spec fn wf(&self) -> bool {
        self.tcb.wf()
    }

    /// A new listener, or the error of [`Tcb::new`].
    pub fn new(local: Endpoint, iss: u32, now: u64, key: Option<[u8; 16]>) -> (r: Result<
        Self,
        TcpError,
    >)
        requires
            BUF <= u32::MAX,
        ensures
            r is Ok <==> is_power_of_two(BUF as nat),
            r matches Err(e) ==> e == TcpError::Overflow,
            r matches Ok(c) ==> c.wf() && c@ == (ConnView {
                tcb: listener(BUF, local@, iss, now, key_view(key)),
                active: false,
                pending: Seq::empty(),
                closing: false,
                served: 0,
            }),
    {
        let tcb = match Tcb::<BUF>::new(listener_config(local, iss)) {
            Ok(t) => t,
            Err(e) => {
                return Err(e);
            },
        };
        let mut c = Conn { tcb, active: false, pending: Vec::new(), closing: false, served: 0 };
        c.start_listening(now, key);
        Ok(c)
    }

    /// Starts to listen at time `now`.
    fn start_listening(&mut self, now: u64, key: Option<[u8; 16]>)
        requires
            old(self).wf(),
            old(self)@.tcb.state is Closed,
        ensures
            final(self).wf(),
            final(self)@ == (ConnView {
                tcb: with_key(
                    listening(TcbView { now_ms: now, ..old(self)@.tcb }),
                    key_view(key),
                ),
                ..old(self)@
            }),
    {
        self.tcb.set_now(now);
        let _ = self.tcb.listen();
        if let Some(k) = key {
            self.tcb.set_cookie_secret(&k);
        }
    }

    /// Reads everything there is into what waits to be echoed.
    fn read_pending(&mut self)
        requires
            old(self).wf(),
        ensures
            final(self).wf(),
            final(self)@ == (ConnView {
                tcb: read_all(old(self)@.tcb).0,
                pending: old(self)@.pending + read_all(old(self)@.tcb).1,
                ..old(self)@
            }),
    {
        let mut buf: Vec<u8> = vec![0u8; APP_SCRATCH];
        let ghost start = self@;
        let mut more: bool = true;
        assert(self.pending@ + read_all(self@.tcb).1 =~= start.pending + read_all(start.tcb).1);
        while more
            invariant
                self.wf(),
                buf@.len() == APP_SCRATCH,
                self@.active == start.active && self@.closing == start.closing && self@.served
                    == start.served,
                rx_ok(self@.tcb),
                more ==> read_all(self@.tcb).0 == read_all(start.tcb).0 && self.pending@
                    + read_all(self@.tcb).1 == start.pending + read_all(start.tcb).1,
                !more ==> self@.tcb == read_all(start.tcb).0 && self.pending@ == start.pending
                    + read_all(start.tcb).1,
            decreases unread(self@.tcb), if more { 1int } else { 0int },
        {
            let ghost before = self@;
            proof {
                law_read_takes_what_it_returns(self@.tcb, APP_SCRATCH as int);
            }
            match self.tcb.recv(buf.as_mut_slice()) {
                Ok(n) => {
                    if n == 0 {
                        assert(self.pending@ + Seq::<u8>::empty() =~= self.pending@);
                        more = false;
                    } else {
                        let part: &[u8] = vstd::slice::slice_subrange(buf.as_slice(), 0, n);
                        self.pending.extend_from_slice(part);
                        proof {
                            assert(part@ =~= before.tcb.recv_ring.take(n as int));
                            assert(self.pending@ + read_all(self@.tcb).1 =~= before.pending
                                + read_all(before.tcb).1);
                        }
                    }
                },
                Err(_) => {
                    assert(self.pending@ + Seq::<u8>::empty() =~= self.pending@);
                    more = false;
                },
            }
        }
    }

    /// Hands over the first `n` bytes that wait, as far as the connection takes
    /// them, and says how many that was.
    fn send_all(&mut self, n: usize) -> (sent: usize)
        requires
            old(self).wf(),
            n <= old(self)@.pending.len(),
        ensures
            final(self).wf(),
            sent <= n,
            sent == handed(old(self)@.tcb, old(self)@.pending.take(n as int)).1,
            final(self)@ == (ConnView {
                tcb: handed(old(self)@.tcb, old(self)@.pending.take(n as int)).0,
                pending: old(self)@.pending.skip(sent as int),
                ..old(self)@
            }),
    {
        let part: &[u8] = vstd::slice::slice_subrange(self.pending.as_slice(), 0, n);
        assert(part@ =~= self.pending@.take(n as int));
        let sent: usize = match self.tcb.send(part) {
            Ok(k) => k,
            Err(_) => 0,
        };
        let rest: Vec<u8> = self.pending.split_off(sent);
        self.pending = rest;
        assert(self.pending@ =~= old(self)@.pending.skip(sent as int));
        sent
    }

    /// Closes the connection after its answer.
    fn hang_up(&mut self)
        requires
            old(self).wf(),
        ensures
            final(self).wf(),
            final(self)@ == hung_up(old(self)@, old(self)@.tcb),
    {
        let _ = self.tcb.close();
        self.pending = Vec::new();
        self.closing = true;
    }

    /// Takes the turn of a connection that can answer. Returns the bytes handed over
    /// and whether the line feed of a request has come.
    fn take_turn(&mut self, peer_closed: bool) -> (r: (usize, bool))
        requires
            old(self).wf(),
            peer_closed == (old(self)@.tcb.state is CloseWait),
        ensures
            final(self).wf(),
            final(self)@ == echo_turn(old(self)@).conn,
            r.0 == echo_turn(old(self)@).echoed,
            r.1 == echo_turn(old(self)@).answered,
    {
        proof {
            reveal(echo_turn);
        }
        let seen: bool = find_line_end(self.pending.as_slice()) < self.pending.len();
        self.read_pending();
        let end: usize = find_line_end(self.pending.as_slice());
        let ended: bool = end < self.pending.len();
        let complete: bool = ended && !seen;
        if complete {
            self.served = self.served.saturating_add(1);
        }
        if !ended && !peer_closed {
            return (0, complete);
        }
        let len: usize = if ended {
            end + 1
        } else {
            self.pending.len()
        };
        let n: usize = self.send_all(len);
        if n == len {
            self.hang_up();
        }
        (n, complete)
    }

    /// Lets the echo application work. Returns the bytes handed over and whether the
    /// line feed of a request has come.
    pub fn serve(&mut self) -> (r: (usize, bool))
        requires
            old(self).wf(),
        ensures
            final(self).wf(),
            final(self)@ == app_turn(old(self)@).conn,
            r.0 == app_turn(old(self)@).echoed,
            r.1 == app_turn(old(self)@).answered,
    {
        if self.closing {
            return (0, false);
        }
        match self.tcb.state() {
            State::Established => self.take_turn(false),
            State::CloseWait => self.take_turn(true),
            _ => (0, false),
        }
    }

    /// Ends the turn: a connection that is over listens again. Says whether the
    /// connection stays in the active set.
    pub fn settle(&mut self, local: Endpoint, now: u64, iss: u32, key: Option<[u8; 16]>) -> (stays:
        bool)
        requires
            old(self).wf(),
        ensures
            final(self).wf(),
            (final(self)@, stays) == settled(old(self)@, local@, now, iss, key_view(key)),
    {
        let st = self.tcb.state();
        if matches!(st, State::Closed | State::TimeWait) {
            self.active = false;
            self.closing = false;
            self.pending = Vec::new();
            self.tcb.reinit(listener_config(local, iss));
            self.start_listening(now, key);
            return false;
        }
        let stays: bool = !matches!(st, State::Listen) || self.tcb.tx_ring.len() > 0;
        if !stays {
            self.active = false;
        }
        stays
    }

    /// Takes an inbound datagram at time `now`.
    pub fn inject(&mut self, pkt: &[u8], now: u64) -> (r: Result<(), TcpError>)
        requires
            old(self).wf(),
        ensures
            final(self).wf(),
            (final(self)@, r) == conn_given(old(self)@, pkt@, now),
    {
        proof {
            reveal(conn_given);
        }
        self.tcb.set_now(now);
        self.tcb.inject_packet(pkt)
    }

    /// Sets the clock and drives the timers.
    pub fn drive(&mut self, now: u64)
        requires
            old(self).wf(),
        ensures
            final(self).wf(),
            final(self)@ == (ConnView {
                tcb: ticked(TcbView { now_ms: now, ..old(self)@.tcb }),
                ..old(self)@
            }),
    {
        self.tcb.set_now(now);
        let _ = self.tcb.tick();
    }
}

/// The key as a sequence.
pub open spec fn key_view(key: Option<[u8; 16]>) -> Option<Seq<u8>> {
    match key {
        Some(k) => Some(k@),
        None => None,
    }
}

/// What a listener is created with.
fn listener_config(local: Endpoint, iss: u32) -> (c: TcbConfig)
    ensures
        c.local == local,
        c.remote@ == any_peer(),
        c.iss == iss,
        c.initial_rto_ms == LISTENER_RTO_MS,
{
    let remote = Endpoint { ip: [0, 0, 0, 0], port: 0 };
    assert(remote@.ip =~= any_peer().ip);
    TcbConfig { local, remote, iss, initial_rto_ms: LISTENER_RTO_MS }
}

/// A request ends at its first line feed, and without one it has no end yet.
pub proof fn law_line_ends_at_its_line_feed(b: Seq<u8>, i: int)
    requires
        0 <= i <= b.len(),
    ensures
        i <= line_end(b, i) <= b.len(),
        forall|j: int| i <= j < line_end(b, i) ==> #[trigger] b[j] != 10,
        line_end(b, i) < b.len() ==> b[line_end(b, i)] == 10,
    decreases b.len() - i,
{
    if i < b.len() && b[i] != 10 {
        law_line_ends_at_its_line_feed(b, i + 1);
    }
}

} // verus!
