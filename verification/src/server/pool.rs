//! The echo server's connections and its active set.

use crate::error::TcpError;
use crate::num::min;
use crate::ring::is_power_of_two;
use crate::server::conn::{
    app_turn, conn_given, counted, key_view, listener, needs_turns, settled, Conn, ConnView,
};
use crate::server::demux::{dest_index, parse_dest_index};
use crate::state::State;
use crate::tcb::model::{ticked, EndpointView, TcbView};
use crate::tcb::Endpoint;
use vstd::prelude::*;

verus! {

/// What the server has done so far.
#[derive(Copy, Clone, Debug, PartialEq, Eq, Structural)]
pub struct ServerStats {
    pub connections_accepted: u64,
    pub bytes_echoed: u64,
    pub udp_rx: u64,
    pub udp_tx: u64,
    pub parse_rejects: u64,
    pub cookie_validations: u64,
    pub active_now: u64,
}

/// A row of listeners at one address, with consecutive ports from `base_port` on.
pub struct Server<const BUF: usize> {
    pub server_ip: [u8; 4],
    pub base_port: u16,
    pub cookie_secret: Option<[u8; 16]>,
    pub conns: Vec<Conn<BUF>>,
    /// Indices of the connections that need turns.
    pub active: Vec<u16>,
    pub stats: ServerStats,
}

/// The server as a mathematical value.
pub struct ServerView {
    pub ip: Seq<u8>,
    pub base: u16,
    pub key: Option<Seq<u8>>,
    pub conns: Seq<ConnView>,
    pub active: Seq<u16>,
    pub stats: ServerStats,
}

impl<const BUF: usize> View for Server<BUF> {
    type V = ServerView;

    open spec fn view(&self) -> ServerView {
        ServerView {
            ip: self.server_ip@,
            base: self.base_port,
            key: key_view(self.cookie_secret),
            conns: Seq::new(self.conns@.len(), |i: int| self.conns@[i]@),
            active: self.active@,
            stats: self.stats,
        }
    }
}

/// Nothing has been done yet.
pub open spec fn no_stats() -> ServerStats {
    ServerStats {
        connections_accepted: 0,
        bytes_echoed: 0,
        udp_rx: 0,
        udp_tx: 0,
        parse_rejects: 0,
        cookie_validations: 0,
        active_now: 0,
    }
}

/// Where the listener `i` listens.
pub open spec fn local_of(s: ServerView, i: int) -> EndpointView {
    EndpointView { ip: s.ip, port: (s.base + i) as u16 }
}

/// A fresh listener of the server.
pub open spec fn fresh_conn(cap: usize, local: EndpointView, iss: u32, key: Option<Seq<u8>>) -> ConnView {
    ConnView {
        tcb: listener(cap, local, iss, 0, key),
        active: false,
        pending: Seq::empty(),
        closing: false,
        served: 0,
    }
}

/// The server after the connection `i` has become `c`.
pub open spec fn with_conn(s: ServerView, i: int, c: ConnView) -> ServerView {
    ServerView { conns: s.conns.update(i, c), ..s }
}

/// The server with the statistics `stats`.
pub open spec fn with_stats(s: ServerView, stats: ServerStats) -> ServerView {
    ServerView { stats, ..s }
}

/// A datagram was turned away.
pub open spec fn turned_away(s: ServerView) -> ServerView {
    with_stats(s, ServerStats { parse_rejects: counted(s.stats.parse_rejects), ..s.stats })
}

/// A datagram has arrived.
pub open spec fn arrival_counted(s: ServerView) -> ServerView {
    with_stats(s, ServerStats { udp_rx: counted(s.stats.udp_rx), ..s.stats })
}

/// The connection `i` has taken a datagram, in the state `was`: it enters the active
/// set if there is something to do for it, and an acknowledgement that established
/// it at once returned a cookie.
#[verifier::opaque]
pub open spec fn enlisted(s: ServerView, i: int, was: State) -> ServerView {
    let c = s.conns[i];
    let t = if needs_turns(c.tcb) && !c.active {
        ServerView {
            active: s.active.push(i as u16),
            ..with_conn(s, i, ConnView { active: true, ..c })
        }
    } else {
        s
    };
    if was is Listen && c.tcb.state is Established {
        with_stats(
            t,
            ServerStats { cookie_validations: counted(s.stats.cookie_validations), ..s.stats },
        )
    } else {
        t
    }
}

/// The server after the connection `i` was given the datagram `b`, and what came of
/// it.
#[verifier::opaque]
pub open spec fn given(s: ServerView, i: int, b: Seq<u8>, now: u64) -> (
    ServerView,
    Result<(), TcpError>,
) {
    let (c, r) = conn_given(s.conns[i], b, now);
    (with_conn(s, i, c), r)
}

/// The server after the datagram `b` has arrived, and which connection took it.
pub open spec fn received(s: ServerView, b: Seq<u8>, now: u64) -> (ServerView, Option<int>) {
    let s = arrival_counted(s);
    match dest_index(b, s.ip, s.base, s.conns.len() as int) {
        None => (turned_away(s), None),
        Some(i) => match given(s, i, b, now) {
            (u, Ok(_)) => (enlisted(u, i, s.conns[i].tcb.state), Some(i)),
            (u, Err(_)) => (turned_away(u), None),
        },
    }
}

/// The server after the timers of the connection `i` were driven.
pub open spec fn driven(s: ServerView, i: int, now: u64) -> ServerView {
    let c = s.conns[i];
    with_conn(s, i, ConnView { tcb: ticked(TcbView { now_ms: now, ..c.tcb }), ..c })
}

/// The server after the turn of the connection `i`, and whether it stays active.
pub open spec fn turned(s: ServerView, i: int, now: u64, iss: u32) -> (ServerView, bool) {
    let a = app_turn(s.conns[i]);
    let (c, stays) = settled(a.conn, local_of(s, i), now, iss, s.key);
    let stats = ServerStats {
        bytes_echoed: min(s.stats.bytes_echoed + a.echoed, u64::MAX as int) as u64,
        connections_accepted: if a.answered {
            counted(s.stats.connections_accepted)
        } else {
            s.stats.connections_accepted
        },
        ..s.stats
    };
    (with_stats(with_conn(s, i, c), stats), stays)
}

/// The memory that `count` connections of `size` bytes need, in MiB.
pub open spec fn mib_needed(size: int, count: int) -> int {
    min(size * count, usize::MAX as int) / 0x10_0000
}

/// Says how many MiB `count` connections of `size` bytes need, if that is more than
/// `cap_mib`.
pub fn over_budget(size: usize, count: u16, cap_mib: usize) -> (r: Option<usize>)
    ensures
        match r {
            Some(m) => m == mib_needed(size as int, count as int) && m > cap_mib,
            None => mib_needed(size as int, count as int) <= cap_mib,
        },
{
    let total: usize = match size.checked_mul(count as usize) {
        Some(t) => t,
        None => usize::MAX,
    };
    let mib: usize = total / 0x10_0000;
    if mib > cap_mib {
        Some(mib)
    } else {
        None
    }
}

impl<const BUF: usize> Server<BUF> {
    /// Every connection is sound and has a port, and the active set names
    /// connections.
    pub open spec fn wf(&self) -> bool {
        &&& self.base_port + self.conns@.len() <= 65536
        &&& forall|i: int| 0 <= i < self.conns@.len() ==> (#[trigger] self.conns@[i]).wf()
        &&& forall|k: int|
            0 <= k < self.active@.len() ==> (#[trigger] self.active@[k]) < self.conns@.len()
    }

    /// One listener for each initial sequence number in `isses`, or the error of
    /// [`crate::tcb::Tcb::new`].
    pub fn new(
        server_ip: [u8; 4],
        base_port: u16,
        isses: &Vec<u32>,
        cookie_secret: Option<[u8; 16]>,
    ) -> (r: Result<Self, TcpError>)
        requires
            BUF <= u32::MAX,
            base_port + isses@.len() <= 65536,
        ensures
            r is Ok <==> isses@.len() == 0 || is_power_of_two(BUF as nat),
            r matches Err(e) ==> e == TcpError::Overflow,
            r matches Ok(s) ==> {
                &&& s.wf()
                &&& s@.ip == server_ip@
                &&& s@.base == base_port
                &&& s@.key == key_view(cookie_secret)
                &&& s@.active.len() == 0
                &&& s@.stats == no_stats()
                &&& s@.conns == Seq::new(
                    isses@.len(),
                    |i: int| fresh_conn(BUF, local_of(s@, i), isses@[i], s@.key),
                )
            },
    {
        let mut conns: Vec<Conn<BUF>> = Vec::with_capacity(isses.len());
        let mut i: usize = 0;
        while i < isses.len()
            invariant
                BUF <= u32::MAX,
                base_port + isses@.len() <= 65536,
                i <= isses@.len(),
                conns@.len() == i,
                i > 0 ==> is_power_of_two(BUF as nat),
                forall|j: int| 0 <= j < i ==> (#[trigger] conns@[j]).wf(),
                forall|j: int|
                    0 <= j < i ==> (#[trigger] conns@[j])@ == fresh_conn(
                        BUF,
                        EndpointView { ip: server_ip@, port: (base_port + j) as u16 },
                        isses@[j],
                        key_view(cookie_secret),
                    ),
            decreases isses@.len() - i,
        {
            let local = Endpoint { ip: server_ip, port: base_port + i as u16 };
            match Conn::<BUF>::new(local, isses[i], 0, cookie_secret) {
                Ok(c) => {
                    conns.push(c);
                },
                Err(e) => {
                    return Err(e);
                },
            }
            i = i + 1;
        }
        let stats = ServerStats {
            connections_accepted: 0,
            bytes_echoed: 0,
            udp_rx: 0,
            udp_tx: 0,
            parse_rejects: 0,
            cookie_validations: 0,
            active_now: 0,
        };
        let s = Server { server_ip, base_port, cookie_secret, conns, active: Vec::new(), stats };
        assert(s@.conns =~= Seq::new(
            isses@.len(),
            |i: int| fresh_conn(BUF, local_of(s@, i), isses@[i], s@.key),
        ));
        Ok(s)
    }

    fn count_reject(&mut self)
        requires
            old(self).wf(),
        ensures
            final(self).wf(),
            final(self)@ == turned_away(old(self)@),
    {
        self.stats.parse_rejects = self.stats.parse_rejects.saturating_add(1);
        assert(self@.conns =~= old(self)@.conns);
    }

    fn count_arrival(&mut self)
        requires
            old(self).wf(),
        ensures
            final(self).wf(),
            final(self)@ == arrival_counted(old(self)@),
            final(self).conns@.len() == old(self).conns@.len(),
    {
        self.stats.udp_rx = self.stats.udp_rx.saturating_add(1);
        assert(self@.conns =~= old(self)@.conns);
    }

    fn inject(&mut self, i: usize, pkt: &[u8], now: u64) -> (r: Result<(), TcpError>)
        requires
            old(self).wf(),
            i < old(self).conns@.len(),
        ensures
            final(self).wf(),
            final(self).conns@.len() == old(self).conns@.len(),
            (final(self)@, r) == given(old(self)@, i as int, pkt@, now),
    {
        proof {
            reveal(given);
        }
        let c = &mut self.conns[i];
        let r = c.inject(pkt, now);
        assert(self@.conns =~= given(old(self)@, i as int, pkt@, now).0.conns);
        r
    }

    fn enlist(&mut self, i: usize, was: State)
        requires
            old(self).wf(),
            i < old(self).conns@.len(),
        ensures
            final(self).wf(),
            final(self).conns@.len() == old(self).conns@.len(),
            final(self)@ == enlisted(old(self)@, i as int, was),
    {
        proof {
            reveal(enlisted);
        }
        let st = self.conns[i].tcb.state();
        let needs: bool = !matches!(st, State::Listen) || self.conns[i].tcb.tx_ring.len() > 0;
        if needs && !self.conns[i].active {
            let c = &mut self.conns[i];
            c.active = true;
            self.active.push(i as u16);
            proof {
                let c = old(self)@.conns[i as int];
                assert(self@.conns =~= old(self)@.conns.update(
                    i as int,
                    ConnView { active: true, ..c },
                ));
                assert(self@.active =~= old(self)@.active.push(i as u16));
            }
        }
        let ghost mid = self@;
        if matches!(was, State::Listen) && matches!(st, State::Established) {
            self.stats.cookie_validations = self.stats.cookie_validations.saturating_add(1);
            assert(self@.conns =~= mid.conns);
        }
    }

    /// Takes an inbound datagram, and says which connection accepted it.
    pub fn receive(&mut self, pkt: &[u8], now: u64) -> (r: Option<usize>)
        requires
            old(self).wf(),
        ensures
            final(self).wf(),
            final(self)@ == received(old(self)@, pkt@, now).0,
            match received(old(self)@, pkt@, now).1 {
                Some(i) => r matches Some(j) && j == i,
                None => r is None,
            },
            r matches Some(j) ==> j < final(self).conns@.len(),
    {
        self.count_arrival();
        match parse_dest_index(pkt, self.server_ip, self.base_port, self.conns.len()) {
            None => {
                self.count_reject();
                None
            },
            Some(i) => {
                let was = self.conns[i].tcb.state();
                match self.inject(i, pkt, now) {
                    Ok(_) => {
                        self.enlist(i, was);
                        Some(i)
                    },
                    Err(_) => {
                        self.count_reject();
                        None
                    },
                }
            },
        }
    }

    /// Takes the active set; each index in it names a connection.
    pub fn take_active(&mut self) -> (set: Vec<u16>)
        requires
            old(self).wf(),
        ensures
            final(self).wf(),
            set@ == old(self)@.active,
            forall|k: int| 0 <= k < set@.len() ==> (#[trigger] set@[k]) < final(self).conns@.len(),
            final(self)@ == (ServerView { active: Seq::empty(), ..old(self)@ }),
    {
        let mut set: Vec<u16> = Vec::new();
        std::mem::swap(&mut set, &mut self.active);
        assert(self@.conns =~= old(self)@.conns);
        set
    }

    /// Puts back what stays of the active set.
    pub fn keep_active(&mut self, set: Vec<u16>)
        requires
            old(self).wf(),
            forall|k: int| 0 <= k < set@.len() ==> (#[trigger] set@[k]) < old(self).conns@.len(),
        ensures
            final(self).wf(),
            final(self)@ == (ServerView {
                active: set@,
                stats: ServerStats { active_now: set@.len() as u64, ..old(self)@.stats },
                ..old(self)@
            }),
    {
        self.stats.active_now = set.len() as u64;
        self.active = set;
        assert(self@.conns =~= old(self)@.conns);
    }

    /// Starts the turn of the connection `i`: sets its clock and drives its timers.
    pub fn begin_turn(&mut self, i: usize, now: u64)
        requires
            old(self).wf(),
            i < old(self).conns@.len(),
        ensures
            final(self).wf(),
            final(self).conns@.len() == old(self).conns@.len(),
            final(self)@ == driven(old(self)@, i as int, now),
    {
        let c = &mut self.conns[i];
        c.drive(now);
        assert(self@.conns =~= driven(old(self)@, i as int, now).conns);
    }

    /// Takes the next packet that the connection `i` wants sent into `out`, and
    /// returns its length; zero if there is none or it does not fit.
    pub fn next_packet(&mut self, i: usize, out: &mut [u8]) -> (n: usize)
        requires
            old(self).wf(),
            i < old(self).conns@.len(),
        ensures
            final(self).wf(),
            final(self).conns@.len() == old(self).conns@.len(),
            ({
                let c = old(self)@.conns[i as int];
                let s = old(self)@;
                if c.tcb.tx.len() > 0 && c.tcb.tx[0].len() <= old(out)@.len() {
                    &&& n == c.tcb.tx[0].len()
                    &&& final(out)@ == c.tcb.tx[0] + old(out)@.skip(n as int)
                    &&& final(self)@ == with_stats(
                        with_conn(
                            s,
                            i as int,
                            ConnView { tcb: TcbView { tx: c.tcb.tx.skip(1), ..c.tcb }, ..c },
                        ),
                        ServerStats { udp_tx: counted(s.stats.udp_tx), ..s.stats },
                    )
                } else {
                    n == 0 && final(out)@ == old(out)@ && final(self)@ == s
                }
            }),
    {
        let some: bool = self.conns[i].tcb.tx_ring.len() > 0;
        let c = &mut self.conns[i];
        let r = c.tcb.extract_packet(out);
        let n: usize = match r {
            Ok(n) => n,
            Err(_) => 0,
        };
        let ghost c0 = old(self)@.conns[i as int];
        if some && r.is_ok() {
            self.stats.udp_tx = self.stats.udp_tx.saturating_add(1);
            assert(self@.conns =~= old(self)@.conns.update(
                i as int,
                ConnView { tcb: TcbView { tx: c0.tcb.tx.skip(1), ..c0.tcb }, ..c0 },
            ));
        } else {
            assert(self@.conns =~= old(self)@.conns);
        }
        n
    }

    /// Ends the turn of the connection `i`: the echo application works, and a
    /// connection that is over listens again under the sequence number `iss`. Says
    /// whether the connection stays in the active set.
    pub fn end_turn(&mut self, i: usize, now: u64, iss: u32) -> (stays: bool)
        requires
            old(self).wf(),
            i < old(self).conns@.len(),
        ensures
            final(self).wf(),
            final(self).conns@.len() == old(self).conns@.len(),
            (final(self)@, stays) == turned(old(self)@, i as int, now, iss),
    {
        let local = Endpoint { ip: self.server_ip, port: self.base_port + i as u16 };
        let key = self.cookie_secret;
        let c = &mut self.conns[i];
        let (n, answered) = c.serve();
        let stays: bool = c.settle(local, now, iss, key);
        let echoed: u64 = self.stats.bytes_echoed.saturating_add(n as u64);
        self.stats.bytes_echoed = echoed;
        if answered {
            let accepted: u64 = self.stats.connections_accepted.saturating_add(1);
            self.stats.connections_accepted = accepted;
        }
        assert(self@.conns =~= turned(old(self)@, i as int, now, iss).0.conns);
        stays
    }
}

/// Connections are within a budget of `cap` MiB exactly if all of them together take less than
/// one MiB more.
pub proof fn law_budget_is_in_mib(size: int, count: int, cap: int)
    requires
        0 <= size * count <= usize::MAX,
        0 <= cap,
    ensures
        mib_needed(size, count) <= cap <==> size * count < (cap + 1) * 0x10_0000,
{
}

} // verus!
