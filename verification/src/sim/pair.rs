//! Two connections that send each other a stream, and how far they have come.

use crate::sim::stream::{
    at_time, check, checked, finished, is_finished, make_client, make_server, new_client,
    new_server, offer, offered,
};
use crate::sim::{CLI_STREAM, SRV_STREAM};
use crate::tcb::model::{closed, ticked, TcbView};
use crate::tcb::Tcb;
use vstd::prelude::*;

verus! {

/// Two connections and how much of their streams they have sent and received.
pub struct PairView {
    pub cli: TcbView,
    pub srv: TcbView,
    pub cli_sent: u32,
    pub cli_recv: u32,
    pub srv_sent: u32,
    pub srv_recv: u32,
    pub closing: bool,
}

/// The two connections, with nothing transferred.
pub open spec fn paired(cli: TcbView, srv: TcbView) -> PairView {
    PairView { cli, srv, cli_sent: 0, cli_recv: 0, srv_sent: 0, srv_recv: 0, closing: false }
}

/// The clock is set and the timers of both sides are driven.
#[verifier::opaque]
pub open spec fn driven(w: PairView, now: u64) -> PairView {
    PairView { cli: ticked(at_time(w.cli, now)), srv: ticked(at_time(w.srv, now)), ..w }
}

/// Both sides are handed more of their `xfer` bytes, up to `chunk` at a time.
#[verifier::opaque]
pub open spec fn supplied(w: PairView, xfer: u32, chunk: u32) -> PairView {
    let (cli, cli_sent) = offered(w.cli, CLI_STREAM, w.cli_sent, xfer, chunk);
    let (srv, srv_sent) = offered(w.srv, SRV_STREAM, w.srv_sent, xfer, chunk);
    PairView { cli, srv, cli_sent, srv_sent, ..w }
}

/// One of the two connections.
#[derive(Copy, Clone, Debug, PartialEq, Eq, Structural)]
pub enum Side {
    Client,
    Server,
}

/// A byte of a side's incoming stream that is wrong.
#[derive(Copy, Clone, Debug, PartialEq, Eq, Structural)]
pub struct Mismatch {
    pub side: Side,
    pub at: u32,
}

/// The client is read from, up to `room` bytes.
#[verifier::opaque]
pub open spec fn cli_inspected(w: PairView, room: u32) -> Result<PairView, Mismatch> {
    match checked(w.cli, SRV_STREAM, w.cli_recv, room) {
        Ok((cli, cli_recv)) => Ok(PairView { cli, cli_recv, ..w }),
        Err(at) => Err(Mismatch { side: Side::Client, at }),
    }
}

/// The server is read from, up to `room` bytes.
#[verifier::opaque]
pub open spec fn srv_inspected(w: PairView, room: u32) -> Result<PairView, Mismatch> {
    match checked(w.srv, CLI_STREAM, w.srv_recv, room) {
        Ok((srv, srv_recv)) => Ok(PairView { srv, srv_recv, ..w }),
        Err(at) => Err(Mismatch { side: Side::Server, at }),
    }
}

/// Both sides are read from, up to `room` bytes.
#[verifier::opaque]
pub open spec fn inspected(w: PairView, room: u32) -> Result<PairView, Mismatch> {
    match cli_inspected(w, room) {
        Err(m) => Err(m),
        Ok(u) => srv_inspected(u, room),
    }
}

/// All `xfer` bytes have been sent and received both ways.
pub open spec fn transferred(w: PairView, xfer: u32) -> bool {
    &&& w.cli_sent == xfer
    &&& w.cli_recv == xfer
    &&& w.srv_sent == xfer
    &&& w.srv_recv == xfer
}

/// Both sides close once everything has been transferred.
#[verifier::opaque]
pub open spec fn wound_up(w: PairView, xfer: u32) -> PairView {
    if !w.closing && transferred(w, xfer) {
        PairView { cli: closed(w.cli), srv: closed(w.srv), closing: true, ..w }
    } else {
        w
    }
}

/// Both sides were closed and are done.
pub open spec fn done(w: PairView) -> bool {
    w.closing && finished(w.cli) && finished(w.srv)
}

/// Two connections and how much of their streams they have sent and received.
pub struct Pair<const BUF: usize> {
    pub cli: Tcb<BUF>,
    pub srv: Tcb<BUF>,
    pub cli_sent: u32,
    pub cli_recv: u32,
    pub srv_sent: u32,
    pub srv_recv: u32,
    pub closing: bool,
}

impl<const BUF: usize> View for Pair<BUF> {
    type V = PairView;

    open spec fn view(&self) -> PairView {
        PairView {
            cli: self.cli@,
            srv: self.srv@,
            cli_sent: self.cli_sent,
            cli_recv: self.cli_recv,
            srv_sent: self.srv_sent,
            srv_recv: self.srv_recv,
            closing: self.closing,
        }
    }
}

impl<const BUF: usize> Pair<BUF> {
    pub open spec fn wf(&self) -> bool {
        self.cli.wf() && self.srv.wf()
    }

    /// The two connections before they are opened; `None` when `BUF` is not a power
    /// of two.
    pub fn new() -> (r: Option<Self>)
        requires
            BUF <= u32::MAX,
        ensures
            r is Some <==> crate::ring::is_power_of_two(BUF as nat),
            r matches Some(p) ==> p.wf() && p@ == paired(new_client(BUF), new_server(BUF)),
    {
        let cli = match make_client::<BUF>() {
            Some(t) => t,
            None => {
                return None;
            },
        };
        let srv = match make_server::<BUF>() {
            Some(t) => t,
            None => {
                return None;
            },
        };
        Some(
            Pair { cli, srv, cli_sent: 0, cli_recv: 0, srv_sent: 0, srv_recv: 0, closing: false },
        )
    }

    /// Sets the clock and drives the timers of both sides.
    pub fn drive(&mut self, now: u64)
        requires
            old(self).wf(),
        ensures
            final(self).wf(),
            final(self)@ == driven(old(self)@, now),
    {
        proof {
            reveal(driven);
        }
        self.cli.set_now(now);
        self.srv.set_now(now);
        let _ = self.cli.tick();
        let _ = self.srv.tick();
    }

    /// Hands both sides more to send.
    pub fn supply(&mut self, xfer: u32, chunk: u32)
        requires
            old(self).wf(),
        ensures
            final(self).wf(),
            final(self)@ == supplied(old(self)@, xfer, chunk),
    {
        proof {
            reveal(supplied);
        }
        self.cli_sent = offer(&mut self.cli, CLI_STREAM, self.cli_sent, xfer, chunk);
        self.srv_sent = offer(&mut self.srv, SRV_STREAM, self.srv_sent, xfer, chunk);
    }

    fn inspect_cli(&mut self, room: u32) -> (r: Result<(), Mismatch>)
        requires
            old(self).wf(),
        ensures
            final(self).wf(),
            match cli_inspected(old(self)@, room) {
                Ok(w) => r is Ok && final(self)@ == w,
                Err(m) => r == Err::<(), Mismatch>(m),
            },
    {
        proof {
            reveal(cli_inspected);
        }
        match check(&mut self.cli, SRV_STREAM, self.cli_recv, room) {
            Ok(n) => {
                self.cli_recv = n;
                Ok(())
            },
            Err(at) => Err(Mismatch { side: Side::Client, at }),
        }
    }

    fn inspect_srv(&mut self, room: u32) -> (r: Result<(), Mismatch>)
        requires
            old(self).wf(),
        ensures
            final(self).wf(),
            match srv_inspected(old(self)@, room) {
                Ok(w) => r is Ok && final(self)@ == w,
                Err(m) => r == Err::<(), Mismatch>(m),
            },
    {
        proof {
            reveal(srv_inspected);
        }
        match check(&mut self.srv, CLI_STREAM, self.srv_recv, room) {
            Ok(n) => {
                self.srv_recv = n;
                Ok(())
            },
            Err(at) => Err(Mismatch { side: Side::Server, at }),
        }
    }

    /// Reads from both sides and checks the bytes.
    pub fn inspect(&mut self, room: u32) -> (r: Result<(), Mismatch>)
        requires
            old(self).wf(),
        ensures
            final(self).wf(),
            match inspected(old(self)@, room) {
                Ok(w) => r is Ok && final(self)@ == w,
                Err(m) => r == Err::<(), Mismatch>(m),
            },
    {
        proof {
            reveal(inspected);
        }
        match self.inspect_cli(room) {
            Ok(()) => self.inspect_srv(room),
            Err(m) => Err(m),
        }
    }

    /// Closes both sides once everything has been transferred.
    pub fn wind_up(&mut self, xfer: u32)
        requires
            old(self).wf(),
        ensures
            final(self).wf(),
            final(self)@ == wound_up(old(self)@, xfer),
    {
        proof {
            reveal(wound_up);
        }
        if !self.closing && self.cli_sent == xfer && self.cli_recv == xfer && self.srv_sent == xfer
            && self.srv_recv == xfer {
            let _ = self.cli.close();
            let _ = self.srv.close();
            self.closing = true;
        }
    }

    /// Both sides were closed and are done.
    pub fn is_done(&self) -> (b: bool)
        ensures
            b == done(self@),
    {
        self.closing && is_finished(&self.cli) && is_finished(&self.srv)
    }
}

} // verus!
