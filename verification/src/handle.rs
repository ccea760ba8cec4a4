//! Connections as foreign hosts see them: opaque handles, status codes, and a guard
//! against handles that are not alive.

use crate::error::{error_code, TcpError};
use crate::ring::is_power_of_two;
use crate::state::state_byte;
use crate::tcb::model::{
    app_recv, app_recv_len, app_send, closed, connected, created, event_bits, injected, listening,
    may_listen, snapshot, ticked, EndpointView, TcbView,
};
use crate::tcb::{DebugSnapshot, Endpoint, Tcb, TcbConfig};
use crate::BUF_CAP;
use vstd::prelude::*;

verus! {

/// Marks a handle that was set up.
pub const MAGIC_LIVE: u32 = 0x5443_5031;

/// Marks a handle that was torn down.
pub const MAGIC_DEAD: u32 = 0x4445_4144;

/// The state byte of a handle that is not alive.
pub const NO_STATE: u8 = 0xFF;

/// A connection behind a guard word.
pub struct TcpStreamHandle {
    pub magic: u32,
    pub inner: Tcb<BUF_CAP>,
}

/// The status code of a call: zero, or that of its error.
pub open spec fn status<T>(r: Result<T, TcpError>) -> int {
    match r {
        Ok(_) => 0,
        Err(e) => error_code(e),
    }
}

/// What was handed over, if the call succeeded.
pub open spec fn count(r: Result<int, TcpError>) -> Option<int> {
    match r {
        Ok(n) => Some(n),
        Err(_) => None,
    }
}

/// A number of bytes as a mathematical one.
pub open spec fn count_view(n: Option<usize>) -> Option<int> {
    match n {
        Some(n) => Some(n as int),
        None => None,
    }
}

/// The connection at time `now`.
pub open spec fn at(s: TcbView, now: u64) -> TcbView {
    TcbView { now_ms: now, ..s }
}

/// The first packet that waits, taken into a buffer with `room` bytes: the connection
/// after it, and its length.
pub open spec fn taken(s: TcbView, room: int) -> (TcbView, Result<int, TcpError>) {
    if s.tx.len() == 0 {
        (s, Ok(0))
    } else if room < s.tx[0].len() {
        (s, Err(TcpError::BufferTooSmall))
    } else {
        (TcbView { tx: s.tx.skip(1), ..s }, Ok(s.tx[0].len() as int))
    }
}

/// The buffer `b` after the first packet that waits was taken into it.
pub open spec fn taken_into(s: TcbView, b: Seq<u8>) -> Seq<u8> {
    if s.tx.len() == 0 || b.len() < s.tx[0].len() {
        b
    } else {
        s.tx[0] + b.skip(s.tx[0].len() as int)
    }
}

fn status_of(r: Result<(), TcpError>) -> (code: i32)
    ensures
        code == status(r),
{
    match r {
        Ok(_) => 0,
        Err(e) => e.as_code(),
    }
}

fn counted(r: Result<usize, TcpError>) -> (c: (i32, Option<usize>))
    ensures
        c.0 == status(r),
        r matches Ok(n) ==> c.1 == Some(n),
        r is Err ==> c.1 is None,
{
    match r {
        Ok(n) => (0, Some(n)),
        Err(e) => (e.as_code(), None),
    }
}

impl TcpStreamHandle {
    /// The handle was set up and not torn down.
    pub open spec fn live(&self) -> bool {
        self.magic == MAGIC_LIVE
    }

    /// A live handle holds a sound connection.
    pub open spec fn wf(&self) -> bool {
        self.live() ==> self.inner.wf()
    }

    /// The handle is alive, and its connection is `s`.
    pub open spec fn holds(&self, s: TcbView) -> bool {
        self.live() && self.inner.wf() && self.inner@ == s
    }

    /// Sets a handle up between two endpoints. An address that is not there is an
    /// error.
    pub fn init(
        local_ip: Option<[u8; 4]>,
        local_port: u16,
        remote_ip: Option<[u8; 4]>,
        remote_port: u16,
        iss: u32,
        initial_rto_ms: u32,
    ) -> (r: Result<Self, i32>)
        ensures
            match (local_ip, remote_ip) {
                (Some(a), Some(b)) => {
                    &&& r matches Ok(h)
                    &&& h.live() && h.inner.wf()
                    &&& h.inner@ == created(
                        BUF_CAP,
                        (EndpointView { ip: a@, port: local_port }),
                        (EndpointView { ip: b@, port: remote_port }),
                        iss,
                        initial_rto_ms,
                    )
                },
                _ => r matches Err(c) && c == error_code(TcpError::NullPointer),
            },
    {
        let local = match local_ip {
            Some(ip) => Endpoint { ip, port: local_port },
            None => {
                return Err(TcpError::NullPointer.as_code());
            },
        };
        let remote = match remote_ip {
            Some(ip) => Endpoint { ip, port: remote_port },
            None => {
                return Err(TcpError::NullPointer.as_code());
            },
        };
        assert(is_power_of_two(BUF_CAP as nat)) by {
            reveal_with_fuel(is_power_of_two, 21);
        }
        match Tcb::<BUF_CAP>::new(TcbConfig { local, remote, iss, initial_rto_ms }) {
            Ok(inner) => Ok(TcpStreamHandle { magic: MAGIC_LIVE, inner }),
            Err(e) => Err(e.as_code()),
        }
    }

    /// Tells whether the handle is alive.
    pub fn is_live(&self) -> (b: bool)
        ensures
            b == self.live(),
    {
        self.magic == MAGIC_LIVE
    }

    /// Tears the handle down. One that is not alive is left alone.
    pub fn destroy(&mut self) -> (code: i32)
        ensures
            old(self).live() ==> code == 0 && !final(self).live() && final(self).inner == old(
                self,
            ).inner,
            !old(self).live() ==> code == error_code(TcpError::InvalidState) && *final(self)
                == *old(self),
    {
        if self.magic != MAGIC_LIVE {
            return TcpError::InvalidState.as_code();
        }
        self.magic = MAGIC_DEAD;
        0
    }

    /// Starts an active open.
    pub fn connect(&mut self, now_ms: u64) -> (code: i32)
        requires
            old(self).wf(),
        ensures
            final(self).wf(),
            old(self).live() ==> ({
                let s = at(old(self).inner@, now_ms);
                if s.state is Closed {
                    code == 0 && final(self).holds(connected(s))
                } else {
                    code == error_code(TcpError::InvalidState) && final(self).holds(s)
                }
            }),
            !old(self).live() ==> code == error_code(TcpError::NullPointer) && *final(self)
                == *old(self),
    {
        if self.magic != MAGIC_LIVE {
            return TcpError::NullPointer.as_code();
        }
        self.inner.set_now(now_ms);
        let r = self.inner.connect();
        status_of(r)
    }

    /// Starts a passive open; any peer may connect.
    pub fn listen(&mut self, now_ms: u64) -> (code: i32)
        requires
            old(self).wf(),
        ensures
            final(self).wf(),
            old(self).live() ==> ({
                let s = at(old(self).inner@, now_ms);
                if may_listen(s.state) {
                    code == 0 && final(self).holds(listening(s))
                } else {
                    code == error_code(TcpError::InvalidState) && final(self).holds(s)
                }
            }),
            !old(self).live() ==> code == error_code(TcpError::NullPointer) && *final(self)
                == *old(self),
    {
        if self.magic != MAGIC_LIVE {
            return TcpError::NullPointer.as_code();
        }
        self.inner.set_now(now_ms);
        let r = self.inner.listen();
        status_of(r)
    }

    /// Sets the key of the SYN cookies, which turns them on. A key that is not there is
    /// an error.
    pub fn set_cookie_secret(&mut self, secret: Option<[u8; 16]>) -> (code: i32)
        requires
            old(self).wf(),
        ensures
            final(self).wf(),
            old(self).live() && secret is Some ==> code == 0 && final(self).holds(
                (TcbView {
                    cookie_secret: secret->0@,
                    cookie_secret_set: true,
                    ..old(self).inner@
                }),
            ),
            !old(self).live() || secret is None ==> code == error_code(TcpError::NullPointer)
                && *final(self) == *old(self),
    {
        match secret {
            Some(key) => {
                if self.magic != MAGIC_LIVE {
                    return TcpError::NullPointer.as_code();
                }
                self.inner.set_cookie_secret(&key);
                0
            },
            None => TcpError::NullPointer.as_code(),
        }
    }

    /// Begins a graceful close.
    pub fn close(&mut self, now_ms: u64) -> (code: i32)
        requires
            old(self).wf(),
        ensures
            final(self).wf(),
            old(self).live() ==> code == 0 && final(self).holds(
                closed(at(old(self).inner@, now_ms)),
            ),
            !old(self).live() ==> code == error_code(TcpError::NullPointer) && *final(self)
                == *old(self),
    {
        if self.magic != MAGIC_LIVE {
            return TcpError::NullPointer.as_code();
        }
        self.inner.set_now(now_ms);
        let r = self.inner.close();
        status_of(r)
    }

    /// The state as a byte, or [`NO_STATE`] for a handle that is not alive.
    pub fn state(&self) -> (b: u8)
        ensures
            self.live() ==> b == state_byte(self.inner@.state),
            !self.live() ==> b == NO_STATE,
    {
        if self.magic == MAGIC_LIVE {
            self.inner.state().as_byte()
        } else {
            NO_STATE
        }
    }

    /// The event bits, or zero for a handle that is not alive.
    pub fn poll(&self) -> (ev: u32)
        requires
            self.wf(),
        ensures
            self.live() ==> ev == event_bits(self.inner@),
            !self.live() ==> ev == 0,
    {
        if self.magic == MAGIC_LIVE {
            self.inner.poll()
        } else {
            0
        }
    }

    /// Drives the timers.
    pub fn tick(&mut self, now_ms: u64) -> (code: i32)
        requires
            old(self).wf(),
        ensures
            final(self).wf(),
            old(self).live() ==> code == 0 && final(self).holds(
                ticked(at(old(self).inner@, now_ms)),
            ),
            !old(self).live() ==> code == error_code(TcpError::NullPointer) && *final(self)
                == *old(self),
    {
        if self.magic != MAGIC_LIVE {
            return TcpError::NullPointer.as_code();
        }
        self.inner.set_now(now_ms);
        let r = self.inner.tick();
        status_of(r)
    }

    /// Takes application data to send. The second part is how much was taken, if the
    /// call succeeded.
    pub fn send(&mut self, data: &[u8]) -> (r: (i32, Option<usize>))
        requires
            old(self).wf(),
        ensures
            final(self).wf(),
            old(self).live() ==> ({
                let (s, n) = app_send(old(self).inner@, data@);
                final(self).holds(s) && r.0 == status(n) && count_view(r.1) == count(n)
            }),
            !old(self).live() ==> r.0 == error_code(TcpError::NullPointer) && r.1 is None
                && *final(self) == *old(self),
    {
        if self.magic != MAGIC_LIVE {
            return (TcpError::NullPointer.as_code(), None);
        }
        let r = self.inner.send(data);
        counted(r)
    }

    /// Hands received data over into the front of `buf`. The second part is how much
    /// that was, if the call succeeded.
    pub fn recv(&mut self, buf: &mut [u8]) -> (r: (i32, Option<usize>))
        requires
            old(self).wf(),
        ensures
            final(self).wf(),
            old(self).live() ==> ({
                let c = old(self).inner@;
                let (s, n) = app_recv(c, old(buf)@.len() as int);
                let k = app_recv_len(c, old(buf)@.len() as int);
                &&& final(self).holds(s)
                &&& r.0 == status(n)
                &&& count_view(r.1) == count(n)
                &&& final(buf)@ == c.recv_ring.take(k) + old(buf)@.skip(k)
            }),
            !old(self).live() ==> r.0 == error_code(TcpError::NullPointer) && r.1 is None
                && *final(self) == *old(self) && final(buf)@ == old(buf)@,
    {
        if self.magic != MAGIC_LIVE {
            return (TcpError::NullPointer.as_code(), None);
        }
        let r = self.inner.recv(buf);
        counted(r)
    }

    /// Processes an inbound datagram.
    pub fn inject_packet(&mut self, packet: &[u8], now_ms: u64) -> (code: i32)
        requires
            old(self).wf(),
        ensures
            final(self).wf(),
            old(self).live() ==> ({
                let (s, r) = injected(at(old(self).inner@, now_ms), packet@);
                final(self).holds(s) && code == status(r)
            }),
            !old(self).live() ==> code == error_code(TcpError::NullPointer) && *final(self)
                == *old(self),
    {
        if self.magic != MAGIC_LIVE {
            return TcpError::NullPointer.as_code();
        }
        self.inner.set_now(now_ms);
        let r = self.inner.inject_packet(packet);
        status_of(r)
    }

    /// Takes the packet that has waited longest into the front of `buf`. The second part
    /// is its length, or zero when none waits, if the call succeeded.
    pub fn extract_packet(&mut self, buf: &mut [u8]) -> (r: (i32, Option<usize>))
        requires
            old(self).wf(),
        ensures
            final(self).wf(),
            old(self).live() ==> ({
                let c = old(self).inner@;
                let (s, n) = taken(c, old(buf)@.len() as int);
                &&& final(self).holds(s)
                &&& r.0 == status(n)
                &&& count_view(r.1) == count(n)
                &&& final(buf)@ == taken_into(c, old(buf)@)
            }),
            !old(self).live() ==> r.0 == error_code(TcpError::NullPointer) && r.1 is None
                && *final(self) == *old(self) && final(buf)@ == old(buf)@,
    {
        if self.magic != MAGIC_LIVE {
            return (TcpError::NullPointer.as_code(), None);
        }
        let r = self.inner.extract_packet(buf);
        counted(r)
    }

    /// Copies the main variables of the connection.
    pub fn debug_snapshot(&self) -> (r: Result<DebugSnapshot, i32>)
        requires
            self.wf(),
        ensures
            self.live() ==> r == Ok::<DebugSnapshot, i32>(snapshot(self.inner@)),
            !self.live() ==> (r matches Err(c) && c == error_code(TcpError::InvalidState)),
    {
        if self.magic == MAGIC_LIVE {
            Ok(self.inner.debug_snapshot())
        } else {
            Err(TcpError::InvalidState.as_code())
        }
    }
}

/// A packet leaves whole or not at all: into a buffer that has room for it, unchanged and at
/// the front; and the next one is then the first that waits.
pub proof fn law_packets_leave_whole(s: TcbView, b: Seq<u8>)
    ensures
        ({
            let (t, r) = taken(s, b.len() as int);
            let c = taken_into(s, b);
            &&& c.len() == b.len()
            &&& s.tx.len() == 0 ==> t == s && r == Ok::<int, TcpError>(0) && c == b
            &&& s.tx.len() > 0 && b.len() < s.tx[0].len() ==> t == s && r == Err::<int, TcpError>(
                TcpError::BufferTooSmall,
            ) && c == b
            &&& s.tx.len() > 0 && b.len() >= s.tx[0].len() ==> {
                &&& r == Ok::<int, TcpError>(s.tx[0].len() as int)
                &&& t.tx.len() == s.tx.len() - 1
                &&& forall|i: int| 0 <= i < t.tx.len() ==> #[trigger] t.tx[i] == s.tx[i + 1]
                &&& c.take(s.tx[0].len() as int) == s.tx[0]
                &&& c.skip(s.tx[0].len() as int) == b.skip(s.tx[0].len() as int)
            }
        }),
{
    let c = taken_into(s, b);
    if s.tx.len() > 0 && b.len() >= s.tx[0].len() {
        assert(c.take(s.tx[0].len() as int) =~= s.tx[0]);
        assert(c.skip(s.tx[0].len() as int) =~= b.skip(s.tx[0].len() as int));
    }
}

} // verus!
