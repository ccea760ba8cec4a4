//! The calls of the host and of the application.

use crate::congestion::Tahoe;
use crate::error::TcpError;
use crate::num::{max_u32, min_u32};
use crate::rack::Rack;
use crate::reassembly::Reassembly;
use crate::ring::{is_power_of_two, Ring};
use crate::scoreboard::SackScoreboard;
use crate::send_queue::SendQueue;
use crate::seq::{seq_gt, seq_le, seq_lt};
use crate::state::State;
use crate::tcb::events;
use crate::tcb::lost_queue::RackLostQueue;
use crate::tcb::model::{
    aborted, any_peer, app_recv, app_recv_len, app_send, breach, closed, connected, created,
    data_buffered, data_read, earlier, event_bits, keepalive_set, lemma_renewed, listening,
    may_listen, next_output, no_secret, open_to_all, opening, phantoms, reassigned, snapshot,
    stall, torn_down, unlistened, user_timeout_set, TcbView,
};
use crate::tcb::{
    DebugSnapshot, Endpoint, Tcb, TcbConfig, DEFAULT_KEEPALIVE_COUNT, DEFAULT_KEEPALIVE_IDLE_MS,
    DEFAULT_KEEPALIVE_INTVL_MS, DEFAULT_PEER_MSS, DEFAULT_USER_TIMEOUT_MS, RTO_MAX_MS, RTO_MIN_MS,
};
use crate::tx_ring::TxRing;
use crate::wire::{flags, TcpOptions};
use crate::MSS;
use vstd::prelude::*;

verus! {

/// The retransmission timeout that a setting stands for.
fn clamped_rto(ms: u32) -> (r: u32)
    ensures
        r == crate::tcb::model::clamp_rto(ms as int),
{
    max_u32(min_u32(ms, RTO_MAX_MS), RTO_MIN_MS)
}

/// The key before one is set.
fn zero_secret() -> (k: [u8; 16])
    ensures
        k@ == no_secret(),
{
    let k: [u8; 16] = [0u8; 16];
    assert(k@ =~= no_secret());
    k
}

/// The earlier of two deadlines.
pub(crate) fn earlier_of(a: Option<u64>, b: Option<u64>) -> (r: Option<u64>)
    ensures
        r == earlier(a, b),
{
    match (a, b) {
        (Some(x), Some(y)) => if x <= y {
            Some(x)
        } else {
            Some(y)
        },
        (Some(x), None) => Some(x),
        (None, y) => y,
    }
}

impl<const BUF: usize> Tcb<BUF> {
    /// A closed connection between the endpoints of `cfg`. The capacity of the
    /// rings has to be a power of two.
    pub fn new(cfg: TcbConfig) -> (r: Result<Self, TcpError>)
        requires
            BUF <= u32::MAX,
        ensures
            r is Ok <==> is_power_of_two(BUF as nat),
            r matches Err(e) ==> e == TcpError::Overflow,
            r matches Ok(t) ==> t.wf() && t@ == created(
                BUF,
                cfg.local@,
                cfg.remote@,
                cfg.iss,
                cfg.initial_rto_ms,
            ),
    {
        let send_ring = match Ring::<BUF>::new() {
            Ok(ring) => ring,
            Err(e) => {
                return Err(e);
            },
        };
        let recv_ring = match Ring::<BUF>::new() {
            Ok(ring) => ring,
            Err(e) => {
                return Err(e);
            },
        };
        Ok(
            Tcb {
                state: State::Closed,
                local: cfg.local,
                remote: cfg.remote,
                snd_una: cfg.iss,
                snd_nxt: cfg.iss,
                snd_max: cfg.iss,
                snd_wnd: 0,
                iss: cfg.iss,
                rcv_nxt: 0,
                rcv_wnd: BUF as u32,
                irs: 0,
                local_mss: MSS,
                peer_mss: DEFAULT_PEER_MSS,
                ts_enabled: false,
                ts_recent: 0,
                snd_wscale: 0,
                rcv_wscale: 0,
                ws_offered: false,
                ecn_enabled: false,
                ce_observed: false,
                send_cwr_pending: false,
                sack_enabled: false,
                sack_scoreboard: SackScoreboard::new(),
                rxt_seq: 0,
                rxt_unacked: 0,
                send_queue: SendQueue::new(),
                rack: Rack::new(),
                rack_deadline: None,
                rack_lost_queue: RackLostQueue::new(),
                tlp_deadline: None,
                tlp_fired: false,
                send_ring,
                recv_ring,
                reasm: Reassembly::new(),
                cc: Tahoe::new(BUF as u32),
                now_ms: 0,
                rto_ms: clamped_rto(cfg.initial_rto_ms),
                srtt_ms: 0,
                rttvar_ms: 0,
                rtt_first_sample: false,
                rto_deadline: None,
                rtt_probe: None,
                pending_ack: false,
                delayed_ack_count: 0,
                ack_deadline: None,
                persist_deadline: None,
                persist_backoff_ms: 0,
                fin_sent: false,
                fin_seq: 0,
                time_wait_deadline: None,
                error: None,
                tx_ring: TxRing::new(),
                ip_id: 0,
                is_listener: false,
                syn_rcvd_retries: 0,
                rtx_count: 0,
                keepalive_idle_ms: DEFAULT_KEEPALIVE_IDLE_MS,
                keepalive_intvl_ms: DEFAULT_KEEPALIVE_INTVL_MS,
                keepalive_count: DEFAULT_KEEPALIVE_COUNT,
                keepalive_probes: 0,
                keepalive_deadline: None,
                user_timeout_ms: DEFAULT_USER_TIMEOUT_MS,
                user_timeout_deadline: None,
                cookie_secret: zero_secret(),
                cookie_secret_set: false,
            },
        )
    }

    /// Takes the endpoints and settings of a new connection.
    fn reassign(&mut self, cfg: TcbConfig)
        requires
            old(self).wf(),
        ensures
            final(self).wf(),
            final(self)@ == reassigned(
                old(self)@,
                cfg.local@,
                cfg.remote@,
                cfg.iss,
                cfg.initial_rto_ms,
            ),
    {
        proof {
            reveal(reassigned);
        }
        self.local = cfg.local;
        self.remote = cfg.remote;
        self.iss = cfg.iss;
        self.rto_ms = clamped_rto(cfg.initial_rto_ms);
        self.local_mss = MSS;
        self.is_listener = false;
        self.cookie_secret = zero_secret();
        self.cookie_secret_set = false;
        self.now_ms = 0;
        self.ip_id = 0;
        self.keepalive_idle_ms = DEFAULT_KEEPALIVE_IDLE_MS;
        self.keepalive_intvl_ms = DEFAULT_KEEPALIVE_INTVL_MS;
        self.keepalive_count = DEFAULT_KEEPALIVE_COUNT;
        self.user_timeout_ms = DEFAULT_USER_TIMEOUT_MS;
    }

    /// Makes the connection anew for another pair of endpoints, keeping the storage
    /// of its rings.
    pub fn reinit(&mut self, cfg: TcbConfig)
        requires
            old(self).wf(),
        ensures
            final(self).wf(),
            final(self)@ == created(
                BUF,
                cfg.local@,
                cfg.remote@,
                cfg.iss,
                cfg.initial_rto_ms,
            ),
    {
        proof {
            lemma_renewed(self@, cfg.local@, cfg.remote@, cfg.iss, cfg.initial_rto_ms);
        }
        self.reassign(cfg);
        self.reset_connection_state();
        self.set_state(State::Closed);
    }

    /// The connection's state.
    pub fn state(&self) -> (s: State)
        ensures
            s == self@.state,
    {
        self.state
    }

    /// Copies the main variables.
    pub fn debug_snapshot(&self) -> (d: DebugSnapshot)
        requires
            self.wf(),
        ensures
            d == snapshot(self@),
    {
        DebugSnapshot {
            snd_una: self.snd_una,
            snd_nxt: self.snd_nxt,
            snd_wnd: self.snd_wnd,
            rcv_nxt: self.rcv_nxt,
            cwnd: self.cc.cwnd,
            ssthresh: self.cc.ssthresh,
            rto_ms: self.rto_ms,
            rto_deadline: match self.rto_deadline {
                Some(d) => d,
                None => u64::MAX,
            },
            now_ms: self.now_ms,
            send_ring_len: self.send_ring.len() as u32,
            recv_ring_len: self.recv_ring.len() as u32,
            oo_start: match self.reasm.first_run(self.rcv_nxt) {
                Some(start) => start,
                None => 0,
            },
            oo_len: self.reasm.held_bytes() as u32,
            tx_len: match self.tx_ring.peek_head_len() {
                Some(n) => n as u32,
                None => 0,
            },
            pending_ack: self.pending_ack,
            dup_ack_count: self.cc.dup_acks,
            state: self.state.as_byte(),
        }
    }

    /// Outstanding sequence numbers that no buffered byte stands for.
    fn phantoms(&self) -> (n: u32)
        ensures
            n == phantoms(self@),
            n <= 2,
    {
        let syn: u32 = if matches!(self.state, State::SynSent | State::SynRcvd) && seq_lt(
            self.snd_una,
            self.snd_max,
        ) {
            1
        } else {
            0
        };
        let fin: u32 = if self.fin_sent && seq_le(self.snd_una, self.fin_seq) && seq_lt(
            self.fin_seq,
            self.snd_max,
        ) {
            1
        } else {
            0
        };
        syn + fin
    }

    /// Checks that the variables are consistent, and otherwise says what is wrong.
    /// No peer should ever be able to bring an inconsistency about. That a packet
    /// that waits fits [`crate::MAX_PACKET`] needs no check: the ring holds no other.
    pub fn debug_validate_invariants(&self) -> (r: Result<(), &'static str>)
        requires
            self.wf(),
        ensures
            match r {
                Ok(()) => breach(self@) is None,
                Err(e) => breach(self@) == Some(e@),
            },
    {
        if seq_lt(self.snd_max, self.snd_una) {
            return Err("snd_max is behind snd_una");
        }
        if seq_lt(self.snd_nxt, self.snd_una) {
            return Err("snd_nxt is behind snd_una");
        }
        if seq_lt(self.snd_max, self.snd_nxt) {
            return Err("snd_nxt is beyond snd_max");
        }
        if self.fin_sent {
            let fin_end: u32 = self.fin_seq.wrapping_add(1);
            if seq_gt(fin_end, self.snd_max) {
                return Err("fin_seq is beyond snd_max");
            }
            if !matches!(
                self.state,
                State::FinWait1
                    | State::FinWait2
                    | State::Closing
                    | State::TimeWait
                    | State::LastAck
                    | State::Closed
            ) {
                return Err("fin_sent set in non-closing state");
            }
            if matches!(self.state, State::FinWait2 | State::TimeWait | State::Closed) && seq_lt(
                self.snd_una,
                fin_end,
            ) {
                return Err("state requires our FIN to be ACKed");
            }
        }
        let outstanding: u32 = self.snd_max.wrapping_sub(self.snd_una);
        let room: u64 = self.send_ring.len() as u64 + self.phantoms() as u64;
        if outstanding as u64 > room {
            return Err("outstanding sequence span exceeds buffered data plus SYN/FIN");
        }
        if self.rto_deadline.is_some() && seq_le(self.snd_max, self.snd_una) {
            return Err("RTO armed with no outstanding sequence space");
        }
        Ok(())
    }

    /// Checks that a connection at rest, with its packets extracted and its timers
    /// driven, will act on what is left to do, and otherwise says what is wrong.
    pub fn debug_check_liveness(&self) -> (r: Result<(), &'static str>)
        requires
            self.wf(),
        ensures
            match r {
                Ok(()) => stall(self@) is None,
                Err(e) => stall(self@) == Some(e@),
            },
    {
        if self.tx_ring.peek_head_len().is_some() {
            return Ok(());
        }
        if seq_lt(self.snd_una, self.snd_max) && self.rto_deadline.is_none()
            && self.tlp_deadline.is_none() && self.rack_deadline.is_none() {
            return Err("liveness: outstanding data with no retransmit timer");
        }
        if self.state.can_send() && self.send_ring.len() != 0 && self.snd_wnd == 0 && seq_le(
            self.snd_max,
            self.snd_una,
        ) && self.persist_deadline.is_none() {
            return Err("liveness: data queued under zero window with no persist timer");
        }
        Ok(())
    }

    /// The earliest deadline at which something may be sent. The end of TIME_WAIT
    /// sends nothing and is no such deadline.
    pub fn debug_next_deadline(&self) -> (r: Option<u64>)
        ensures
            r == next_output(self@),
    {
        earlier_of(
            self.rto_deadline,
            earlier_of(
                self.tlp_deadline,
                earlier_of(
                    self.rack_deadline,
                    earlier_of(
                        self.persist_deadline,
                        earlier_of(self.ack_deadline, self.keepalive_deadline),
                    ),
                ),
            ),
        )
    }

    /// Sets the clock.
    pub fn set_now(&mut self, now_ms: u64)
        requires
            old(self).wf(),
        ensures
            final(self).wf(),
            final(self)@ == (TcbView { now_ms, ..old(self)@ }),
    {
        self.now_ms = now_ms;
    }

    /// Sets keepalive up: after `idle_ms` of silence on an idle connection, up to
    /// `count` probes go out `intvl_ms` apart, and then the connection is given up.
    /// Zero for `idle_ms` turns keepalive off. Until this is called the defaults
    /// hold, from the first segment of the peer on.
    pub fn set_keepalive(&mut self, idle_ms: u32, intvl_ms: u32, count: u8)
        requires
            old(self).wf(),
        ensures
            final(self).wf(),
            final(self)@ == keepalive_set(old(self)@, idle_ms, intvl_ms, count),
    {
        proof {
            reveal(keepalive_set);
        }
        self.keepalive_idle_ms = idle_ms;
        self.keepalive_intvl_ms = max_u32(intvl_ms, 1);
        self.keepalive_count = count;
        self.keepalive_probes = 0;
        self.keepalive_deadline =
        if idle_ms == 0 {
            None
        } else {
            Some(self.now_ms.wrapping_add(idle_ms as u64))
        };
    }

    /// Sets the user timeout: the longest time without progress, while there is
    /// work, before the connection is given up. Zero turns it off.
    pub fn set_user_timeout(&mut self, ms: u32)
        requires
            old(self).wf(),
        ensures
            final(self).wf(),
            final(self)@ == user_timeout_set(old(self)@, ms),
    {
        proof {
            reveal(user_timeout_set);
        }
        let deadline: Option<u64> = if ms == 0 || !self.has_work() {
            None
        } else {
            Some(self.now_ms.wrapping_add(ms as u64))
        };
        self.user_timeout_ms = ms;
        self.user_timeout_deadline = deadline;
    }

    /// Begins an active open.
    fn begin_open(&mut self)
        requires
            old(self).wf(),
        ensures
            final(self).wf(),
            final(self)@ == opening(old(self)@),
    {
        proof {
            reveal(opening);
        }
        self.state = State::SynSent;
        self.snd_una = self.iss;
    }

    /// Starts an active open, which a closed connection can.
    pub fn connect(&mut self) -> (r: Result<(), TcpError>)
        requires
            old(self).wf(),
        ensures
            final(self).wf(),
            old(self)@.state is Closed ==> r == Ok::<(), TcpError>(()) && final(self)@
                == connected(old(self)@),
            !(old(self)@.state is Closed) ==> r == Err::<(), TcpError>(TcpError::InvalidState)
                && final(self)@ == old(self)@,
    {
        if self.state != State::Closed {
            return Err(TcpError::InvalidState);
        }
        self.begin_open();
        self.send_syn();
        Ok(())
    }

    /// Lets any peer connect.
    fn open_to_all(&mut self)
        requires
            old(self).wf(),
        ensures
            final(self).wf(),
            final(self)@ == open_to_all(old(self)@),
    {
        proof {
            reveal(open_to_all);
        }
        let ip: [u8; 4] = [0u8, 0u8, 0u8, 0u8];
        assert(ip@ =~= any_peer().ip);
        self.remote = Endpoint { ip, port: 0 };
        self.is_listener = true;
    }

    /// Starts a passive open, which a connection that is closed, listening or in
    /// TIME_WAIT can.
    pub fn listen(&mut self) -> (r: Result<(), TcpError>)
        requires
            old(self).wf(),
        ensures
            final(self).wf(),
            may_listen(old(self)@.state) ==> r == Ok::<(), TcpError>(()) && final(self)@
                == listening(old(self)@),
            !may_listen(old(self)@.state) ==> r == Err::<(), TcpError>(TcpError::InvalidState)
                && final(self)@ == old(self)@,
    {
        match self.state {
            State::Closed | State::Listen | State::TimeWait => {},
            _ => {
                return Err(TcpError::InvalidState);
            },
        }
        self.open_to_all();
        self.reset_connection_state();
        self.set_state(State::Listen);
        Ok(())
    }

    /// Sets the key of the SYN cookies, and so lets a listener keep no state for a
    /// SYN.
    pub fn set_cookie_secret(&mut self, secret: &[u8; 16])
        requires
            old(self).wf(),
        ensures
            final(self).wf(),
            final(self)@ == (TcbView {
                cookie_secret: secret@,
                cookie_secret_set: true,
                ..old(self)@
            }),
    {
        self.cookie_secret = *secret;
        self.cookie_secret_set = true;
    }

    /// Buffers application data and says how much that was.
    fn buffer(&mut self, data: &[u8]) -> (n: usize)
        requires
            old(self).wf(),
        ensures
            final(self).wf(),
            n == crate::num::min(data@.len() as int, BUF - old(self)@.send_ring.len()),
            final(self)@ == data_buffered(old(self)@, data@, n as int),
    {
        proof {
            reveal(data_buffered);
        }
        self.send_ring.write(data)
    }

    /// Takes application data to send, as far as there is room for it.
    pub fn send(&mut self, data: &[u8]) -> (r: Result<usize, TcpError>)
        requires
            old(self).wf(),
        ensures
            final(self).wf(),
            final(self)@ == app_send(old(self)@, data@).0,
            match app_send(old(self)@, data@).1 {
                Ok(n) => r matches Ok(m) && m == n,
                Err(e) => r == Err::<usize, TcpError>(e),
            },
    {
        if !self.state.can_send() {
            return Err(TcpError::InvalidState);
        }
        if self.send_ring.free() == 0 && data.len() != 0 {
            return Err(TcpError::WouldBlock);
        }
        Ok(self.buffer(data))
    }

    /// Reads up to `dst.len()` received bytes.
    fn read_out(&mut self, dst: &mut [u8]) -> (n: usize)
        requires
            old(self).wf(),
        ensures
            final(self).wf(),
            n == crate::num::min(old(dst)@.len() as int, old(self)@.recv_ring.len() as int),
            final(self)@ == data_read(old(self)@, n as int),
            final(dst)@ == old(self)@.recv_ring.take(n as int) + old(dst)@.skip(n as int),
    {
        proof {
            reveal(data_read);
        }
        self.recv_ring.read(dst)
    }

    /// Hands the application received data into the front of `dst`. Once the stream
    /// has ended and all of it has been read that is an error, as it is after a
    /// failure.
    pub fn recv(&mut self, dst: &mut [u8]) -> (r: Result<usize, TcpError>)
        requires
            old(self).wf(),
        ensures
            final(self).wf(),
            final(self)@ == app_recv(old(self)@, old(dst)@.len() as int).0,
            match app_recv(old(self)@, old(dst)@.len() as int).1 {
                Ok(n) => r matches Ok(m) && m == n,
                Err(e) => r == Err::<usize, TcpError>(e),
            },
            ({
                let n = app_recv_len(old(self)@, old(dst)@.len() as int);
                final(dst)@ == old(self)@.recv_ring.take(n) + old(dst)@.skip(n)
            }),
    {
        if let Some(e) = self.error {
            assert(dst@ =~= self@.recv_ring.take(0) + dst@.skip(0));
            return Err(e);
        }
        if self.recv_ring.is_empty() || dst.len() == 0 {
            assert(dst@ =~= self@.recv_ring.take(0) + dst@.skip(0));
            if self.recv_ring.is_empty() && matches!(
                self.state,
                State::Closed
                    | State::CloseWait
                    | State::LastAck
                    | State::Closing
                    | State::TimeWait
            ) {
                return Err(TcpError::ConnectionClosed);
            }
            return Ok(0);
        }
        let n: usize = self.read_out(dst);
        self.drain_reassembly();
        self.update_window();
        Ok(n)
    }

    /// Makes the connection no listener any more.
    fn unlisten(&mut self)
        requires
            old(self).wf(),
        ensures
            final(self).wf(),
            final(self)@ == unlistened(old(self)@),
    {
        proof {
            reveal(unlistened);
        }
        self.is_listener = false;
    }

    /// Begins a graceful close. Doing so again changes nothing.
    pub fn close(&mut self) -> (r: Result<(), TcpError>)
        requires
            old(self).wf(),
        ensures
            final(self).wf(),
            final(self)@ == closed(old(self)@),
            r == Ok::<(), TcpError>(()),
    {
        match self.state {
            State::Established | State::SynRcvd => {
                self.set_state(State::FinWait1);
                self.maybe_send_data();
            },
            State::CloseWait => {
                self.set_state(State::LastAck);
                self.maybe_send_data();
            },
            State::SynSent | State::Listen => {
                self.unlisten();
                self.set_state(State::Closed);
            },
            _ => {},
        }
        Ok(())
    }

    /// Closes the connection and empties it.
    fn tear_down(&mut self)
        requires
            old(self).wf(),
        ensures
            final(self).wf(),
            final(self)@ == torn_down(old(self)@),
    {
        proof {
            reveal(torn_down);
        }
        self.state = State::Closed;
        self.error = Some(TcpError::ConnectionReset);
        self.send_ring.clear();
        self.recv_ring.clear();
        self.reasm.clear();
        self.rto_deadline = None;
        self.time_wait_deadline = None;
        self.persist_deadline = None;
        self.ack_deadline = None;
        self.rack_deadline = None;
        self.tlp_deadline = None;
    }

    /// Tears the connection down at once. A peer that knows of it is sent a reset,
    /// and all buffered data is dropped. Doing so again changes nothing.
    pub fn abort(&mut self) -> (r: Result<(), TcpError>)
        requires
            old(self).wf(),
        ensures
            final(self).wf(),
            final(self)@ == aborted(old(self)@),
            r == Ok::<(), TcpError>(()),
    {
        match self.state {
            State::Closed => {
                return Ok(());
            },
            State::Listen | State::SynSent => {
                self.unlisten();
            },
            _ => {
                let seq: u32 = self.snd_nxt;
                let ack: u32 = self.rcv_nxt;
                let none: [u8; 0] = [];
                assert(none@ =~= Seq::<u8>::empty());
                self.emit_segment(
                    flags::RST | flags::ACK,
                    seq,
                    ack,
                    &TcpOptions::none(),
                    none.as_slice(),
                );
            },
        }
        self.tear_down();
        Ok(())
    }

    /// The event bits that tell the host what to do next.
    pub fn poll(&self) -> (ev: u32)
        requires
            self.wf(),
        ensures
            ev == event_bits(self@),
    {
        let mut ev: u32 = 0;
        if !self.recv_ring.is_empty() {
            ev = ev | events::READABLE;
        }
        if self.state.can_send() && self.send_ring.free() > 0 {
            ev = ev | events::WRITABLE;
        }
        if matches!(self.state, State::Established) {
            ev = ev | events::ESTABLISHED;
        }
        if matches!(
            self.state,
            State::CloseWait | State::LastAck | State::Closing | State::TimeWait
        ) {
            ev = ev | events::PEER_CLOSED;
        }
        if matches!(self.state, State::Closed) {
            ev = ev | events::CLOSED;
        }
        if matches!(self.state, State::Listen) {
            ev = ev | events::LISTENING;
        }
        if matches!(self.state, State::SynRcvd) {
            ev = ev | events::HALF_OPEN;
        }
        if !self.tx_ring.is_empty() {
            ev = ev | events::TX_PENDING;
        }
        if self.error.is_some() {
            ev = ev | events::ERROR;
        }
        ev
    }

    /// Takes the packet that has waited longest into the front of `out` and returns
    /// its length, or 0 when none waits. A packet that does not fit stays.
    pub fn extract_packet(&mut self, out: &mut [u8]) -> (r: Result<usize, TcpError>)
        requires
            old(self).wf(),
        ensures
            final(self).wf(),
            old(self)@.tx.len() == 0 ==> r == Ok::<usize, TcpError>(0) && final(self)@ == old(
                self,
            )@ && final(out)@ == old(out)@,
            old(self)@.tx.len() > 0 && old(out)@.len() < old(self)@.tx[0].len() ==> r == Err::<
                usize,
                TcpError,
            >(TcpError::BufferTooSmall) && final(self)@ == old(self)@ && final(out)@ == old(out)@,
            old(self)@.tx.len() > 0 && old(out)@.len() >= old(self)@.tx[0].len() ==> {
                &&& r matches Ok(n) && n == old(self)@.tx[0].len()
                &&& final(self)@ == (TcbView { tx: old(self)@.tx.skip(1), ..old(self)@ })
                &&& final(out)@ == old(self)@.tx[0] + old(out)@.skip(
                    old(self)@.tx[0].len() as int,
                )
            },
    {
        self.tx_ring.pop_into(out)
    }
}

} // verus!
