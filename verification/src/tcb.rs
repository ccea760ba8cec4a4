//! The transmission control block: one connection, driven by its host.
//!
//! A [`Tcb`] does no I/O. The host hands it a clock, inbound datagrams and
//! application data, and takes outbound datagrams and received data from it. It
//! holds the sequence variables, the byte rings, the congestion and loss state and
//! the timers of one connection.

use crate::congestion::Tahoe;
use crate::error::TcpError;
use crate::rack::Rack;
use crate::reassembly::Reassembly;
use crate::ring::Ring;
use crate::scoreboard::SackScoreboard;
use crate::send_queue::SendQueue;
use crate::state::State;
use crate::tx_ring::TxRing;
use crate::MSS;
use vstd::prelude::*;

pub mod acking;
pub mod cookie;
pub mod events;
pub mod handshake;
pub mod host;
pub mod input;
pub mod laws;
pub mod lost_queue;
pub mod model;
pub mod output;
pub mod receiving;
pub mod segments;
pub mod sending;
pub mod timers;
pub mod timing;

pub use cookie::siphash24;
pub use lost_queue::RackLostQueue;

use model::{EndpointView, TcbView};

verus! {

/// Twice the maximum segment lifetime, in milliseconds.
pub const TIME_WAIT_MS: u64 = 60_000;

/// Longest retransmission timeout.
pub const RTO_MAX_MS: u32 = 60_000;

/// Shortest retransmission timeout.
pub const RTO_MIN_MS: u32 = 200;

/// Longest delay of an acknowledgement.
pub const DELAYED_ACK_MS: u64 = 40;

/// Segment size of a peer that offers none (RFC 1122 section 4.2.2.6), and the
/// least that an offer counts as.
pub const DEFAULT_PEER_MSS: u16 = 536;

/// Shortest time to a tail loss probe.
pub const TLP_MIN_PTO_MS: u64 = 10;

/// Most SYN-ACK retransmissions before a half-open connection gives its place
/// back.
pub const MAX_SYN_RCVD_RETRIES: u8 = 5;

/// Most retransmission timeouts in a row, without any sign of life from the peer,
/// before the connection is given up (RFC 9293 section 3.8.3, "R2").
pub const MAX_RETRANSMITS: u8 = 10;

/// Default time without progress, while there is something to send, after which
/// the connection is given up.
pub const DEFAULT_USER_TIMEOUT_MS: u32 = 300_000;

/// Default silence before the first keepalive probe: the least that RFC 1122
/// section 4.2.3.6 allows as a default.
pub const DEFAULT_KEEPALIVE_IDLE_MS: u32 = 7_200_000;

/// Default time between keepalive probes.
pub const DEFAULT_KEEPALIVE_INTVL_MS: u32 = 75_000;

/// Default number of keepalive probes.
pub const DEFAULT_KEEPALIVE_COUNT: u8 = 9;

/// One side of a connection.
#[derive(Copy, Clone, Debug, PartialEq, Eq)]
pub struct Endpoint {
    pub ip: [u8; 4],
    pub port: u16,
}

impl View for Endpoint {
    type V = EndpointView;

    open spec fn view(&self) -> EndpointView {
        EndpointView { ip: self.ip@, port: self.port }
    }
}

/// What a connection is created with.
#[derive(Copy, Clone, Debug)]
pub struct TcbConfig {
    pub local: Endpoint,
    pub remote: Endpoint,
    /// Initial send sequence number; the host chooses an unpredictable one.
    pub iss: u32,
    /// Initial retransmission timeout in milliseconds.
    pub initial_rto_ms: u32,
}

/// A round-trip measurement under way.
#[derive(Copy, Clone, Debug, PartialEq, Eq, Structural)]
pub struct RttProbe {
    /// The acknowledgement that completes it.
    pub seq: u32,
    pub sent_at: u64,
    /// Cleared by a retransmission, after which it no longer counts.
    pub valid: bool,
}

/// Copy of the main variables, for diagnostics.
#[derive(Copy, Clone, Debug)]
pub struct DebugSnapshot {
    pub snd_una: u32,
    pub snd_nxt: u32,
    pub snd_wnd: u32,
    pub rcv_nxt: u32,
    pub cwnd: u32,
    pub ssthresh: u32,
    pub rto_ms: u32,
    /// `u64::MAX` when the timer is not armed.
    pub rto_deadline: u64,
    pub now_ms: u64,
    pub send_ring_len: u32,
    pub recv_ring_len: u32,
    /// Start of the first run held out of order, or zero.
    pub oo_start: u32,
    /// Bytes held out of order.
    pub oo_len: u32,
    /// Length of the packet that waits first, or zero.
    pub tx_len: u32,
    pub pending_ack: bool,
    pub dup_ack_count: u8,
    pub state: u8,
}

/// One connection, with byte rings of `BUF` bytes each way.
pub struct Tcb<const BUF: usize> {
    pub state: State,
    pub local: Endpoint,
    pub remote: Endpoint,
    /// Oldest unacknowledged sequence number.
    pub snd_una: u32,
    /// Next sequence number to send.
    pub snd_nxt: u32,
    /// Highest `snd_nxt` so far. A timeout rewinds `snd_nxt` and not this, so it
    /// bounds what the peer may acknowledge.
    pub snd_max: u32,
    /// The peer's window.
    pub snd_wnd: u32,
    /// Our initial sequence number.
    pub iss: u32,
    /// Next sequence number expected.
    pub rcv_nxt: u32,
    /// Our window.
    pub rcv_wnd: u32,
    /// The peer's initial sequence number.
    pub irs: u32,
    pub local_mss: u16,
    pub peer_mss: u16,
    pub ts_enabled: bool,
    /// Latest timestamp of the peer, echoed to it.
    pub ts_recent: u32,
    /// Shift of the peer's windows.
    pub snd_wscale: u8,
    /// Shift of our windows.
    pub rcv_wscale: u8,
    /// The peer offered window scaling.
    pub ws_offered: bool,
    pub ecn_enabled: bool,
    /// A congestion mark arrived and is echoed until the peer confirms.
    pub ce_observed: bool,
    /// The next segment of data confirms an echo.
    pub send_cwr_pending: bool,
    pub sack_enabled: bool,
    pub sack_scoreboard: SackScoreboard,
    /// Next byte that recovery considers retransmitting.
    pub rxt_seq: u32,
    /// Bytes that recovery has retransmitted and that are not acknowledged.
    pub rxt_unacked: u32,
    pub send_queue: SendQueue,
    pub rack: Rack,
    pub rack_deadline: Option<u64>,
    pub rack_lost_queue: RackLostQueue,
    pub tlp_deadline: Option<u64>,
    /// A tail loss probe has been sent since the last progress.
    pub tlp_fired: bool,
    pub send_ring: Ring<BUF>,
    pub recv_ring: Ring<BUF>,
    pub reasm: Reassembly,
    pub cc: Tahoe,
    pub now_ms: u64,
    pub rto_ms: u32,
    pub srtt_ms: u32,
    pub rttvar_ms: u32,
    pub rtt_first_sample: bool,
    pub rto_deadline: Option<u64>,
    pub rtt_probe: Option<RttProbe>,
    pub pending_ack: bool,
    pub delayed_ack_count: u8,
    pub ack_deadline: Option<u64>,
    pub persist_deadline: Option<u64>,
    pub persist_backoff_ms: u32,
    pub fin_sent: bool,
    pub fin_seq: u32,
    pub time_wait_deadline: Option<u64>,
    pub error: Option<TcpError>,
    pub tx_ring: TxRing,
    /// Identification of the next datagram.
    pub ip_id: u16,
    /// The connection goes back to listening when it ends half open.
    pub is_listener: bool,
    pub syn_rcvd_retries: u8,
    /// Retransmission timeouts since the last sign of life.
    pub rtx_count: u8,
    /// Silence before the first keepalive probe; zero turns keepalive off.
    pub keepalive_idle_ms: u32,
    pub keepalive_intvl_ms: u32,
    pub keepalive_count: u8,
    pub keepalive_probes: u8,
    pub keepalive_deadline: Option<u64>,
    /// Time without progress before the connection is given up; zero turns this
    /// off.
    pub user_timeout_ms: u32,
    pub user_timeout_deadline: Option<u64>,
    /// Key of the SYN cookies.
    pub cookie_secret: [u8; 16],
    pub cookie_secret_set: bool,
}

impl<const BUF: usize> View for Tcb<BUF> {
    type V = TcbView;

    open spec fn view(&self) -> TcbView {
        TcbView {
            cap: BUF,
            state: self.state,
            local: self.local@,
            remote: self.remote@,
            snd_una: self.snd_una,
            snd_nxt: self.snd_nxt,
            snd_max: self.snd_max,
            snd_wnd: self.snd_wnd,
            iss: self.iss,
            rcv_nxt: self.rcv_nxt,
            rcv_wnd: self.rcv_wnd,
            irs: self.irs,
            local_mss: self.local_mss,
            peer_mss: self.peer_mss,
            ts_enabled: self.ts_enabled,
            ts_recent: self.ts_recent,
            snd_wscale: self.snd_wscale,
            rcv_wscale: self.rcv_wscale,
            ws_offered: self.ws_offered,
            ecn_enabled: self.ecn_enabled,
            ce_observed: self.ce_observed,
            send_cwr_pending: self.send_cwr_pending,
            sack_enabled: self.sack_enabled,
            board: self.sack_scoreboard@,
            rxt_seq: self.rxt_seq,
            rxt_unacked: self.rxt_unacked,
            sent: self.send_queue@,
            rack: self.rack,
            rack_deadline: self.rack_deadline,
            lost: self.rack_lost_queue@,
            tlp_deadline: self.tlp_deadline,
            tlp_fired: self.tlp_fired,
            send_ring: self.send_ring@,
            recv_ring: self.recv_ring@,
            reasm: self.reasm@,
            cc: self.cc,
            now_ms: self.now_ms,
            rto_ms: self.rto_ms,
            srtt_ms: self.srtt_ms,
            rttvar_ms: self.rttvar_ms,
            rtt_first_sample: self.rtt_first_sample,
            rto_deadline: self.rto_deadline,
            rtt_probe: self.rtt_probe,
            pending_ack: self.pending_ack,
            delayed_ack_count: self.delayed_ack_count,
            ack_deadline: self.ack_deadline,
            persist_deadline: self.persist_deadline,
            persist_backoff_ms: self.persist_backoff_ms,
            fin_sent: self.fin_sent,
            fin_seq: self.fin_seq,
            time_wait_deadline: self.time_wait_deadline,
            error: self.error,
            tx: self.tx_ring@,
            ip_id: self.ip_id,
            is_listener: self.is_listener,
            syn_rcvd_retries: self.syn_rcvd_retries,
            rtx_count: self.rtx_count,
            keepalive_idle_ms: self.keepalive_idle_ms,
            keepalive_intvl_ms: self.keepalive_intvl_ms,
            keepalive_count: self.keepalive_count,
            keepalive_probes: self.keepalive_probes,
            keepalive_deadline: self.keepalive_deadline,
            user_timeout_ms: self.user_timeout_ms,
            user_timeout_deadline: self.user_timeout_deadline,
            cookie_secret: self.cookie_secret@,
            cookie_secret_set: self.cookie_secret_set,
        }
    }
}

impl<const BUF: usize> Tcb<BUF> {
    /// The parts are sound, a ring's length fits a sequence number, a segment of
    /// `local_mss` bytes fits a packet, and windows are shifted by less than their
    /// width.
    pub open spec fn wf(&self) -> bool {
        &&& BUF <= u32::MAX
        &&& self.send_ring.wf()
        &&& self.recv_ring.wf()
        &&& self.tx_ring.wf()
        &&& self.reasm.wf()
        &&& self.send_queue.wf()
        &&& self.cc.wf()
        &&& self.local_mss <= MSS
        &&& self.snd_wscale <= 14
        &&& self.rcv_wscale <= 16
    }
}

} // verus!
