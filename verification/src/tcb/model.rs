//! The mathematical state of a connection, and what each step makes of it.
//!
//! A [`TcbView`] holds the variables of a connection with its buffers as plain
//! sequences. Each function below says what one step of the protocol leaves of
//! it; the executable methods of [`crate::tcb::Tcb`] are proved to do the same.

use crate::congestion::{
    after_ack, after_delivery, after_dup_ack, after_loss, after_recovery, after_send,
    after_timeout, credit, fresh, recovery_over, Tahoe,
};
use crate::error::TcpError;
use crate::num::{max, min};
use crate::rack::{
    delivered, forgotten, lost_ranges, reorder_deadline, reordering_window, unprimed, Rack,
};
use crate::reassembly::{
    drained, first_start, first_starting, held, inserted, nothing_held, sack_report, ReasmView,
    MAX_HOLES,
};
use crate::scoreboard::{
    bytes_of, first_hole, newly_covered, next_of, pruned, with_block, ScoreView,
};
use crate::send_queue::{highest_open, latest_covering, needed, transmitted, SendEntry};
use crate::seq::{seq_ge, seq_gt, seq_in_range, seq_le, seq_lt};
use crate::state::{state_byte, State};
use crate::tcb::cookie::{
    cookie_from, cookie_index, cookie_message, cookie_mss, COOKIE_INDEX_UNIT, COOKIE_TIME_BUCKET_MS,
};
use crate::tcb::events;
use crate::tcb::lost_queue::{still_lost, with_all_lost};
use crate::tcb::{
    DebugSnapshot, RttProbe, DEFAULT_KEEPALIVE_COUNT, DEFAULT_KEEPALIVE_IDLE_MS,
    DEFAULT_KEEPALIVE_INTVL_MS, DEFAULT_PEER_MSS, DEFAULT_USER_TIMEOUT_MS, DELAYED_ACK_MS,
    MAX_RETRANSMITS, MAX_SYN_RCVD_RETRIES, RTO_MAX_MS, RTO_MIN_MS, TIME_WAIT_MS, TLP_MIN_PTO_MS,
};
use crate::tx_ring::TX_RING_CAP;
use crate::wire::options::{no_options, option_len, OptionsView};
use crate::wire::{ecn, flags, outbound, packet, parse_packet, SegmentView};
use crate::MSS;
use vstd::prelude::*;

verus! {

/// One side of a connection.
#[verifier::ext_equal]
pub struct EndpointView {
    pub ip: Seq<u8>,
    pub port: u16,
}

/// The mathematical state of a connection.
pub struct TcbView {
    /// Capacity of each byte ring.
    pub cap: usize,
    pub state: State,
    pub local: EndpointView,
    pub remote: EndpointView,
    pub snd_una: u32,
    pub snd_nxt: u32,
    pub snd_max: u32,
    pub snd_wnd: u32,
    pub iss: u32,
    pub rcv_nxt: u32,
    pub rcv_wnd: u32,
    pub irs: u32,
    pub local_mss: u16,
    pub peer_mss: u16,
    pub ts_enabled: bool,
    pub ts_recent: u32,
    pub snd_wscale: u8,
    pub rcv_wscale: u8,
    /// The peer offered window scaling.
    pub ws_offered: bool,
    pub ecn_enabled: bool,
    pub ce_observed: bool,
    pub send_cwr_pending: bool,
    pub sack_enabled: bool,
    pub board: ScoreView,
    pub rxt_seq: u32,
    pub rxt_unacked: u32,
    pub sent: Seq<SendEntry>,
    pub rack: Rack,
    pub rack_deadline: Option<u64>,
    pub lost: Seq<(u32, u32)>,
    pub tlp_deadline: Option<u64>,
    pub tlp_fired: bool,
    pub send_ring: Seq<u8>,
    pub recv_ring: Seq<u8>,
    pub reasm: ReasmView,
    pub cc: Tahoe,
    pub now_ms: u64,
    pub rto_ms: u32,
    pub srtt_ms: u32,
    pub rttvar_ms: u32,
    pub rtt_first_sample: bool,
    pub rto_deadline: Option<u64>,
    pub rtt_probe: Option<RttProbe>,
    pub pending_ack: bool,
    pub delayed_ack_count: u8,
    pub ack_deadline: Option<u64>,
    pub persist_deadline: Option<u64>,
    pub persist_backoff_ms: u32,
    pub fin_sent: bool,
    pub fin_seq: u32,
    pub time_wait_deadline: Option<u64>,
    pub error: Option<TcpError>,
    /// Packets that wait for the host, oldest first.
    pub tx: Seq<Seq<u8>>,
    pub ip_id: u16,
    pub is_listener: bool,
    pub syn_rcvd_retries: u8,
    pub rtx_count: u8,
    pub keepalive_idle_ms: u32,
    pub keepalive_intvl_ms: u32,
    pub keepalive_count: u8,
    pub keepalive_probes: u8,
    pub keepalive_deadline: Option<u64>,
    pub user_timeout_ms: u32,
    pub user_timeout_deadline: Option<u64>,
    pub cookie_secret: Seq<u8>,
    pub cookie_secret_set: bool,
}

// ---------------------------------------------------------------------------
// Windows, options and emission
// ---------------------------------------------------------------------------

/// The least shift that lets a window of `buf` bytes fit a 16-bit field.
pub open spec fn window_shift(buf: nat) -> nat
    decreases buf,
{
    if buf <= 0xFFFF {
        0
    } else {
        1 + window_shift(buf / 2)
    }
}

/// Room that may be advertised: what is free in the receive ring, less the bytes
/// that are held out of order.
pub open spec fn advertised(s: TcbView) -> u32 {
    max(s.cap - s.recv_ring.len() - held(s.reasm.runs), 0) as u32
}

/// The peer's window field, scaled.
pub open spec fn scaled(s: TcbView, window: u16) -> u32 {
    (window as u32) << s.snd_wscale
}

/// The window field to send, which a SYN carries unscaled.
pub open spec fn window_field(s: TcbView, syn: bool) -> u16 {
    let w = if syn {
        advertised(s)
    } else {
        advertised(s) >> s.rcv_wscale
    };
    min(w as int, 0xFFFF) as u16
}

/// The clock as a timestamp value.
pub open spec fn ts_val(s: TcbView) -> u32 {
    s.now_ms as u32
}

/// The options of an ordinary segment: timestamps when negotiated, and the runs
/// held out of order.
#[verifier::opaque]
pub open spec fn data_opts(s: TcbView) -> OptionsView {
    OptionsView {
        mss: None,
        wscale: None,
        ts: if s.ts_enabled {
            Some((ts_val(s), s.ts_recent))
        } else {
            None
        },
        sack_permitted: false,
        sack: if s.sack_enabled {
            sack_report(
                s.reasm.runs,
                if s.ts_enabled {
                    3
                } else {
                    4
                },
            )
        } else {
            Seq::empty()
        },
    }
}

/// The options of our SYN.
#[verifier::opaque]
pub open spec fn syn_opts(s: TcbView) -> OptionsView {
    OptionsView {
        mss: Some(s.local_mss),
        wscale: Some(window_shift(s.cap as nat) as u8),
        ts: Some((ts_val(s), 0)),
        sack_permitted: true,
        sack: Seq::empty(),
    }
}

/// The options of our SYN-ACK: what the peer's SYN offered.
#[verifier::opaque]
pub open spec fn synack_opts(s: TcbView) -> OptionsView {
    OptionsView {
        mss: Some(s.local_mss),
        wscale: if s.ws_offered {
            Some(s.rcv_wscale)
        } else {
            None
        },
        ts: if s.ts_enabled {
            Some((ts_val(s), s.ts_recent))
        } else {
            None
        },
        sack_permitted: s.sack_enabled,
        sack: Seq::empty(),
    }
}

/// Most payload bytes of one segment, beside the options that it will carry.
#[verifier::opaque]
pub open spec fn payload_mss(s: TcbView) -> int {
    min(
        max(min(s.local_mss as int, s.peer_mss as int) - option_len(data_opts(s)), 0),
        MSS as int,
    )
}

/// A payload of that size fits a packet.
pub proof fn lemma_payload_fits(s: TcbView)
    requires
        s.local_mss <= MSS,
    ensures
        payload_mss(s) > 0 ==> payload_mss(s) + option_len(data_opts(s)) <= MSS,
{
    reveal(payload_mss);
}

/// Congestion marks are echoed on this segment.
pub open spec fn carries_feedback(s: TcbView, bits: u8) -> bool {
    s.ecn_enabled && bits & flags::SYN == 0 && bits & flags::ACK != 0
}

/// The flags that go out for `bits`.
#[verifier::opaque]
pub open spec fn feedback(s: TcbView, bits: u8, payload: Seq<u8>) -> u8 {
    let marked = if carries_feedback(s, bits) && s.ce_observed {
        bits | flags::ECE
    } else {
        bits
    };
    if carries_feedback(s, bits) && s.send_cwr_pending && payload.len() > 0 {
        marked | flags::CWR
    } else {
        marked
    }
}

/// The segment that goes out.
#[verifier::opaque]
pub open spec fn segment_out(
    s: TcbView,
    bits: u8,
    seq: u32,
    ack: u32,
    opts: OptionsView,
    payload: Seq<u8>,
) -> SegmentView {
    outbound(
        s.local.ip,
        s.remote.ip,
        s.local.port,
        s.remote.port,
        seq,
        ack,
        feedback(s, bits, payload),
        window_field(s, bits & flags::SYN != 0),
        opts,
        payload,
        if s.ecn_enabled && bits & flags::SYN == 0 {
            ecn::ECT_0
        } else {
            ecn::NOT_ECT
        },
    )
}

/// The datagram that goes out.
#[verifier::opaque]
pub open spec fn datagram_out(
    s: TcbView,
    bits: u8,
    seq: u32,
    ack: u32,
    opts: OptionsView,
    payload: Seq<u8>,
) -> Seq<u8> {
    packet(segment_out(s, bits, seq, ack, opts, payload), s.ip_id)
}

/// There is no room for another packet.
pub open spec fn tx_full(s: TcbView) -> bool {
    s.tx.len() >= TX_RING_CAP
}

/// Stages a segment, unless there is no room for it.
#[verifier::opaque]
pub open spec fn emit(
    s: TcbView,
    bits: u8,
    seq: u32,
    ack: u32,
    opts: OptionsView,
    payload: Seq<u8>,
) -> TcbView {
    if tx_full(s) {
        s
    } else {
        TcbView {
            tx: s.tx.push(datagram_out(s, bits, seq, ack, opts, payload)),
            ip_id: s.ip_id.wrapping_add(1),
            send_cwr_pending: s.send_cwr_pending && !(carries_feedback(s, bits) && payload.len()
                > 0),
            ..s
        }
    }
}

/// No acknowledgement is owed any more.
#[verifier::opaque]
pub open spec fn ack_sent(s: TcbView) -> TcbView {
    TcbView { pending_ack: false, delayed_ack_count: 0, ack_deadline: None, ..s }
}

/// Stages a bare acknowledgement.
#[verifier::opaque]
pub open spec fn pure_ack(s: TcbView) -> TcbView {
    if tx_full(s) {
        s
    } else {
        ack_sent(emit(s, flags::ACK, s.snd_nxt, s.rcv_nxt, data_opts(s), Seq::empty()))
    }
}

// ---------------------------------------------------------------------------
// Timing
// ---------------------------------------------------------------------------

pub open spec fn clamp_rto(ms: int) -> u32 {
    max(min(ms, RTO_MAX_MS as int), RTO_MIN_MS as int) as u32
}

/// `ms` from now.
pub open spec fn later(s: TcbView, ms: u64) -> u64 {
    s.now_ms.wrapping_add(ms)
}

/// Arms the retransmission timer, and starts a round-trip measurement that
/// `probe_seq` will complete if none runs and there are no timestamps.
#[verifier::opaque]
pub open spec fn arm_rto(s: TcbView, probe_seq: u32) -> TcbView {
    TcbView {
        rto_deadline: Some(later(s, s.rto_ms as u64)),
        rtt_probe: if !s.ts_enabled && s.rtt_probe is None {
            Some(RttProbe { seq: probe_seq, sent_at: s.now_ms, valid: true })
        } else {
            s.rtt_probe
        },
        ..s
    }
}

#[verifier::opaque]
pub open spec fn arm_rto_if_idle(s: TcbView, probe_seq: u32) -> TcbView {
    if s.rto_deadline is None {
        arm_rto(s, probe_seq)
    } else {
        s
    }
}

/// A measurement under way no longer counts.
pub open spec fn spoil_probe(p: Option<RttProbe>) -> Option<RttProbe> {
    match p {
        Some(q) => Some(RttProbe { valid: false, ..q }),
        None => None,
    }
}

/// `snd_max` follows `snd_nxt`.
#[verifier::opaque]
pub open spec fn bump_max(s: TcbView) -> TcbView {
    if seq_gt(s.snd_nxt, s.snd_max) {
        TcbView { snd_max: s.snd_nxt, ..s }
    } else {
        s
    }
}

pub open spec fn sat_u32(x: int) -> int {
    min(x, u32::MAX as int)
}

/// The estimates after a round-trip sample (RFC 6298 section 2).
#[verifier::opaque]
pub open spec fn rtt_sample(s: TcbView, r: u32) -> TcbView {
    let diff = if s.srtt_ms >= r {
        s.srtt_ms - r
    } else {
        r - s.srtt_ms
    };
    let var = if s.rtt_first_sample {
        sat_u32(sat_u32(3 * s.rttvar_ms) + diff) / 4
    } else {
        max(r as int / 2, 1)
    };
    let srtt = if s.rtt_first_sample {
        sat_u32(sat_u32(7 * s.srtt_ms) + r) / 8
    } else {
        max(r as int, 1)
    };
    TcbView {
        srtt_ms: srtt as u32,
        rttvar_ms: var as u32,
        rtt_first_sample: true,
        rto_ms: clamp_rto(sat_u32(srtt + max(1, sat_u32(4 * var)))),
        ..s
    }
}

/// The estimates after the peer echoed the timestamp `tsecr`. An age of more than
/// a minute is not believed.
#[verifier::opaque]
pub open spec fn rtt_from_echo(s: TcbView, tsecr: u32) -> TcbView {
    let r = ts_val(s).wrapping_sub(tsecr);
    if r > 60_000 {
        s
    } else {
        rtt_sample(s, max(r as int, 1) as u32)
    }
}

/// The measurement under way is dropped.
#[verifier::opaque]
pub open spec fn probe_dropped(s: TcbView) -> TcbView {
    TcbView { rtt_probe: None, ..s }
}

/// The estimates after `ack`, by the measurement under way.
#[verifier::opaque]
pub open spec fn rtt_from_probe(s: TcbView, ack: u32) -> TcbView {
    match s.rtt_probe {
        None => s,
        Some(p) => if !p.valid {
            probe_dropped(s)
        } else if !seq_ge(ack, p.seq) {
            s
        } else {
            let r = max(s.now_ms - p.sent_at, 0) as u32;
            if r > 0 {
                rtt_sample(probe_dropped(s), r)
            } else {
                probe_dropped(s)
            }
        },
    }
}

/// The segment `[seq, seq + len)` is acceptable: it starts or ends in the receive
/// window, which counts as at least one byte.
#[verifier::opaque]
pub open spec fn acceptable(s: TcbView, seq: u32, len: u32) -> bool {
    let end = s.rcv_nxt.wrapping_add(max(s.rcv_wnd as int, 1) as u32);
    if len == 0 {
        seq == s.rcv_nxt || seq_in_range(seq, s.rcv_nxt, end)
    } else {
        seq_in_range(seq, s.rcv_nxt, end) || seq_in_range(
            seq.wrapping_add((len - 1) as u32),
            s.rcv_nxt,
            end,
        )
    }
}

// ---------------------------------------------------------------------------
// Loss detection
// ---------------------------------------------------------------------------

/// Arms the tail loss probe, while data is in flight, none has been sent since the
/// last progress, and the peer's window is open.
#[verifier::opaque]
pub open spec fn arm_tlp(s: TcbView) -> TcbView {
    if s.tlp_fired || seq_le(s.snd_max, s.snd_una) || s.snd_wnd == 0 {
        s
    } else {
        TcbView {
            tlp_deadline: Some(
                later(s, max(2 * max(s.srtt_ms as int, 1), TLP_MIN_PTO_MS as int) as u64),
            ),
            ..s
        }
    }
}

/// Recovery from the loss of some of `size` bytes in flight starts at the oldest
/// unacknowledged byte.
#[verifier::opaque]
pub open spec fn recovering(s: TcbView, size: u32) -> TcbView {
    TcbView {
        cc: after_loss(s.cc, size, s.snd_max),
        rxt_seq: s.snd_una,
        rxt_unacked: 0,
        rtt_probe: spoil_probe(s.rtt_probe),
        ..s
    }
}

/// Starts fast recovery.
#[verifier::opaque]
pub open spec fn begin_recovery(s: TcbView) -> TcbView {
    arm_rto(recovering(s, s.snd_max.wrapping_sub(s.snd_una)), s.snd_una)
}

/// The reordering window follows the round-trip estimate.
#[verifier::opaque]
pub open spec fn reo_updated(s: TcbView) -> TcbView {
    if s.srtt_ms > 0 {
        TcbView { rack: Rack { reo_wnd_ms: reordering_window(s.srtt_ms), ..s.rack }, ..s }
    } else {
        s
    }
}

/// Queues what is outstanding of the losses `found`, and sets the reordering timer.
#[verifier::opaque]
pub open spec fn lost_queued(s: TcbView, found: Seq<(u32, u32)>, next: Option<u64>) -> TcbView {
    TcbView {
        lost: with_all_lost(
            s.lost,
            found,
            s.board.ranges,
            s.snd_una,
            s.snd_max,
            found.len() as int,
        ),
        rack_deadline: next,
        ..s
    }
}

/// Judges what is in flight by time, starts recovery if something is lost, and
/// queues it.
#[verifier::opaque]
pub open spec fn rack_scan(s: TcbView) -> TcbView {
    let s = reo_updated(s);
    let found = lost_ranges(s.rack, s.sent, s.now_ms);
    let next = reorder_deadline(s.rack, s.sent, s.now_ms);
    let t = if found.len() > 0 && !s.cc.in_recovery && seq_gt(s.snd_max, s.snd_una) {
        begin_recovery(s)
    } else {
        s
    };
    lost_queued(t, found, next)
}

/// The bytes of the send ring from offset `off` on, `n` of them.
pub open spec fn ring_bytes(s: TcbView, off: int, n: int) -> Seq<u8> {
    s.send_ring.subrange(off, off + n)
}

/// How many of `bytes` bytes from `seq` on the send ring holds.
pub open spec fn buffered(s: TcbView, seq: u32, bytes: int) -> int {
    min(bytes, max(s.send_ring.len() - seq.wrapping_sub(s.snd_una), 0))
}

/// Whether retransmitting `bytes` bytes from `seq` on stages a segment.
pub open spec fn can_retransmit(s: TcbView, seq: u32, bytes: int) -> bool {
    buffered(s, seq, bytes) > 0 && !tx_full(s)
}

/// Recovery has retransmitted `n` bytes from `seq` on.
#[verifier::opaque]
pub open spec fn rxt_noted(s: TcbView, seq: u32, n: u32) -> TcbView {
    TcbView {
        rxt_unacked: min(s.rxt_unacked + n, u32::MAX as int) as u32,
        rxt_seq: if seq_ge(seq, s.rxt_seq) {
            seq.wrapping_add(n)
        } else {
            s.rxt_seq
        },
        ..s
    }
}

/// The next byte to send moves on by `n`.
#[verifier::opaque]
pub open spec fn nxt_moved(s: TcbView, n: u32) -> TcbView {
    bump_max(TcbView { snd_nxt: s.snd_nxt.wrapping_add(n), ..s })
}

/// Charges the congestion window for `n` bytes from `seq` on and records them.
#[verifier::opaque]
pub open spec fn charged(s: TcbView, seq: u32, n: u32, again: bool) -> TcbView {
    TcbView {
        cc: after_send(s.cc, n),
        sent: transmitted(s.sent, seq, n, s.now_ms, again),
        ..s
    }
}

/// Retransmits the `n` buffered bytes from `seq` on.
#[verifier::opaque]
pub open spec fn emit_again(s: TcbView, seq: u32, n: u32) -> TcbView {
    let t = emit(
        s,
        flags::ACK | flags::PSH,
        seq,
        s.rcv_nxt,
        data_opts(s),
        ring_bytes(s, seq.wrapping_sub(s.snd_una) as int, n as int),
    );
    let t = ack_sent(rxt_noted(charged(t, seq, n, true), seq, n));
    arm_tlp(arm_rto_if_idle(t, t.snd_max))
}

/// Retransmits up to `bytes` bytes from `seq` on.
#[verifier::opaque]
pub open spec fn retransmit(s: TcbView, seq: u32, bytes: int) -> TcbView {
    if can_retransmit(s, seq, bytes) {
        emit_again(s, seq, buffered(s, seq, bytes) as u32)
    } else {
        s
    }
}

/// The tail loss probe is not armed.
#[verifier::opaque]
pub open spec fn tlp_disarmed(s: TcbView) -> TcbView {
    TcbView { tlp_deadline: None, ..s }
}

/// The tail loss probe has been sent.
#[verifier::opaque]
pub open spec fn tlp_spent(s: TcbView) -> TcbView {
    TcbView { tlp_fired: true, ..s }
}

/// What the tail loss probe sends of the record `e`: the start, and how many
/// bytes.
#[verifier::opaque]
pub open spec fn tlp_target(s: TcbView, e: SendEntry) -> (u32, int) {
    let start = if seq_lt(e.seq_start, s.snd_una) {
        s.snd_una
    } else {
        e.seq_start
    };
    (
        start,
        if seq_le(e.seq_end, start) {
            0
        } else {
            min(e.seq_end.wrapping_sub(start) as int, payload_mss(s))
        },
    )
}

/// Sends the tail loss probe: the highest transmission that is not acknowledged.
#[verifier::opaque]
pub open spec fn fire_tlp(s: TcbView) -> TcbView {
    let t = tlp_disarmed(s);
    if tx_full(t) {
        t
    } else {
        match highest_open(t.sent, t.board.ranges) {
            None => tlp_spent(t),
            Some(e) => {
                let (start, bytes) = tlp_target(t, e);
                if bytes == 0 {
                    tlp_spent(t)
                } else if can_retransmit(t, start, bytes) {
                    tlp_spent(retransmit(t, start, bytes))
                } else {
                    t
                }
            },
        }
    }
}

// ---------------------------------------------------------------------------
// Sending
// ---------------------------------------------------------------------------

/// Bytes from the oldest unacknowledged one to the next one to send.
pub open spec fn flight(s: TcbView) -> u32 {
    s.snd_nxt.wrapping_sub(s.snd_una)
}

/// Buffered bytes that have not been sent.
pub open spec fn unsent(s: TcbView) -> int {
    max(s.send_ring.len() - flight(s), 0)
}

/// A FIN is owed and everything before it has been acknowledged.
pub open spec fn fin_due(s: TcbView) -> bool {
    &&& (s.state is FinWait1 || s.state is Closing || s.state is LastAck)
    &&& s.send_ring.len() == 0
    &&& (s.fin_sent ==> s.snd_nxt == s.fin_seq)
}

/// Our FIN takes the next sequence number, if it has none yet.
#[verifier::opaque]
pub open spec fn fin_placed(s: TcbView) -> TcbView {
    if s.fin_sent {
        s
    } else {
        TcbView { fin_seq: s.snd_nxt, cc: after_send(s.cc, 1), fin_sent: true, ..s }
    }
}

/// Sends the FIN, or sends it again.
#[verifier::opaque]
pub open spec fn emit_fin(s: TcbView) -> TcbView {
    if !fin_due(s) || tx_full(s) {
        s
    } else {
        let t = emit(
            s,
            flags::FIN | flags::ACK,
            s.snd_nxt,
            s.rcv_nxt,
            data_opts(s),
            Seq::empty(),
        );
        let t = ack_sent(nxt_moved(fin_placed(t), 1));
        arm_rto_if_idle(t, t.snd_nxt)
    }
}

/// Sends `n` bytes of new data.
#[verifier::opaque]
pub open spec fn emit_new(s: TcbView, n: u32) -> TcbView {
    let seq = s.snd_nxt;
    let t = emit(
        s,
        flags::ACK | flags::PSH,
        seq,
        s.rcv_nxt,
        data_opts(s),
        ring_bytes(s, flight(s) as int, n as int),
    );
    let t = ack_sent(charged(nxt_moved(t, n), seq, n, false));
    arm_tlp(arm_rto_if_idle(t, t.snd_nxt))
}

/// What is outstanding has the retransmission timer behind it, which runs with the
/// persist timer.
#[verifier::opaque]
pub open spec fn rto_kept(s: TcbView) -> TcbView {
    if s.rto_deadline is None && seq_gt(s.snd_max, s.snd_una) {
        TcbView {
            rto_deadline: match s.persist_deadline {
                Some(d) => Some(d),
                None => Some(later(s, s.rto_ms as u64)),
            },
            ..s
        }
    } else {
        s
    }
}

/// What is done under a closed window: the persist timer is armed for unsent data,
/// and the retransmission timer for what is outstanding.
#[verifier::opaque]
pub open spec fn arm_persist(s: TcbView) -> TcbView {
    rto_kept(
        if unsent(s) > 0 && s.persist_deadline is None {
            TcbView {
                persist_backoff_ms: s.rto_ms,
                persist_deadline: Some(later(s, s.rto_ms as u64)),
                ..s
            }
        } else {
            s
        },
    )
}

/// How many bytes of new data may go out now.
#[verifier::opaque]
pub open spec fn sendable(s: TcbView) -> int {
    let allowed = min(s.cc.cwnd as int, s.snd_wnd as int);
    if flight(s) >= allowed {
        0
    } else {
        min(min(allowed - flight(s), credit(s.cc) as int), min(unsent(s), payload_mss(s)))
    }
}

/// The last step of [`send_one`]: a FIN, or new data as far as the windows allow.
#[verifier::opaque]
pub open spec fn send_fresh(s: TcbView) -> (TcbView, bool) {
    if fin_due(s) && !tx_full(s) {
        (emit_fin(s), true)
    } else if s.snd_wnd == 0 {
        (arm_persist(s), false)
    } else if sendable(s) > 0 && !tx_full(s) {
        (emit_new(s, sendable(s) as u32), true)
    } else {
        (s, false)
    }
}

/// What recovery retransmits next: the oldest unacknowledged byte first, then the
/// holes that the scoreboard shows to be lost. The start, and how many bytes.
#[verifier::opaque]
pub open spec fn recovery_target(s: TcbView) -> Option<(u32, int)> {
    let limit = min(credit(s.cc) as int, payload_mss(s));
    if s.rxt_unacked == 0 && s.rxt_seq == s.snd_una && seq_gt(s.snd_max, s.snd_una) {
        Some((s.snd_una, min(s.snd_max.wrapping_sub(s.snd_una) as int, limit)))
    } else if s.sack_enabled {
        match next_of(s.board, s.rxt_seq, s.snd_max, payload_mss(s) as u32) {
            Some((seq, len)) => Some((seq, min(len as int, limit))),
            None => None,
        }
    } else {
        None
    }
}

/// [`send_one`] from the recovery retransmission on.
#[verifier::opaque]
pub open spec fn send_recovery(s: TcbView) -> (TcbView, bool) {
    if !s.cc.in_recovery {
        send_fresh(s)
    } else {
        match recovery_target(s) {
            Some((seq, bytes)) => if bytes > 0 {
                (retransmit(s, seq, bytes), can_retransmit(s, seq, bytes))
            } else {
                send_fresh(s)
            },
            None => send_fresh(s),
        }
    }
}

/// The part of the queued range `r` to retransmit: clipped to what is outstanding,
/// and its first part that the peer does not hold yet.
#[verifier::opaque]
pub open spec fn lost_target(s: TcbView, r: (u32, u32)) -> Option<(u32, int)> {
    let lo = if seq_lt(r.0, s.snd_una) {
        s.snd_una
    } else {
        r.0
    };
    let hi = if seq_gt(r.1, s.snd_max) {
        s.snd_max
    } else {
        r.1
    };
    if seq_le(hi, lo) {
        None
    } else {
        match first_hole(s.board.ranges, lo, hi) {
            Some((a, b)) => Some(
                (
                    a,
                    min(b.wrapping_sub(a) as int, min(credit(s.cc) as int, payload_mss(s))),
                ),
            ),
            None => None,
        }
    }
}

/// The first queued loss is taken.
#[verifier::opaque]
pub open spec fn lost_taken(s: TcbView) -> TcbView {
    TcbView { lost: s.lost.skip(1), ..s }
}

/// [`send_one`] from the queued losses on.
#[verifier::opaque]
pub open spec fn send_lost(s: TcbView) -> (TcbView, bool) {
    if s.lost.len() == 0 || !s.cc.in_recovery {
        send_recovery(s)
    } else {
        let t = lost_taken(s);
        match lost_target(t, s.lost[0]) {
            Some((seq, bytes)) => if bytes > 0 {
                (retransmit(t, seq, bytes), can_retransmit(t, seq, bytes))
            } else {
                send_recovery(t)
            },
            None => send_recovery(t),
        }
    }
}

/// Recovery is left.
#[verifier::opaque]
pub open spec fn recovery_left(s: TcbView) -> TcbView {
    TcbView { cc: after_recovery(s.cc), rxt_unacked: 0, ..s }
}

/// Sends at most one segment: queued losses first, then the recovery
/// retransmissions, then the FIN or new data. Says whether to go on.
///
/// Recovery that has run out of credit with nothing in flight is left first, since
/// no acknowledgement could ever bring new credit.
#[verifier::opaque]
pub open spec fn send_one(s: TcbView) -> (TcbView, bool) {
    if s.cc.in_recovery && s.snd_nxt == s.snd_una && credit(s.cc) == 0 {
        send_lost(recovery_left(s))
    } else {
        send_lost(s)
    }
}

/// Sends up to `turns` segments, while there is room and something to send.
#[verifier::opaque]
pub open spec fn send_some(s: TcbView, turns: nat) -> TcbView
    decreases turns,
{
    if turns == 0 || tx_full(s) {
        s
    } else {
        let (t, more) = send_one(s);
        if more {
            send_some(t, (turns - 1) as nat)
        } else {
            t
        }
    }
}

/// The states in which there may be something to send.
pub open spec fn may_transmit(st: State) -> bool {
    ||| st is Established
    ||| st is CloseWait
    ||| st is FinWait1
    ||| st is Closing
    ||| st is LastAck
}

/// Sends as many segments as fit.
#[verifier::opaque]
pub open spec fn send_data(s: TcbView) -> TcbView {
    if may_transmit(s.state) {
        send_some(s, TX_RING_CAP as nat + 2)
    } else {
        s
    }
}

// ---------------------------------------------------------------------------
// Receiving
// ---------------------------------------------------------------------------

/// The first `n` bytes of the held run `i` are handed on to the receive ring.
#[verifier::opaque]
pub open spec fn run_drained(s: TcbView, i: int, n: int) -> TcbView {
    TcbView {
        recv_ring: s.recv_ring + s.reasm.runs[i].data.take(n),
        rcv_nxt: s.rcv_nxt.wrapping_add(n as u32),
        reasm: drained(s.reasm, i, n),
        ..s
    }
}

/// Hands up to `turns` held runs that have become contiguous on to the receive
/// ring, as far as it has room.
#[verifier::opaque]
pub open spec fn drain_runs(s: TcbView, turns: nat) -> TcbView
    decreases turns,
{
    let i = first_starting(s.reasm.runs, s.rcv_nxt, 0);
    if turns == 0 || i >= s.reasm.runs.len() {
        s
    } else {
        let len = s.reasm.runs[i].data.len();
        let n = min(len as int, s.cap - s.recv_ring.len());
        if n < len {
            run_drained(s, i, n)
        } else {
            drain_runs(run_drained(s, i, n), (turns - 1) as nat)
        }
    }
}

/// Our window follows what may be advertised.
#[verifier::opaque]
pub open spec fn window_updated(s: TcbView) -> TcbView {
    TcbView { rcv_wnd: advertised(s), ..s }
}

/// Hands on what has become contiguous, and updates the window if that was
/// anything.
#[verifier::opaque]
pub open spec fn drain(s: TcbView) -> TcbView {
    let t = drain_runs(s, MAX_HOLES as nat + 2);
    if t.recv_ring.len() > s.recv_ring.len() {
        window_updated(t)
    } else {
        t
    }
}

/// How much of a payload the receive ring has room for.
pub open spec fn fitting(s: TcbView, payload: Seq<u8>) -> int {
    min(payload.len() as int, s.cap - s.recv_ring.len())
}

/// As much of the payload as fits is received in order.
#[verifier::opaque]
pub open spec fn received(s: TcbView, payload: Seq<u8>) -> TcbView {
    TcbView {
        recv_ring: s.recv_ring + payload.take(fitting(s, payload)),
        rcv_nxt: s.rcv_nxt.wrapping_add(fitting(s, payload) as u32),
        ..s
    }
}

/// A payload ahead of order is held.
#[verifier::opaque]
pub open spec fn set_aside(s: TcbView, seq: u32, payload: Seq<u8>) -> TcbView {
    TcbView { reasm: inserted(s.reasm, seq, payload, s.rcv_nxt).0, ..s }
}

/// The state takes data in.
pub open spec fn takes_data(st: State) -> bool {
    st is Established || st is FinWait1 || st is FinWait2
}

/// Takes a payload in order in, and whether that filled a hole, so that held bytes
/// were handed on.
#[verifier::opaque]
pub open spec fn take_in_order(s: TcbView, payload: Seq<u8>) -> (TcbView, bool) {
    let t = received(s, payload);
    if fitting(s, payload) == payload.len() {
        (drain(t), drain(t).recv_ring.len() > t.recv_ring.len())
    } else {
        (t, false)
    }
}

/// Takes a segment's payload in: in order into the receive ring, ahead of order
/// into the reassembly buffer. Says whether a hole was filled.
#[verifier::opaque]
pub open spec fn take_payload(s: TcbView, g: SegmentView) -> (TcbView, bool) {
    if g.payload.len() == 0 || !takes_data(s.state) {
        (s, false)
    } else if g.seq == s.rcv_nxt {
        let (t, filled) = take_in_order(s, g.payload);
        (window_updated(t), filled)
    } else if seq_gt(g.seq, s.rcv_nxt) {
        (window_updated(set_aside(s, g.seq, g.payload)), false)
    } else {
        (window_updated(s), false)
    }
}

/// The state after the peer's FIN, which takes a sequence number.
#[verifier::opaque]
pub open spec fn fin_received(s: TcbView) -> TcbView {
    let t = TcbView { rcv_nxt: s.rcv_nxt.wrapping_add(1), ..s };
    match s.state {
        State::Established => TcbView { state: State::CloseWait, ..t },
        State::FinWait1 => TcbView { state: State::Closing, ..t },
        State::FinWait2 => TcbView {
            state: State::TimeWait,
            time_wait_deadline: Some(later(s, TIME_WAIT_MS)),
            ..t
        },
        _ => t,
    }
}

/// Takes a segment's FIN in, if every byte before it has been received.
#[verifier::opaque]
pub open spec fn take_fin(s: TcbView, g: SegmentView) -> TcbView {
    if g.has(flags::FIN) && g.seq.wrapping_add(g.payload.len() as u32) == s.rcv_nxt {
        fin_received(s)
    } else {
        s
    }
}

/// One more acknowledgement is owed.
#[verifier::opaque]
pub open spec fn ack_owed(s: TcbView) -> TcbView {
    TcbView {
        delayed_ack_count: min(s.delayed_ack_count + 1, 255) as u8,
        pending_ack: true,
        ..s
    }
}

/// The delayed acknowledgement is timed.
#[verifier::opaque]
pub open spec fn ack_timed(s: TcbView) -> TcbView {
    TcbView { ack_deadline: Some(later(s, DELAYED_ACK_MS)), ..s }
}

/// Owes the peer an acknowledgement, and sends it if it is the second.
#[verifier::opaque]
pub open spec fn owe_ack(s: TcbView) -> TcbView {
    let t = ack_owed(s);
    if t.delayed_ack_count >= 2 {
        pure_ack(t)
    } else if t.ack_deadline is None {
        ack_timed(t)
    } else {
        t
    }
}

/// Acknowledges a segment: at once for a FIN, for a filled hole and for a segment
/// that could not be taken in, and otherwise with a delay.
#[verifier::opaque]
pub open spec fn answer(s: TcbView, g: SegmentView, advanced: bool, filled: bool) -> TcbView {
    if advanced {
        if g.has(flags::FIN) || filled {
            pure_ack(s)
        } else {
            owe_ack(s)
        }
    } else if g.payload.len() > 0 || g.has(flags::FIN) {
        pure_ack(s)
    } else {
        s
    }
}

// ---------------------------------------------------------------------------
// Acknowledgements
// ---------------------------------------------------------------------------

/// What the SACK blocks of an acknowledgement add up to.
pub struct SackSum {
    pub board: ScoreView,
    /// Bytes that are newly acknowledged.
    pub newly: u32,
    /// Send time and end of the latest transmission that they show delivered.
    pub ts: u64,
    pub end: u32,
}

/// The later of the delivery that `a` shows and that of the record `e`.
pub open spec fn with_delivery(a: SackSum, e: Option<SendEntry>) -> SackSum {
    match e {
        Some(e) => if e.send_ts_ms > a.ts || (e.send_ts_ms == a.ts && seq_gt(e.seq_end, a.end)) {
            SackSum { ts: e.send_ts_ms, end: e.seq_end, ..a }
        } else {
            a
        },
        None => a,
    }
}

/// The sum after one more block `[l, r)`, for the transmissions `sent` and the
/// outstanding bytes `[una, top)`. Only a block with new bytes shows a delivery.
pub open spec fn sack_step(
    a: SackSum,
    sent: Seq<SendEntry>,
    una: u32,
    top: u32,
    l: u32,
    r: u32,
) -> SackSum {
    let n = newly_covered(a.board.ranges, l, r, una, top);
    let b = if n > 0 {
        with_delivery(
            SackSum { newly: min(a.newly + n, u32::MAX as int) as u32, ..a },
            latest_covering(sent, r.wrapping_sub(1)),
        )
    } else {
        a
    };
    SackSum { board: with_block(a.board, l, r, una, top), ..b }
}

/// The sum of the first `n` blocks, on top of the scoreboard `board`.
pub open spec fn sack_sum(
    board: ScoreView,
    sent: Seq<SendEntry>,
    una: u32,
    top: u32,
    blocks: Seq<(u32, u32)>,
    n: int,
) -> SackSum
    decreases n,
{
    if n <= 0 {
        SackSum { board, newly: 0, ts: 0, end: 0 }
    } else {
        sack_step(
            sack_sum(board, sent, una, top, blocks, n - 1),
            sent,
            una,
            top,
            blocks[n - 1].0,
            blocks[n - 1].1,
        )
    }
}

/// The sum of all SACK blocks of `g`.
#[verifier::opaque]
pub open spec fn sack_total(s: TcbView, g: SegmentView) -> SackSum {
    sack_sum(s.board, s.sent, s.snd_una, s.snd_max, g.options.sack, g.options.sack.len() as int)
}

/// What the SACK blocks of an acknowledgement showed is noted.
#[verifier::opaque]
pub open spec fn sacks_noted(s: TcbView, a: SackSum) -> TcbView {
    TcbView {
        board: a.board,
        rack: if a.ts > 0 {
            delivered(s.rack, a.ts, a.end, s.now_ms)
        } else {
            s.rack
        },
        ..s
    }
}

/// Notes the SACK blocks of `g`, unless selective acknowledgement is off, and
/// counts the newly acknowledged bytes.
#[verifier::opaque]
pub open spec fn note_sacks(s: TcbView, g: SegmentView) -> (TcbView, u32) {
    if s.sack_enabled {
        (sacks_noted(s, sack_total(s, g)), sack_total(s, g).newly)
    } else {
        (s, 0)
    }
}

/// Reacts to a congestion echo: one recovery per window of data.
#[verifier::opaque]
pub open spec fn note_echo(s: TcbView, g: SegmentView) -> TcbView {
    if s.ecn_enabled && g.has(flags::ECE) && !s.cc.in_recovery && seq_gt(s.snd_nxt, s.snd_una) {
        TcbView { send_cwr_pending: true, ..recovering(s, flight(s)) }
    } else {
        s
    }
}

/// Bytes believed to be in flight in recovery.
#[verifier::opaque]
pub open spec fn pipe(s: TcbView) -> u32 {
    let outstanding = s.snd_max.wrapping_sub(s.snd_una);
    let sacked = min(bytes_of(s.board.ranges) as int, u32::MAX as int);
    min(max(outstanding - sacked, 0) + s.rxt_unacked, u32::MAX as int) as u32
}

/// The peer's window after `window` arrived; an open one ends the persist timer.
#[verifier::opaque]
pub open spec fn take_window(s: TcbView, window: u16) -> TcbView {
    let w = scaled(s, window);
    if w > 0 {
        TcbView { snd_wnd: w, persist_deadline: None, persist_backoff_ms: 0, ..s }
    } else {
        TcbView { snd_wnd: w, ..s }
    }
}

/// The acknowledgement repeats the last one while data is outstanding, and so may
/// signal a loss.
pub open spec fn is_repeat(s: TcbView, g: SegmentView) -> bool {
    &&& g.ack == s.snd_una
    &&& seq_gt(s.snd_max, s.snd_una)
    &&& scaled(s, g.window) == s.snd_wnd
    &&& !s.cc.in_recovery
}

/// A repeated acknowledgement is counted.
#[verifier::opaque]
pub open spec fn repeat_counted(s: TcbView) -> TcbView {
    TcbView { cc: after_dup_ack(s.cc), ..s }
}

/// Counts a repeated acknowledgement, and starts recovery when it carries SACK
/// blocks or is the third bare one.
#[verifier::opaque]
pub open spec fn count_repeat(s: TcbView, g: SegmentView) -> TcbView {
    if !is_repeat(s, g) {
        s
    } else if s.sack_enabled && g.options.sack.len() > 0 {
        begin_recovery(s)
    } else if g.payload.len() == 0 && !g.has(flags::FIN) {
        let t = repeat_counted(s);
        if t.cc.dup_acks >= 3 {
            begin_recovery(t)
        } else {
            t
        }
    } else {
        s
    }
}

/// Recovery is credited for `n` bytes delivered.
#[verifier::opaque]
pub open spec fn delivery_credited(s: TcbView, n: u32) -> TcbView {
    TcbView { cc: after_delivery(s.cc, n, pipe(s)), ..s }
}

/// Processes an acknowledgement that does not advance.
#[verifier::opaque]
pub open spec fn ack_repeated(s: TcbView, g: SegmentView, newly: u32) -> TcbView {
    let t = count_repeat(s, g);
    let t = if newly > 0 {
        delivery_credited(t, newly)
    } else {
        t
    };
    take_window(rack_scan(t), g.window)
}

/// Something waits for the peer's acknowledgement or for being sent.
pub open spec fn has_work(s: TcbView) -> bool {
    s.snd_una != s.snd_max || s.send_ring.len() > 0
}

/// How many buffered bytes an acknowledgement up to `ack` covers. A FIN among them
/// takes no room in the send ring.
#[verifier::opaque]
pub open spec fn data_acked(s: TcbView, ack: u32) -> int {
    let acked = ack.wrapping_sub(s.snd_una);
    if s.fin_sent && seq_le(s.snd_una, s.fin_seq) && seq_gt(ack, s.fin_seq) && acked > 0 {
        acked - 1
    } else {
        acked as int
    }
}

/// The oldest unacknowledged byte is `ack`, and what was acknowledged has left the
/// send ring.
#[verifier::opaque]
pub open spec fn una_moved(s: TcbView, ack: u32) -> TcbView {
    TcbView {
        cc: after_ack(s.cc, ack.wrapping_sub(s.snd_una)),
        send_ring: s.send_ring.skip(min(data_acked(s, ack), s.send_ring.len() as int)),
        snd_una: ack,
        ..s
    }
}

/// The user timeout starts over, or stops if there is no work left.
#[verifier::opaque]
pub open spec fn user_timer_restarted(s: TcbView) -> TcbView {
    if s.user_timeout_ms != 0 {
        TcbView {
            user_timeout_deadline: if has_work(s) {
                Some(later(s, s.user_timeout_ms as u64))
            } else {
                None
            },
            ..s
        }
    } else {
        s
    }
}

/// The next byte to send is not below the oldest unacknowledged one.
#[verifier::opaque]
pub open spec fn nxt_caught_up(s: TcbView) -> TcbView {
    if seq_gt(s.snd_una, s.snd_nxt) {
        TcbView { snd_nxt: s.snd_una, ..s }
    } else {
        s
    }
}

/// Moves the oldest unacknowledged byte to `ack`.
#[verifier::opaque]
pub open spec fn ack_advance(s: TcbView, ack: u32) -> TcbView {
    nxt_caught_up(user_timer_restarted(una_moved(s, ack)))
}

/// What is acknowledged leaves the scoreboard, and its delivery is noted.
#[verifier::opaque]
pub open spec fn delivery_noted(s: TcbView) -> TcbView {
    TcbView {
        board: ScoreView { ranges: pruned(s.board.ranges, s.snd_una), una: s.snd_una },
        rack: match latest_covering(s.sent, s.snd_una.wrapping_sub(1)) {
            Some(e) => delivered(s.rack, e.send_ts_ms, e.seq_end, s.now_ms),
            None => s.rack,
        },
        ..s
    }
}

/// What is acknowledged leaves the transmission records and the queued losses.
#[verifier::opaque]
pub open spec fn records_pruned(s: TcbView) -> TcbView {
    TcbView {
        sent: needed(s.sent, s.snd_una, s.board.ranges),
        lost: still_lost(s.lost, s.snd_una, s.lost.len() as int),
        ..s
    }
}

/// Drops what is acknowledged from the scoreboard, the transmission records and
/// the queued losses, noting the delivery.
#[verifier::opaque]
pub open spec fn ack_prune(s: TcbView) -> TcbView {
    records_pruned(delivery_noted(s))
}

/// The retransmission cursor after `acked` newly acknowledged bytes.
#[verifier::opaque]
pub open spec fn rxt_caught_up(s: TcbView, acked: u32) -> TcbView {
    TcbView {
        rxt_unacked: (s.rxt_unacked - min(acked as int, s.rxt_unacked as int)) as u32,
        rxt_seq: if seq_gt(s.snd_una, s.rxt_seq) {
            s.snd_una
        } else {
            s.rxt_seq
        },
        ..s
    }
}

/// Recovery ends when its point is reached.
#[verifier::opaque]
pub open spec fn recovery_ended(s: TcbView) -> TcbView {
    if recovery_over(s.cc, s.snd_una) {
        TcbView {
            cc: after_recovery(s.cc),
            board: ScoreView { ranges: Seq::empty(), ..s.board },
            rxt_unacked: 0,
            lost: Seq::empty(),
            ..s
        }
    } else {
        s
    }
}

/// Updates recovery for `acked` newly acknowledged bytes.
#[verifier::opaque]
pub open spec fn ack_recovery(s: TcbView, acked: u32) -> TcbView {
    recovery_ended(delivery_credited(rxt_caught_up(s, acked), acked))
}

/// The tail loss probe starts over.
#[verifier::opaque]
pub open spec fn tlp_reset(s: TcbView, acked: u32) -> TcbView {
    TcbView { tlp_fired: s.tlp_fired && acked == 0, tlp_deadline: None, ..s }
}

/// The retransmission timer and the measurement are stopped.
#[verifier::opaque]
pub open spec fn rto_stopped(s: TcbView) -> TcbView {
    TcbView { rto_deadline: None, rtt_probe: None, ..s }
}

/// The round-trip sample of an acknowledgement, from its timestamp echo if
/// timestamps are in use, and otherwise from the measurement under way.
#[verifier::opaque]
pub open spec fn ack_sample(s: TcbView, g: SegmentView) -> TcbView {
    if s.ts_enabled {
        match g.options.ts {
            Some((_, tsecr)) => if tsecr != 0 {
                rtt_from_echo(s, tsecr)
            } else {
                s
            },
            None => s,
        }
    } else {
        rtt_from_probe(s, g.ack)
    }
}

/// Takes the round-trip sample of an acknowledgement, and restarts or stops the
/// retransmission timer.
#[verifier::opaque]
pub open spec fn ack_timing(s: TcbView, g: SegmentView) -> TcbView {
    let t = ack_sample(s, g);
    if t.snd_una == t.snd_nxt {
        rto_stopped(t)
    } else {
        arm_rto(t, t.snd_nxt)
    }
}

/// The state after our FIN has been acknowledged.
#[verifier::opaque]
pub open spec fn ack_fin(s: TcbView) -> TcbView {
    if s.fin_sent && s.snd_una == s.fin_seq.wrapping_add(1) {
        match s.state {
            State::FinWait1 => TcbView { state: State::FinWait2, ..s },
            State::Closing => TcbView {
                state: State::TimeWait,
                time_wait_deadline: Some(later(s, TIME_WAIT_MS)),
                ..s
            },
            State::LastAck => TcbView { state: State::Closed, ..s },
            _ => s,
        }
    } else {
        s
    }
}

/// Processes an acknowledgement that advances.
#[verifier::opaque]
pub open spec fn ack_advanced(s: TcbView, g: SegmentView) -> TcbView {
    let acked = g.ack.wrapping_sub(s.snd_una);
    let t = rack_scan(ack_recovery(ack_prune(ack_advance(s, g.ack)), acked));
    take_window(ack_fin(ack_timing(tlp_reset(t, acked), g)), g.window)
}

/// The peer has answered, so that it has not vanished.
#[verifier::opaque]
pub open spec fn patience_restored(s: TcbView) -> TcbView {
    TcbView { rtx_count: 0, ..s }
}

/// Processes the acknowledgement of `g`. One of data that was never sent is
/// answered and otherwise ignored.
#[verifier::opaque]
pub open spec fn take_ack(s: TcbView, g: SegmentView) -> TcbView {
    if seq_gt(g.ack, s.snd_max) {
        pure_ack(s)
    } else {
        let (t, newly) = note_sacks(note_echo(patience_restored(s), g), g);
        if seq_le(g.ack, t.snd_una) {
            ack_repeated(t, g, newly)
        } else {
            ack_advanced(t, g)
        }
    }
}

// ---------------------------------------------------------------------------
// Segments by state
// ---------------------------------------------------------------------------

/// The timestamp to echo after `g`: only a later one replaces it.
pub open spec fn newest_ts(s: TcbView, g: SegmentView) -> u32 {
    match g.options.ts {
        Some((tsval, _)) => if s.ts_enabled && seq_ge(tsval, s.ts_recent) {
            tsval
        } else {
            s.ts_recent
        },
        None => s.ts_recent,
    }
}

/// Whether a congestion mark is echoed after `g`.
pub open spec fn echoes_mark(s: TcbView, g: SegmentView) -> bool {
    if s.ecn_enabled {
        (s.ce_observed || g.ecn == ecn::CE) && !g.has(flags::CWR)
    } else {
        s.ce_observed
    }
}

/// Notes the peer's timestamp and congestion marks.
#[verifier::opaque]
pub open spec fn note_marks(s: TcbView, g: SegmentView) -> TcbView {
    TcbView { ts_recent: newest_ts(s, g), ce_observed: echoes_mark(s, g), ..s }
}

/// Answers a segment outside the window. One that ends at or before the next
/// expected byte is an old duplicate, whose acknowledgement still counts.
#[verifier::opaque]
pub open spec fn refuse(s: TcbView, g: SegmentView) -> TcbView {
    if seq_le(g.seq.wrapping_add(g.payload.len() as u32), s.rcv_nxt) && g.has(flags::ACK) {
        pure_ack(take_ack(s, g))
    } else {
        pure_ack(s)
    }
}

/// Takes a segment inside the window in.
#[verifier::opaque]
pub open spec fn accept(s: TcbView, g: SegmentView) -> TcbView {
    let a = if g.has(flags::ACK) {
        take_ack(s, g)
    } else {
        s
    };
    let (b, filled) = take_payload(a, g);
    let c = take_fin(b, g);
    send_data(answer(c, g, c.rcv_nxt != s.rcv_nxt, filled))
}

/// Processes a segment in a synchronised state.
#[verifier::opaque]
pub open spec fn on_synchronised(s: TcbView, g: SegmentView) -> TcbView {
    let t = note_marks(s, g);
    if acceptable(t, g.seq, g.payload.len() as u32) {
        accept(t, g)
    } else {
        refuse(t, g)
    }
}

/// A reset without acknowledgement, as an answer to `ack`.
#[verifier::opaque]
pub open spec fn reset_reply(s: TcbView, seq: u32, ack: u32) -> TcbView {
    emit(s, flags::RST, seq, ack, no_options(), Seq::empty())
}

/// The segment size that an offer stands for.
pub open spec fn offered_mss(g: SegmentView, default: u16) -> u16 {
    match g.options.mss {
        Some(m) => max(m as int, DEFAULT_PEER_MSS as int) as u16,
        None => default,
    }
}

/// The shifts of the peer's and of our windows after an offer.
pub open spec fn offered_shifts(s: TcbView, g: SegmentView) -> (u8, u8) {
    match g.options.wscale {
        Some(w) => (min(w as int, 14) as u8, window_shift(s.cap as nat) as u8),
        None => (s.snd_wscale, s.rcv_wscale),
    }
}

/// What a peer's SYN or SYN-ACK offers in segment size, window scale and window.
#[verifier::opaque]
pub open spec fn take_offer(s: TcbView, g: SegmentView) -> TcbView {
    TcbView {
        irs: g.seq,
        rcv_nxt: g.seq.wrapping_add(1),
        snd_wnd: g.window as u32,
        peer_mss: offered_mss(g, s.peer_mss),
        snd_wscale: offered_shifts(s, g).0,
        rcv_wscale: offered_shifts(s, g).1,
        ws_offered: s.ws_offered || g.options.wscale is Some,
        ..s
    }
}

/// Timestamps are in use if the peer sends one.
#[verifier::opaque]
pub open spec fn ts_agreed(s: TcbView, g: SegmentView) -> TcbView {
    match g.options.ts {
        Some((tsval, _)) => TcbView { ts_enabled: true, ts_recent: tsval, ..s },
        None => s,
    }
}

/// What else was agreed on.
#[verifier::opaque]
pub open spec fn agreed(s: TcbView, sack: bool, notification: bool) -> TcbView {
    TcbView { sack_enabled: sack, ecn_enabled: notification, ..s }
}

/// Our SYN is acknowledged.
#[verifier::opaque]
pub open spec fn syn_acked(s: TcbView, ack: u32) -> TcbView {
    TcbView { snd_una: ack, rtx_count: 0, ..s }
}

/// The connection is in state `st`.
#[verifier::opaque]
pub open spec fn in_state(s: TcbView, st: State) -> TcbView {
    TcbView { state: st, ..s }
}

/// The options of a SYN-ACK are agreed on; its timestamp echo is a round-trip
/// sample.
#[verifier::opaque]
pub open spec fn take_synack_options(s: TcbView, g: SegmentView) -> TcbView {
    let t = ts_agreed(s, g);
    let u = match g.options.ts {
        Some((_, tsecr)) => if tsecr != 0 {
            rtt_from_echo(t, tsecr)
        } else {
            t
        },
        None => t,
    };
    agreed(u, g.options.sack_permitted, g.has(flags::ECE) && !g.has(flags::CWR))
}

/// The connection after the SYN-ACK that our SYN asked for.
#[verifier::opaque]
pub open spec fn synack_accepted(s: TcbView, g: SegmentView) -> TcbView {
    let t = take_synack_options(syn_acked(take_offer(s, g), g.ack), g);
    pure_ack(in_state(rto_stopped(rtt_from_probe(t, g.ack)), State::Established))
}

/// Processes a segment while our SYN is unanswered.
#[verifier::opaque]
pub open spec fn on_syn_sent(s: TcbView, g: SegmentView) -> (TcbView, Result<(), TcpError>) {
    if !g.has(flags::SYN) {
        (s, Err(TcpError::NotForUs))
    } else if !g.has(flags::ACK) {
        (reset_reply(s, 0, g.seq.wrapping_add(1)), Ok(()))
    } else if g.ack != s.snd_nxt {
        (reset_reply(s, g.ack, 0), Ok(()))
    } else {
        (synack_accepted(s, g), Ok(()))
    }
}

/// Everything about the present connection is forgotten; what belongs to the
/// endpoint stays.
#[verifier::opaque]
pub open spec fn reset(s: TcbView) -> TcbView {
    TcbView {
        snd_una: s.iss,
        snd_nxt: s.iss,
        snd_max: s.iss,
        snd_wnd: 0,
        rcv_nxt: 0,
        rcv_wnd: s.cap as u32,
        irs: 0,
        peer_mss: DEFAULT_PEER_MSS,
        ts_enabled: false,
        ts_recent: 0,
        snd_wscale: 0,
        rcv_wscale: 0,
        ws_offered: false,
        ecn_enabled: false,
        ce_observed: false,
        send_cwr_pending: false,
        sack_enabled: false,
        board: ScoreView { ranges: Seq::empty(), una: 0 },
        rxt_seq: 0,
        rxt_unacked: 0,
        sent: Seq::empty(),
        rack: unprimed(),
        rack_deadline: None,
        lost: Seq::empty(),
        tlp_deadline: None,
        tlp_fired: false,
        rtx_count: 0,
        keepalive_probes: 0,
        keepalive_deadline: None,
        user_timeout_deadline: None,
        send_ring: Seq::empty(),
        recv_ring: Seq::empty(),
        reasm: nothing_held(),
        cc: fresh(s.cap as u32),
        rto_deadline: None,
        rtt_probe: None,
        srtt_ms: 0,
        rttvar_ms: 0,
        rtt_first_sample: false,
        pending_ack: false,
        delayed_ack_count: 0,
        ack_deadline: None,
        persist_deadline: None,
        persist_backoff_ms: 0,
        fin_sent: false,
        fin_seq: 0,
        time_wait_deadline: None,
        error: None,
        tx: Seq::empty(),
        syn_rcvd_retries: 0,
        ..s
    }
}

/// No particular peer.
pub open spec fn any_peer() -> EndpointView {
    EndpointView { ip: seq![0u8, 0u8, 0u8, 0u8], port: 0 }
}

/// A listener waits for the next SYN; another connection is closed.
#[verifier::opaque]
pub open spec fn unpinned(s: TcbView) -> TcbView {
    TcbView {
        remote: any_peer(),
        state: if s.is_listener {
            State::Listen
        } else {
            State::Closed
        },
        ..s
    }
}

/// The connection is forgotten, and its place is given back.
#[verifier::opaque]
pub open spec fn relisten(s: TcbView) -> TcbView {
    unpinned(reset(s))
}

/// Stages the SYN-ACK.
#[verifier::opaque]
pub open spec fn emit_synack(s: TcbView) -> TcbView {
    emit(
        s,
        flags::SYN | flags::ACK | (if s.ecn_enabled {
            flags::ECE
        } else {
            0u8
        }),
        s.iss,
        s.rcv_nxt,
        synack_opts(s),
        Seq::empty(),
    )
}

/// Our SYN takes a sequence number.
#[verifier::opaque]
pub open spec fn syn_counted(s: TcbView) -> TcbView {
    bump_max(TcbView { snd_nxt: s.iss.wrapping_add(1), ..s })
}

/// The connection after our SYN or SYN-ACK has gone out.
#[verifier::opaque]
pub open spec fn syn_in_flight(s: TcbView) -> TcbView {
    let t = syn_counted(s);
    arm_rto(t, t.snd_nxt)
}

/// The source of `g` is the peer.
#[verifier::opaque]
pub open spec fn pinned(s: TcbView, g: SegmentView) -> TcbView {
    TcbView { remote: EndpointView { ip: g.src_ip, port: g.src_port }, ..s }
}

/// The connection is half open.
#[verifier::opaque]
pub open spec fn half_open(s: TcbView) -> TcbView {
    TcbView { state: State::SynRcvd, syn_rcvd_retries: 0, ..s }
}

/// What a SYN offers is agreed on.
#[verifier::opaque]
pub open spec fn take_syn(s: TcbView, g: SegmentView) -> TcbView {
    let t = ts_agreed(take_offer(pinned(s, g), g), g);
    window_updated(
        agreed(t, g.options.sack_permitted, g.has(flags::ECE) && g.has(flags::CWR)),
    )
}

/// The half-open connection that a SYN starts.
#[verifier::opaque]
pub open spec fn syn_accepted(s: TcbView, g: SegmentView) -> TcbView {
    syn_in_flight(half_open(emit_synack(take_syn(reset(s), g))))
}

/// The time bucket that cookies are made in.
pub open spec fn cookie_bucket(s: TcbView) -> u64 {
    s.now_ms / COOKIE_TIME_BUCKET_MS
}

/// The cookie for a SYN of `peer_seq` from the source of `g` in a time bucket.
#[verifier::opaque]
pub open spec fn cookie(
    s: TcbView,
    bucket: u64,
    ip: Seq<u8>,
    port: u16,
    mss_idx: u8,
    peer_seq: u32,
) -> u32 {
    cookie_from(
        s.cookie_secret,
        cookie_message(bucket, ip, port, s.local.ip, s.local.port, peer_seq, mss_idx),
        mss_idx,
    )
}

/// The SYN-ACK that carries a cookie.
#[verifier::opaque]
pub open spec fn cookie_segment(s: TcbView, g: SegmentView) -> SegmentView {
    let idx = cookie_index(offered_mss(g, DEFAULT_PEER_MSS));
    outbound(
        s.local.ip,
        g.src_ip,
        s.local.port,
        g.src_port,
        cookie(s, cookie_bucket(s), g.src_ip, g.src_port, idx, g.seq),
        g.seq.wrapping_add(1),
        flags::SYN | flags::ACK,
        window_field(s, true),
        OptionsView {
            mss: Some(s.local_mss),
            wscale: None,
            ts: match g.options.ts {
                Some((tsval, _)) => Some((ts_val(s), tsval)),
                None => None,
            },
            sack_permitted: false,
            sack: Seq::empty(),
        },
        Seq::empty(),
        ecn::NOT_ECT,
    )
}

/// Answers a SYN with a cookie; the listener keeps no state.
#[verifier::opaque]
pub open spec fn emit_cookie(s: TcbView, g: SegmentView) -> TcbView {
    if tx_full(s) {
        s
    } else {
        TcbView {
            tx: s.tx.push(packet(cookie_segment(s, g), s.ip_id)),
            ip_id: s.ip_id.wrapping_add(1),
            ..s
        }
    }
}

/// The acknowledgement of `g` returns a cookie that was made in this time bucket
/// or the one before.
#[verifier::opaque]
pub open spec fn returns_cookie(s: TcbView, g: SegmentView) -> bool {
    let c = g.ack.wrapping_sub(1);
    let idx = (c / COOKIE_INDEX_UNIT) as u8;
    let peer_seq = g.seq.wrapping_sub(1);
    let now = cookie_bucket(s);
    ||| cookie(s, now, g.src_ip, g.src_port, idx, peer_seq) == c
    ||| cookie(s, now.wrapping_sub(1), g.src_ip, g.src_port, idx, peer_seq) == c
}

/// The sequence variables and the segment size that a returned cookie stands for.
#[verifier::opaque]
pub open spec fn cookie_restored(s: TcbView, g: SegmentView) -> TcbView {
    let c = g.ack.wrapping_sub(1);
    TcbView {
        peer_mss: max(
            cookie_mss((c / COOKIE_INDEX_UNIT) as u8) as int,
            DEFAULT_PEER_MSS as int,
        ) as u16,
        irs: g.seq.wrapping_sub(1),
        rcv_nxt: g.seq.wrapping_sub(1).wrapping_add(1),
        iss: c,
        snd_una: g.ack,
        snd_nxt: g.ack,
        snd_max: g.ack,
        snd_wnd: scaled(s, g.window),
        ..s
    }
}

/// The connection that a returned cookie stands for.
#[verifier::opaque]
pub open spec fn from_cookie(s: TcbView, g: SegmentView) -> TcbView {
    let t = ts_agreed(cookie_restored(pinned(reset(s), g), g), g);
    in_state(window_updated(t), State::Established)
}

/// Processes a segment while listening.
#[verifier::opaque]
pub open spec fn on_listen(s: TcbView, g: SegmentView) -> TcbView {
    if g.has(flags::SYN) {
        if g.has(flags::ACK) {
            reset_reply(s, g.ack, 0)
        } else if s.cookie_secret_set {
            emit_cookie(s, g)
        } else {
            syn_accepted(s, g)
        }
    } else if g.has(flags::ACK) && s.cookie_secret_set && returns_cookie(s, g) {
        on_synchronised(from_cookie(s, g), g)
    } else {
        s
    }
}

/// The connection after the acknowledgement of our SYN-ACK.
#[verifier::opaque]
pub open spec fn handshake_done(s: TcbView, g: SegmentView) -> TcbView {
    TcbView {
        snd_una: g.ack,
        snd_wnd: scaled(s, g.window),
        rto_deadline: None,
        rtt_probe: None,
        syn_rcvd_retries: 0,
        state: State::Established,
        ..s
    }
}

/// Processes a segment while half open.
#[verifier::opaque]
pub open spec fn on_syn_rcvd(s: TcbView, g: SegmentView) -> TcbView {
    if g.has(flags::SYN) {
        if g.has(flags::ACK) {
            reset_reply(s, g.ack, 0)
        } else if g.seq == s.irs {
            emit_synack(s)
        } else {
            s
        }
    } else if !g.has(flags::ACK) {
        s
    } else if g.ack != s.iss.wrapping_add(1) {
        reset_reply(s, g.ack, 0)
    } else if acceptable(s, g.seq, g.payload.len() as u32) && g.seq == s.rcv_nxt {
        on_synchronised(handshake_done(s, g), g)
    } else {
        s
    }
}

/// The connection after a reset from the peer: closed for good, no timer running,
/// and nothing outstanding.
#[verifier::opaque]
pub open spec fn reset_by_peer(s: TcbView) -> TcbView {
    TcbView {
        error: Some(TcpError::ConnectionReset),
        state: State::Closed,
        snd_nxt: s.snd_una,
        snd_max: s.snd_una,
        fin_sent: false,
        rto_deadline: None,
        time_wait_deadline: None,
        persist_deadline: None,
        ack_deadline: None,
        rack_deadline: None,
        tlp_deadline: None,
        ..s
    }
}

/// Processes a reset.
#[verifier::opaque]
pub open spec fn on_reset(s: TcbView, g: SegmentView) -> (TcbView, Result<(), TcpError>) {
    match s.state {
        State::SynSent => if !g.has(flags::ACK) || g.ack != s.snd_nxt {
            (s, Err(TcpError::NotForUs))
        } else {
            (reset_by_peer(s), Ok(()))
        },
        State::Listen => (s, Ok(())),
        State::SynRcvd => if !acceptable(s, g.seq, 0) {
            (s, Ok(()))
        } else if s.is_listener {
            (relisten(s), Ok(()))
        } else {
            (reset_by_peer(s), Ok(()))
        },
        _ => (reset_by_peer(s), Ok(())),
    }
}

/// Processes a segment that belongs to the connection.
#[verifier::opaque]
pub open spec fn on_segment(s: TcbView, g: SegmentView) -> (TcbView, Result<(), TcpError>) {
    if g.has(flags::RST) {
        on_reset(s, g)
    } else {
        match s.state {
            State::Closed => (s, Err(TcpError::InvalidState)),
            State::Listen => (on_listen(s, g), Ok(())),
            State::SynSent => on_syn_sent(s, g),
            State::SynRcvd => (on_syn_rcvd(s, g), Ok(())),
            _ => (on_synchronised(s, g), Ok(())),
        }
    }
}

/// The segment is addressed to the connection; while listening any source will
/// do.
pub open spec fn for_us(s: TcbView, g: SegmentView) -> bool {
    &&& g.dst_ip == s.local.ip && g.dst_port == s.local.port
    &&& s.state is Listen || (g.src_ip == s.remote.ip && g.src_port == s.remote.port)
}

/// The peer has shown that it is alive.
#[verifier::opaque]
pub open spec fn peer_alive(s: TcbView) -> TcbView {
    if s.keepalive_idle_ms != 0 {
        TcbView {
            keepalive_probes: 0,
            keepalive_deadline: Some(later(s, s.keepalive_idle_ms as u64)),
            ..s
        }
    } else {
        s
    }
}

/// Processes an inbound datagram. A segment for the connection shows that the peer
/// is alive, whatever becomes of it.
pub open spec fn injected(s: TcbView, b: Seq<u8>) -> (TcbView, Result<(), TcpError>) {
    match parse_packet(b) {
        None => (s, Err(TcpError::MalformedPacket)),
        Some(g) => if for_us(s, g) {
            let (t, r) = on_segment(s, g);
            (peer_alive(t), r)
        } else {
            (s, Err(TcpError::NotForUs))
        },
    }
}

// ---------------------------------------------------------------------------
// Timers
// ---------------------------------------------------------------------------

/// The timer is armed and its time has come.
pub open spec fn due(s: TcbView, deadline: Option<u64>) -> bool {
    deadline matches Some(d) && s.now_ms >= d
}

/// The connection after it was given up: closed, empty, no timer running, and
/// nothing outstanding. The peer is not told.
#[verifier::opaque]
pub open spec fn given_up(s: TcbView) -> TcbView {
    TcbView {
        state: State::Closed,
        error: Some(TcpError::ConnectionReset),
        send_ring: Seq::empty(),
        recv_ring: Seq::empty(),
        reasm: nothing_held(),
        snd_nxt: s.snd_una,
        snd_max: s.snd_una,
        fin_sent: false,
        rto_deadline: None,
        time_wait_deadline: None,
        persist_deadline: None,
        ack_deadline: None,
        rack_deadline: None,
        tlp_deadline: None,
        keepalive_deadline: None,
        keepalive_probes: 0,
        user_timeout_deadline: None,
        ..s
    }
}

/// The TIME_WAIT timer.
#[verifier::opaque]
pub open spec fn tick_time_wait(s: TcbView) -> TcbView {
    if due(s, s.time_wait_deadline) {
        TcbView { state: State::Closed, time_wait_deadline: None, ..s }
    } else {
        s
    }
}

/// One more retransmission timeout in a row; a half-open connection counts its
/// own.
#[verifier::opaque]
pub open spec fn count_timeout(s: TcbView) -> TcbView {
    if s.state is SynRcvd {
        s
    } else {
        TcbView { rtx_count: min(s.rtx_count + 1, 255) as u8, ..s }
    }
}

/// The retransmission budget is spent.
pub open spec fn out_of_patience(s: TcbView) -> bool {
    !(s.state is SynRcvd) && s.rtx_count > MAX_RETRANSMITS
}

/// The collapse on a retransmission timeout: everything is sent again from the
/// oldest unacknowledged byte, with twice the patience.
#[verifier::opaque]
pub open spec fn collapse(s: TcbView) -> TcbView {
    TcbView {
        cc: after_timeout(s.cc, flight(s)),
        snd_nxt: s.snd_una,
        board: ScoreView { ranges: Seq::empty(), ..s.board },
        rxt_seq: s.snd_una,
        rxt_unacked: 0,
        sent: Seq::empty(),
        rack: forgotten(s.rack),
        rack_deadline: None,
        lost: Seq::empty(),
        tlp_deadline: None,
        tlp_fired: false,
        rto_ms: min(sat_u32(2 * s.rto_ms), RTO_MAX_MS as int) as u32,
        rtt_probe: spoil_probe(s.rtt_probe),
        rto_deadline: None,
        ..s
    }
}

/// Sends our SYN.
#[verifier::opaque]
pub open spec fn send_syn(s: TcbView) -> TcbView {
    if tx_full(s) {
        s
    } else {
        syn_in_flight(
            emit(s, flags::SYN | flags::ECE | flags::CWR, s.iss, 0, syn_opts(s), Seq::empty()),
        )
    }
}

/// One more SYN-ACK is sent again.
#[verifier::opaque]
pub open spec fn retry_counted(s: TcbView) -> TcbView {
    TcbView { syn_rcvd_retries: min(s.syn_rcvd_retries + 1, 255) as u8, ..s }
}

/// What a retransmission timeout sends again by itself: our SYN or SYN-ACK. A
/// half-open connection whose budget is spent gives its place back.
#[verifier::opaque]
pub open spec fn resend_handshake(s: TcbView) -> TcbView {
    if s.state is SynSent {
        send_syn(s)
    } else if s.state is SynRcvd {
        let t = retry_counted(s);
        if t.syn_rcvd_retries > MAX_SYN_RCVD_RETRIES {
            relisten(t)
        } else if tx_full(t) {
            t
        } else {
            syn_in_flight(emit_synack(t))
        }
    } else {
        s
    }
}

/// The retransmission timer, once its time has come and patience is left.
#[verifier::opaque]
pub open spec fn tick_rto(s: TcbView) -> TcbView {
    if due(s, s.rto_deadline) {
        resend_handshake(collapse(count_timeout(s)))
    } else {
        s
    }
}

/// The retransmission timer has run out for the last time.
pub open spec fn rto_gives_up(s: TcbView) -> bool {
    due(s, s.rto_deadline) && out_of_patience(count_timeout(s))
}

/// The reordering timer is stopped.
#[verifier::opaque]
pub open spec fn rack_disarmed(s: TcbView) -> TcbView {
    TcbView { rack_deadline: None, ..s }
}

/// The reordering timer.
#[verifier::opaque]
pub open spec fn tick_rack(s: TcbView) -> TcbView {
    if due(s, s.rack_deadline) {
        rack_scan(rack_disarmed(s))
    } else {
        s
    }
}

/// The tail loss probe timer.
#[verifier::opaque]
pub open spec fn tick_tlp(s: TcbView) -> TcbView {
    if due(s, s.tlp_deadline) {
        fire_tlp(s)
    } else {
        s
    }
}

/// The probe of a closed window: one byte of what waits.
#[verifier::opaque]
pub open spec fn emit_window_probe(s: TcbView) -> TcbView {
    let t = emit(
        s,
        flags::ACK | flags::PSH,
        s.snd_nxt,
        s.rcv_nxt,
        data_opts(s),
        ring_bytes(s, flight(s) as int, 1),
    );
    let t = nxt_moved(t, 1);
    arm_rto_if_idle(t, t.snd_nxt)
}

/// The next probe of a closed window comes after twice the time.
#[verifier::opaque]
pub open spec fn persist_backed_off(s: TcbView) -> TcbView {
    let backoff = clamp_rto(sat_u32(2 * s.persist_backoff_ms));
    TcbView {
        persist_backoff_ms: backoff,
        persist_deadline: Some(later(s, backoff as u64)),
        ..s
    }
}

/// The persist timer.
#[verifier::opaque]
pub open spec fn tick_persist(s: TcbView) -> TcbView {
    if !due(s, s.persist_deadline) || tx_full(s) {
        s
    } else if unsent(s) > 0 {
        persist_backed_off(emit_window_probe(s))
    } else {
        persist_backed_off(s)
    }
}

/// The connection is established and has nothing to send.
pub open spec fn is_idle(s: TcbView) -> bool {
    s.state is Established && !has_work(s)
}

/// One more keepalive probe has gone out.
#[verifier::opaque]
pub open spec fn keepalive_counted(s: TcbView) -> TcbView {
    TcbView {
        keepalive_probes: min(s.keepalive_probes + 1, 255) as u8,
        keepalive_deadline: Some(later(s, s.keepalive_intvl_ms as u64)),
        ..s
    }
}

/// The keepalive timer: probes an idle connection, and gives it up when no probe
/// was answered.
#[verifier::opaque]
pub open spec fn tick_keepalive(s: TcbView) -> TcbView {
    if s.keepalive_idle_ms == 0 || !is_idle(s) || !due(s, s.keepalive_deadline) {
        s
    } else if s.keepalive_probes >= s.keepalive_count {
        given_up(s)
    } else if tx_full(s) {
        s
    } else {
        keepalive_counted(
            emit(
                s,
                flags::ACK,
                s.snd_nxt.wrapping_sub(1),
                s.rcv_nxt,
                data_opts(s),
                Seq::empty(),
            ),
        )
    }
}

/// The user timeout runs until `deadline`.
#[verifier::opaque]
pub open spec fn user_timer_set(s: TcbView, deadline: Option<u64>) -> TcbView {
    TcbView { user_timeout_deadline: deadline, ..s }
}

/// The user timeout: gives a connection up that has made no progress for too
/// long.
#[verifier::opaque]
pub open spec fn tick_user_timeout(s: TcbView) -> TcbView {
    if s.user_timeout_ms == 0 || !has_work(s) {
        user_timer_set(s, None)
    } else if s.user_timeout_deadline is None {
        user_timer_set(s, Some(later(s, s.user_timeout_ms as u64)))
    } else if due(s, s.user_timeout_deadline) {
        given_up(s)
    } else {
        s
    }
}

/// The delayed acknowledgement.
#[verifier::opaque]
pub open spec fn tick_ack(s: TcbView) -> TcbView {
    if s.pending_ack && due(s, s.ack_deadline) {
        pure_ack(s)
    } else {
        s
    }
}

/// Every timer up to the user timeout.
#[verifier::opaque]
pub open spec fn tick_timers(s: TcbView) -> TcbView {
    tick_user_timeout(tick_keepalive(tick_persist(tick_tlp(tick_rack(tick_rto(s))))))
}

/// Drives the timers, then sends what may be sent.
pub open spec fn ticked(s: TcbView) -> TcbView {
    let s = tick_time_wait(s);
    if rto_gives_up(s) {
        given_up(count_timeout(s))
    } else {
        let t = tick_timers(s);
        if t.state is Closed {
            t
        } else {
            tick_ack(send_data(t))
        }
    }
}

// ---------------------------------------------------------------------------
// The application's and the host's calls
// ---------------------------------------------------------------------------

/// An active open begins.
#[verifier::opaque]
pub open spec fn opening(s: TcbView) -> TcbView {
    TcbView { state: State::SynSent, snd_una: s.iss, ..s }
}

/// Starts an active open.
pub open spec fn connected(s: TcbView) -> TcbView {
    send_syn(opening(s))
}

/// A passive open may start.
pub open spec fn may_listen(st: State) -> bool {
    st is Closed || st is Listen || st is TimeWait
}

/// Any peer may connect.
#[verifier::opaque]
pub open spec fn open_to_all(s: TcbView) -> TcbView {
    TcbView { remote: any_peer(), is_listener: true, ..s }
}

/// Starts a passive open.
pub open spec fn listening(s: TcbView) -> TcbView {
    in_state(reset(open_to_all(s)), State::Listen)
}

/// The endpoints and settings of a new connection.
#[verifier::opaque]
pub open spec fn reassigned(
    s: TcbView,
    local: EndpointView,
    remote: EndpointView,
    iss: u32,
    initial_rto_ms: u32,
) -> TcbView {
    TcbView {
        local,
        remote,
        iss,
        rto_ms: clamp_rto(initial_rto_ms as int),
        local_mss: MSS,
        is_listener: false,
        cookie_secret: no_secret(),
        cookie_secret_set: false,
        now_ms: 0,
        ip_id: 0,
        keepalive_idle_ms: DEFAULT_KEEPALIVE_IDLE_MS,
        keepalive_intvl_ms: DEFAULT_KEEPALIVE_INTVL_MS,
        keepalive_count: DEFAULT_KEEPALIVE_COUNT,
        user_timeout_ms: DEFAULT_USER_TIMEOUT_MS,
        ..s
    }
}

/// A new connection with rings of `cap` bytes: closed, empty and with default
/// settings.
pub open spec fn created(
    cap: usize,
    local: EndpointView,
    remote: EndpointView,
    iss: u32,
    initial_rto_ms: u32,
) -> TcbView {
    TcbView {
        cap,
        state: State::Closed,
        local,
        remote,
        snd_una: iss,
        snd_nxt: iss,
        snd_max: iss,
        snd_wnd: 0,
        iss,
        rcv_nxt: 0,
        rcv_wnd: cap as u32,
        irs: 0,
        local_mss: MSS,
        peer_mss: DEFAULT_PEER_MSS,
        ts_enabled: false,
        ts_recent: 0,
        snd_wscale: 0,
        rcv_wscale: 0,
        ws_offered: false,
        ecn_enabled: false,
        ce_observed: false,
        send_cwr_pending: false,
        sack_enabled: false,
        board: ScoreView { ranges: Seq::empty(), una: 0 },
        rxt_seq: 0,
        rxt_unacked: 0,
        sent: Seq::empty(),
        rack: unprimed(),
        rack_deadline: None,
        lost: Seq::empty(),
        tlp_deadline: None,
        tlp_fired: false,
        send_ring: Seq::empty(),
        recv_ring: Seq::empty(),
        reasm: nothing_held(),
        cc: fresh(cap as u32),
        now_ms: 0,
        rto_ms: clamp_rto(initial_rto_ms as int),
        srtt_ms: 0,
        rttvar_ms: 0,
        rtt_first_sample: false,
        rto_deadline: None,
        rtt_probe: None,
        pending_ack: false,
        delayed_ack_count: 0,
        ack_deadline: None,
        persist_deadline: None,
        persist_backoff_ms: 0,
        fin_sent: false,
        fin_seq: 0,
        time_wait_deadline: None,
        error: None,
        tx: Seq::empty(),
        ip_id: 0,
        is_listener: false,
        syn_rcvd_retries: 0,
        rtx_count: 0,
        keepalive_idle_ms: DEFAULT_KEEPALIVE_IDLE_MS,
        keepalive_intvl_ms: DEFAULT_KEEPALIVE_INTVL_MS,
        keepalive_count: DEFAULT_KEEPALIVE_COUNT,
        keepalive_probes: 0,
        keepalive_deadline: None,
        user_timeout_ms: DEFAULT_USER_TIMEOUT_MS,
        user_timeout_deadline: None,
        cookie_secret: no_secret(),
        cookie_secret_set: false,
    }
}

/// The key before one is set.
pub open spec fn no_secret() -> Seq<u8> {
    Seq::new(16, |i: int| 0u8)
}

/// The key of the cookies is set, if there is one.
pub open spec fn with_key(s: TcbView, key: Option<Seq<u8>>) -> TcbView {
    match key {
        Some(k) => TcbView { cookie_secret: k, cookie_secret_set: true, ..s },
        None => s,
    }
}

/// A connection that is reset and reassigned is as good as new.
pub proof fn lemma_renewed(
    s: TcbView,
    local: EndpointView,
    remote: EndpointView,
    iss: u32,
    initial_rto_ms: u32,
)
    ensures
        in_state(reset(reassigned(s, local, remote, iss, initial_rto_ms)), State::Closed)
            == created(s.cap, local, remote, iss, initial_rto_ms),
{
    reveal(in_state);
    reveal(reset);
    reveal(reassigned);
}

/// The connection is no listener any more.
#[verifier::opaque]
pub open spec fn unlistened(s: TcbView) -> TcbView {
    TcbView { is_listener: false, ..s }
}

/// Begins a graceful close.
pub open spec fn closed(s: TcbView) -> TcbView {
    match s.state {
        State::Established | State::SynRcvd => send_data(in_state(s, State::FinWait1)),
        State::CloseWait => send_data(in_state(s, State::LastAck)),
        State::SynSent | State::Listen => in_state(unlistened(s), State::Closed),
        _ => s,
    }
}

/// The connection after it was torn down: closed and empty, no timer running.
#[verifier::opaque]
pub open spec fn torn_down(s: TcbView) -> TcbView {
    TcbView {
        state: State::Closed,
        error: Some(TcpError::ConnectionReset),
        send_ring: Seq::empty(),
        recv_ring: Seq::empty(),
        reasm: nothing_held(),
        rto_deadline: None,
        time_wait_deadline: None,
        persist_deadline: None,
        ack_deadline: None,
        rack_deadline: None,
        tlp_deadline: None,
        ..s
    }
}

/// Tears the connection down at once, telling a peer that knows of it.
pub open spec fn aborted(s: TcbView) -> TcbView {
    if s.state is Closed {
        s
    } else if s.state is Listen || s.state is SynSent {
        torn_down(unlistened(s))
    } else {
        torn_down(
            emit(s, flags::RST | flags::ACK, s.snd_nxt, s.rcv_nxt, no_options(), Seq::empty()),
        )
    }
}

/// The connection after `n` bytes of application data were buffered.
#[verifier::opaque]
pub open spec fn data_buffered(s: TcbView, data: Seq<u8>, n: int) -> TcbView {
    TcbView { send_ring: s.send_ring + data.take(n), ..s }
}

/// Takes application data to send: the connection after it, and how many bytes
/// were taken.
pub open spec fn app_send(s: TcbView, data: Seq<u8>) -> (TcbView, Result<int, TcpError>) {
    let n = min(data.len() as int, s.cap - s.send_ring.len());
    if !(s.state is Established || s.state is CloseWait) {
        (s, Err(TcpError::InvalidState))
    } else if n == 0 && data.len() > 0 {
        (s, Err(TcpError::WouldBlock))
    } else {
        (data_buffered(s, data, n), Ok(n))
    }
}

/// The states in which an empty receive ring means the end of the stream.
pub open spec fn stream_over(st: State) -> bool {
    ||| st is Closed
    ||| st is CloseWait
    ||| st is LastAck
    ||| st is Closing
    ||| st is TimeWait
}

/// How many bytes the application gets when it asks for `room` of them.
pub open spec fn app_recv_len(s: TcbView, room: int) -> int {
    if s.error is Some {
        0
    } else {
        min(room, s.recv_ring.len() as int)
    }
}

/// The application has read `n` bytes.
#[verifier::opaque]
pub open spec fn data_read(s: TcbView, n: int) -> TcbView {
    TcbView { recv_ring: s.recv_ring.skip(n), ..s }
}

/// Hands the application up to `room` received bytes: the connection after it, and
/// how many bytes that was.
pub open spec fn app_recv(s: TcbView, room: int) -> (TcbView, Result<int, TcpError>) {
    let n = app_recv_len(s, room);
    match s.error {
        Some(e) => (s, Err(e)),
        None => if n > 0 {
            (window_updated(drain(data_read(s, n))), Ok(n))
        } else if stream_over(s.state) && s.recv_ring.len() == 0 {
            (s, Err(TcpError::ConnectionClosed))
        } else {
            (s, Ok(0))
        },
    }
}

/// The event bits that tell the host what to do next.
pub open spec fn event_bits(s: TcbView) -> u32 {
    let e0 = 0u32;
    let e1 = if s.recv_ring.len() > 0 {
        e0 | events::READABLE
    } else {
        e0
    };
    let e2 = if (s.state is Established || s.state is CloseWait) && s.send_ring.len() < s.cap {
        e1 | events::WRITABLE
    } else {
        e1
    };
    let e3 = if s.state is Established {
        e2 | events::ESTABLISHED
    } else {
        e2
    };
    let e4 = if s.state is CloseWait || s.state is LastAck || s.state is Closing
        || s.state is TimeWait {
        e3 | events::PEER_CLOSED
    } else {
        e3
    };
    let e5 = if s.state is Closed {
        e4 | events::CLOSED
    } else {
        e4
    };
    let e6 = if s.state is Listen {
        e5 | events::LISTENING
    } else {
        e5
    };
    let e7 = if s.state is SynRcvd {
        e6 | events::HALF_OPEN
    } else {
        e6
    };
    let e8 = if s.tx.len() > 0 {
        e7 | events::TX_PENDING
    } else {
        e7
    };
    if s.error is Some {
        e8 | events::ERROR
    } else {
        e8
    }
}

/// The keepalive timer is set up.
#[verifier::opaque]
pub open spec fn keepalive_set(s: TcbView, idle_ms: u32, intvl_ms: u32, count: u8) -> TcbView {
    TcbView {
        keepalive_idle_ms: idle_ms,
        keepalive_intvl_ms: max(intvl_ms as int, 1) as u32,
        keepalive_count: count,
        keepalive_probes: 0,
        keepalive_deadline: if idle_ms == 0 {
            None
        } else {
            Some(later(s, idle_ms as u64))
        },
        ..s
    }
}

/// The user timeout is set up; it starts over if there is work.
#[verifier::opaque]
pub open spec fn user_timeout_set(s: TcbView, ms: u32) -> TcbView {
    TcbView {
        user_timeout_ms: ms,
        user_timeout_deadline: if ms == 0 || !has_work(s) {
            None
        } else {
            Some(later(s, ms as u64))
        },
        ..s
    }
}

/// The copy of the main variables.
pub open spec fn snapshot(s: TcbView) -> DebugSnapshot {
    DebugSnapshot {
        snd_una: s.snd_una,
        snd_nxt: s.snd_nxt,
        snd_wnd: s.snd_wnd,
        rcv_nxt: s.rcv_nxt,
        cwnd: s.cc.cwnd,
        ssthresh: s.cc.ssthresh,
        rto_ms: s.rto_ms,
        rto_deadline: match s.rto_deadline {
            Some(d) => d,
            None => u64::MAX,
        },
        now_ms: s.now_ms,
        send_ring_len: s.send_ring.len() as u32,
        recv_ring_len: s.recv_ring.len() as u32,
        oo_start: match first_start(s.reasm.runs, s.rcv_nxt) {
            Some(x) => x,
            None => 0,
        },
        oo_len: held(s.reasm.runs) as u32,
        tx_len: if s.tx.len() > 0 {
            s.tx[0].len() as u32
        } else {
            0
        },
        pending_ack: s.pending_ack,
        dup_ack_count: s.cc.dup_acks,
        state: state_byte(s.state) as u8,
    }
}

/// The states in which our FIN may have been sent.
pub open spec fn closing_state(st: State) -> bool {
    ||| st is FinWait1
    ||| st is FinWait2
    ||| st is Closing
    ||| st is TimeWait
    ||| st is LastAck
    ||| st is Closed
}

/// The states that our acknowledged FIN leads to.
pub open spec fn fin_acked_state(st: State) -> bool {
    st is FinWait2 || st is TimeWait || st is Closed
}

/// Outstanding sequence numbers that no buffered byte stands for: those of our SYN
/// and of our FIN.
pub open spec fn phantoms(s: TcbView) -> int {
    (if (s.state is SynSent || s.state is SynRcvd) && seq_lt(s.snd_una, s.snd_max) {
        1int
    } else {
        0int
    }) + (if s.fin_sent && seq_le(s.snd_una, s.fin_seq) && seq_lt(s.fin_seq, s.snd_max) {
        1int
    } else {
        0int
    })
}

/// The first consistency condition that the connection breaks.
pub open spec fn breach(s: TcbView) -> Option<Seq<char>> {
    let fin_end = s.fin_seq.wrapping_add(1);
    if seq_lt(s.snd_max, s.snd_una) {
        Some("snd_max is behind snd_una"@)
    } else if seq_lt(s.snd_nxt, s.snd_una) {
        Some("snd_nxt is behind snd_una"@)
    } else if seq_lt(s.snd_max, s.snd_nxt) {
        Some("snd_nxt is beyond snd_max"@)
    } else if s.fin_sent && seq_gt(fin_end, s.snd_max) {
        Some("fin_seq is beyond snd_max"@)
    } else if s.fin_sent && !closing_state(s.state) {
        Some("fin_sent set in non-closing state"@)
    } else if s.fin_sent && fin_acked_state(s.state) && seq_lt(s.snd_una, fin_end) {
        Some("state requires our FIN to be ACKed"@)
    } else if s.snd_max.wrapping_sub(s.snd_una) > s.send_ring.len() + phantoms(s) {
        Some("outstanding sequence span exceeds buffered data plus SYN/FIN"@)
    } else if s.rto_deadline is Some && seq_le(s.snd_max, s.snd_una) {
        Some("RTO armed with no outstanding sequence space"@)
    } else {
        None
    }
}

/// Sent bytes wait for their acknowledgement, and no timer would send them again.
pub open spec fn ack_clock_dead(s: TcbView) -> bool {
    &&& seq_lt(s.snd_una, s.snd_max)
    &&& s.rto_deadline is None
    &&& s.tlp_deadline is None
    &&& s.rack_deadline is None
}

/// Data waits under a closed window, nothing is in flight, and no probe is due.
pub open spec fn persist_stalled(s: TcbView) -> bool {
    &&& (s.state is Established || s.state is CloseWait)
    &&& s.send_ring.len() > 0
    &&& s.snd_wnd == 0
    &&& seq_le(s.snd_max, s.snd_una)
    &&& s.persist_deadline is None
}

/// The way in which a connection at rest would stay silent for ever.
pub open spec fn stall(s: TcbView) -> Option<Seq<char>> {
    if s.tx.len() > 0 {
        None
    } else if ack_clock_dead(s) {
        Some("liveness: outstanding data with no retransmit timer"@)
    } else if persist_stalled(s) {
        Some("liveness: data queued under zero window with no persist timer"@)
    } else {
        None
    }
}

/// The earlier of two deadlines.
pub open spec fn earlier(a: Option<u64>, b: Option<u64>) -> Option<u64> {
    match (a, b) {
        (Some(x), Some(y)) => Some(min(x as int, y as int) as u64),
        (Some(x), None) => Some(x),
        (None, y) => y,
    }
}

/// The earliest deadline at which something may be sent.
pub open spec fn next_output(s: TcbView) -> Option<u64> {
    earlier(
        s.rto_deadline,
        earlier(
            s.tlp_deadline,
            earlier(
                s.rack_deadline,
                earlier(s.persist_deadline, earlier(s.ack_deadline, s.keepalive_deadline)),
            ),
        ),
    )
}

} // verus!
