//! Congestion control: slow start and congestion avoidance (RFC 5681), fast
//! recovery paced by proportional rate reduction (RFC 6937), and the collapse to
//! one segment on a retransmission timeout.

use crate::num::{max, max_u32, min, min_u32};
use crate::seq::seq_ge;
use crate::MSS;
use vstd::prelude::*;

verus! {

/// Initial window (RFC 6928): ten segments of [`MSS`] bytes.
pub const INITIAL_WINDOW: u32 = 14600;

/// Two segments, the least that a slow-start threshold is set to.
pub const MIN_SSTHRESH: u32 = 2920;

/// Congestion state of one connection.
#[derive(Debug, Clone, Copy)]
pub struct Tahoe {
    /// Congestion window in bytes. Frozen during recovery.
    pub cwnd: u32,
    /// Slow-start threshold in bytes.
    pub ssthresh: u32,
    /// Duplicate acknowledgements in a row.
    pub dup_acks: u8,
    /// Whether fast recovery is under way.
    pub in_recovery: bool,
    /// Recovery ends when the cumulative acknowledgement gets here.
    pub recovery_point: u32,
    /// Bytes in flight when recovery began, at least one.
    pub recover_fs: u32,
    /// Bytes delivered since recovery began.
    pub prr_delivered: u32,
    /// Bytes sent since recovery began.
    pub prr_out: u32,
    /// Bytes that may be sent before the next acknowledgement in recovery.
    pub snd_credit: u32,
}

/// The state of a fresh connection.
pub open spec fn fresh(initial_rwnd: u32) -> Tahoe {
    Tahoe {
        cwnd: INITIAL_WINDOW,
        ssthresh: initial_rwnd,
        dup_acks: 0,
        in_recovery: false,
        recovery_point: 0,
        recover_fs: 0,
        prr_delivered: 0,
        prr_out: 0,
        snd_credit: u32::MAX,
    }
}

/// `a + b`, at most `u32::MAX`.
pub open spec fn sat_add(a: u32, b: int) -> u32 {
    min(a + b, u32::MAX as int) as u32
}

/// By how much an acknowledgement of `acked` new bytes opens the window: as many
/// bytes in slow start, but one segment at most; else about one segment per
/// round trip.
pub open spec fn window_growth(t: Tahoe, acked: u32) -> int {
    if t.cwnd < t.ssthresh {
        min(acked as int, MSS as int)
    } else {
        max(MSS * MSS / max(t.cwnd as int, 1), 1)
    }
}

/// The state after an acknowledgement of `acked` new bytes.
pub open spec fn after_ack(t: Tahoe, acked: u32) -> Tahoe {
    let t = Tahoe { dup_acks: 0, ..t };
    if t.in_recovery || acked == 0 {
        t
    } else {
        Tahoe { cwnd: sat_add(t.cwnd, window_growth(t, acked)), ..t }
    }
}

/// The state after a duplicate acknowledgement.
pub open spec fn after_dup_ack(t: Tahoe) -> Tahoe {
    Tahoe { dup_acks: min(t.dup_acks + 1, 255) as u8, ..t }
}

/// The threshold after a loss with `flight_size` bytes in flight: half of them,
/// but two segments at least.
pub open spec fn loss_threshold(flight_size: u32) -> u32 {
    max(flight_size as int / 2, MIN_SSTHRESH as int) as u32
}

/// The state at the start of fast recovery.
pub open spec fn after_loss(t: Tahoe, flight_size: u32, recovery_point: u32) -> Tahoe {
    Tahoe {
        cwnd: t.cwnd,
        ssthresh: loss_threshold(flight_size),
        dup_acks: 0,
        in_recovery: true,
        recovery_point,
        recover_fs: max(flight_size as int, 1) as u32,
        prr_delivered: 0,
        prr_out: 0,
        snd_credit: MSS as u32,
    }
}

/// The state after a retransmission timeout.
pub open spec fn after_timeout(t: Tahoe, flight_size: u32) -> Tahoe {
    Tahoe {
        cwnd: MSS as u32,
        ssthresh: loss_threshold(flight_size),
        dup_acks: 0,
        in_recovery: false,
        prr_delivered: 0,
        prr_out: 0,
        snd_credit: u32::MAX,
        ..t
    }
}

/// `a / b`, rounded up.
pub open spec fn div_up(a: int, b: int) -> int {
    (a + b - 1) / b
}

/// The send credit that proportional rate reduction grants, `delivered` bytes
/// being new and counted in `t` already.
pub open spec fn prr_credit(t: Tahoe, delivered: u32, pipe: u32) -> u32 {
    if pipe > t.ssthresh {
        max(
            min(div_up(t.prr_delivered * t.ssthresh, t.recover_fs as int), u32::MAX as int)
                - t.prr_out,
            0,
        ) as u32
    } else {
        let limit = min(
            max(max(t.prr_delivered - t.prr_out, 0), delivered as int) + MSS,
            u32::MAX as int,
        );
        min(t.ssthresh - pipe, limit) as u32
    }
}

/// The state after an acknowledgement in recovery that delivered `delivered`
/// bytes and leaves `pipe` bytes in flight.
pub open spec fn after_delivery(t: Tahoe, delivered: u32, pipe: u32) -> Tahoe {
    if !t.in_recovery {
        t
    } else {
        let t = Tahoe { prr_delivered: sat_add(t.prr_delivered, delivered as int), ..t };
        Tahoe { snd_credit: prr_credit(t, delivered, pipe), ..t }
    }
}

/// The state after `bytes` bytes have been sent.
pub open spec fn after_send(t: Tahoe, bytes: u32) -> Tahoe {
    if !t.in_recovery {
        t
    } else {
        Tahoe {
            prr_out: sat_add(t.prr_out, bytes as int),
            snd_credit: max(t.snd_credit - bytes, 0) as u32,
            ..t
        }
    }
}

/// The state after recovery has ended.
pub open spec fn after_recovery(t: Tahoe) -> Tahoe {
    if !t.in_recovery {
        t
    } else {
        Tahoe { cwnd: t.ssthresh, in_recovery: false, snd_credit: u32::MAX, ..t }
    }
}

/// Recovery ends with the cumulative acknowledgement at `una`.
pub open spec fn recovery_over(t: Tahoe, una: u32) -> bool {
    t.in_recovery && seq_ge(una, t.recovery_point)
}

/// What the sender may send before the next acknowledgement.
pub open spec fn credit(t: Tahoe) -> u32 {
    if t.in_recovery {
        t.snd_credit
    } else {
        u32::MAX
    }
}

impl Tahoe {
    /// Recovery always has a flight to measure against.
    pub open spec fn wf(self) -> bool {
        self.in_recovery ==> self.recover_fs >= 1
    }

    pub fn new(initial_rwnd: u32) -> (t: Self)
        ensures
            t == fresh(initial_rwnd),
            t.wf(),
    {
        Tahoe {
            cwnd: INITIAL_WINDOW,
            ssthresh: initial_rwnd,
            dup_acks: 0,
            in_recovery: false,
            recovery_point: 0,
            recover_fs: 0,
            prr_delivered: 0,
            prr_out: 0,
            snd_credit: u32::MAX,
        }
    }

    /// Whether fast recovery is under way.
    pub fn in_recovery(&self) -> (b: bool)
        ensures
            b == self.in_recovery,
    {
        self.in_recovery
    }

    /// What may be sent before the next acknowledgement; no limit outside
    /// recovery.
    pub fn snd_credit(&self) -> (n: u32)
        ensures
            n == credit(*self),
    {
        if self.in_recovery {
            self.snd_credit
        } else {
            u32::MAX
        }
    }

    /// Accounts for an acknowledgement of `acked` new bytes.
    pub fn on_ack(&mut self, acked: u32)
        ensures
            *final(self) == after_ack(*old(self), acked),
    {
        self.dup_acks = 0;
        if self.in_recovery || acked == 0 {
            return;
        }
        let mss: u32 = MSS as u32;
        if self.cwnd < self.ssthresh {
            self.cwnd = self.cwnd.saturating_add(min_u32(acked, mss));
        } else {
            let cwnd: u32 = max_u32(self.cwnd, 1);
            let inc: u32 = (mss * mss) / cwnd;
            assert((mss * mss) as int / cwnd as int <= mss * mss) by (nonlinear_arith)
                requires
                    cwnd >= 1,
                    mss == 1460,
            ;
            self.cwnd = self.cwnd.saturating_add(max_u32(inc, 1));
        }
    }

    /// Accounts for a duplicate acknowledgement and says whether it signals a
    /// loss, being the third.
    pub fn on_dup_ack(&mut self) -> (loss: bool)
        ensures
            *final(self) == after_dup_ack(*old(self)),
            loss == (final(self).dup_acks >= 3),
    {
        self.dup_acks = self.dup_acks.saturating_add(1);
        self.dup_acks >= 3
    }

    /// Enters fast recovery with `flight_size` bytes in flight, to end when
    /// `recovery_point` is acknowledged.
    pub fn enter_recovery(&mut self, flight_size: u32, recovery_point: u32)
        ensures
            *final(self) == after_loss(*old(self), flight_size, recovery_point),
            final(self).wf(),
    {
        self.ssthresh = max_u32(flight_size / 2, MIN_SSTHRESH);
        self.in_recovery = true;
        self.recovery_point = recovery_point;
        self.recover_fs = max_u32(flight_size, 1);
        self.prr_delivered = 0;
        self.prr_out = 0;
        self.dup_acks = 0;
        self.snd_credit = MSS as u32;
    }

    /// Collapses the window on a retransmission timeout.
    pub fn on_rto_loss(&mut self, flight_size: u32)
        ensures
            *final(self) == after_timeout(*old(self), flight_size),
            final(self).wf(),
    {
        self.ssthresh = max_u32(flight_size / 2, MIN_SSTHRESH);
        self.cwnd = MSS as u32;
        self.in_recovery = false;
        self.snd_credit = u32::MAX;
        self.prr_delivered = 0;
        self.prr_out = 0;
        self.dup_acks = 0;
    }

    /// Accounts for `delivered_data` newly delivered bytes in recovery and sets
    /// the send credit.
    pub fn on_ack_in_recovery(&mut self, delivered_data: u32, pipe: u32)
        requires
            old(self).wf(),
        ensures
            *final(self) == after_delivery(*old(self), delivered_data, pipe),
            final(self).wf(),
    {
        if !self.in_recovery {
            return;
        }
        self.prr_delivered = self.prr_delivered.saturating_add(delivered_data);
        if pipe > self.ssthresh {
            let a: u64 = self.prr_delivered as u64;
            let b: u64 = self.ssthresh as u64;
            let den: u64 = self.recover_fs as u64;
            proof {
                assert(a * b <= 0xFFFF_FFFF * 0xFFFF_FFFF) by (nonlinear_arith)
                    requires
                        a <= 0xFFFF_FFFF,
                        b <= 0xFFFF_FFFF,
                ;
            }
            let up: u64 = (a * b + (den - 1)) / den;
            let capped: u32 = if up > u32::MAX as u64 {
                u32::MAX
            } else {
                up as u32
            };
            self.snd_credit = capped.saturating_sub(self.prr_out);
        } else {
            let limit: u32 = max_u32(
                self.prr_delivered.saturating_sub(self.prr_out),
                delivered_data,
            ).saturating_add(MSS as u32);
            self.snd_credit = min_u32(self.ssthresh - pipe, limit);
        }
    }

    /// Accounts for `bytes` bytes put on the wire.
    pub fn on_send(&mut self, bytes: u32)
        ensures
            *final(self) == after_send(*old(self), bytes),
    {
        if self.in_recovery {
            self.prr_out = self.prr_out.saturating_add(bytes);
            self.snd_credit = self.snd_credit.saturating_sub(bytes);
        }
    }

    /// Ends recovery if the cumulative acknowledgement at `snd_una` has reached
    /// the recovery point, and says whether it did.
    pub fn check_exit_recovery(&mut self, snd_una: u32) -> (ended: bool)
        ensures
            ended == recovery_over(*old(self), snd_una),
            *final(self) == (if ended {
                after_recovery(*old(self))
            } else {
                *old(self)
            }),
    {
        if self.in_recovery && seq_ge(snd_una, self.recovery_point) {
            self.force_exit_recovery();
            return true;
        }
        false
    }

    /// Ends recovery, keeping the reduced threshold as the window.
    pub fn force_exit_recovery(&mut self)
        ensures
            *final(self) == after_recovery(*old(self)),
    {
        if !self.in_recovery {
            return;
        }
        self.cwnd = self.ssthresh;
        self.in_recovery = false;
        self.snd_credit = u32::MAX;
    }

    /// Bytes that may be in flight, given the peer's window.
    pub fn allowed(&self, peer_wnd: u32) -> (n: u32)
        ensures
            n == min(self.cwnd as int, peer_wnd as int),
    {
        min_u32(self.cwnd, peer_wnd)
    }
}

/// Recovery ends with the window at the threshold that it was entered with, and
/// nothing that happens inside recovery moves either.
pub proof fn law_recovery_exits_at_ssthresh(t: Tahoe, delivered: u32, pipe: u32, sent: u32)
    requires
        t.in_recovery,
    ensures
        after_recovery(t).cwnd == t.ssthresh,
        !after_recovery(t).in_recovery,
        credit(after_recovery(t)) == u32::MAX,
        after_delivery(t, delivered, pipe).ssthresh == t.ssthresh,
        after_delivery(t, delivered, pipe).cwnd == t.cwnd,
        after_send(t, sent).ssthresh == t.ssthresh,
        after_send(t, sent).cwnd == t.cwnd,
        after_ack(t, delivered).cwnd == t.cwnd,
{
}

/// A loss never leaves a threshold below two segments, and a window below one.
pub proof fn law_loss_keeps_a_floor(t: Tahoe, flight_size: u32, recovery_point: u32)
    ensures
        after_loss(t, flight_size, recovery_point).ssthresh >= 2 * MSS,
        after_timeout(t, flight_size).ssthresh >= 2 * MSS,
        after_timeout(t, flight_size).cwnd == MSS,
        credit(after_loss(t, flight_size, recovery_point)) == MSS,
{
}

/// Outside recovery a fresh acknowledgement opens the window, up to the limit of
/// its type, by one segment at most in slow start.
pub proof fn law_ack_opens_window(t: Tahoe, acked: u32)
    requires
        !t.in_recovery,
        acked > 0,
    ensures
        after_ack(t, acked).cwnd > t.cwnd || t.cwnd == u32::MAX,
        t.cwnd < t.ssthresh ==> after_ack(t, acked).cwnd <= t.cwnd + MSS,
{
    if t.cwnd >= t.ssthresh {
        assert(window_growth(t, acked) >= 1);
    }
}

/// In recovery each byte sent is paid for: the credit falls by what was sent, and
/// sending no more than the credit never overdraws it.
pub proof fn law_send_spends_credit(t: Tahoe, bytes: u32)
    requires
        t.in_recovery,
        bytes <= t.snd_credit,
    ensures
        credit(after_send(t, bytes)) == credit(t) - bytes,
{
}

/// How fast the window grows outside recovery: in slow start by what was acknowledged, one
/// segment at most, so that it doubles in a round trip; from the threshold on by a segment
/// for each window that is acknowledged, shared out over its acknowledgements, and by a byte
/// at least.
pub proof fn law_window_grows_by_the_book(t: Tahoe, acked: u32)
    requires
        !t.in_recovery,
        acked > 0,
        0 < t.cwnd <= 0x4000_0000,
    ensures
        ({
            let u = after_ack(t, acked);
            let d = u.cwnd - t.cwnd;
            &&& u.dup_acks == 0 && u.ssthresh == t.ssthresh && !u.in_recovery
            &&& t.cwnd < t.ssthresh && acked <= MSS ==> d == acked
            &&& t.cwnd < t.ssthresh && acked > MSS ==> d == MSS
            &&& t.cwnd >= t.ssthresh ==> d >= 1 && (d + 1) * t.cwnd > MSS * MSS && (d == 1 || d
                * t.cwnd <= MSS * MSS)
        }),
{
    let c = t.cwnd as int;
    let q = MSS * MSS / c;
    assert(q * c <= MSS * MSS < (q + 1) * c && 0 <= q <= MSS * MSS) by (nonlinear_arith)
        requires
            c >= 1,
            q == MSS * MSS / c,
            MSS == 1460,
    ;
    if t.cwnd >= t.ssthresh && q < 1 {
        assert(2 * c > MSS * MSS) by (nonlinear_arith)
            requires
                MSS * MSS < (q + 1) * c,
                q < 1,
                0 <= q,
                c >= 1,
        ;
    }
}

/// A loss halves the threshold: to half of what was in flight, rounded down, but two segments
/// at least. Fast recovery keeps the window and lasts until everything that was sent is
/// acknowledged; a timeout collapses the window to one segment and ends recovery.
pub proof fn law_loss_halves_the_threshold(t: Tahoe, flight_size: u32, recovery_point: u32)
    ensures
        ({
            let u = after_loss(t, flight_size, recovery_point);
            let v = after_timeout(t, flight_size);
            &&& flight_size >= 4 * MSS ==> 0 <= flight_size - 2 * u.ssthresh <= 1
            &&& flight_size < 4 * MSS ==> u.ssthresh == 2 * MSS
            &&& u.in_recovery && u.recovery_point == recovery_point
            &&& u.cwnd == t.cwnd && u.dup_acks == 0
            &&& u.prr_delivered == 0 && u.prr_out == 0 && u.snd_credit == MSS
            &&& flight_size > 0 ==> u.recover_fs == flight_size
            &&& v.ssthresh == u.ssthresh && v.cwnd == MSS && !v.in_recovery && v.dup_acks == 0
        }),
{
}

/// Recovery is over once the acknowledgements have reached its point, and not before.
pub proof fn law_recovery_lasts_to_its_point(t: Tahoe, una: u32)
    ensures
        recovery_over(t, una) <==> t.in_recovery && una.wrapping_sub(t.recovery_point)
            < 0x8000_0000,
{
}

/// In recovery what may be sent keeps to the reduction: while more is in flight than the
/// threshold, what was sent and may be sent is to what was delivered as the threshold is to
/// what was in flight, rounded up; below it the flight is filled up to the threshold, but by
/// no more than what was just delivered or not yet used, and a segment.
pub proof fn law_recovery_sends_in_proportion(t: Tahoe, delivered: u32, pipe: u32)
    requires
        t.in_recovery,
        t.recover_fs >= 1,
        t.prr_delivered + delivered <= 0x4000_0000,
        t.prr_out <= 0x4000_0000,
        (t.prr_delivered + delivered) * t.ssthresh <= 0x7FFF_FFFF * t.recover_fs,
    ensures
        ({
            let u = after_delivery(t, delivered, pipe);
            let fs = t.recover_fs;
            let owed = u.prr_delivered * t.ssthresh;
            &&& u.prr_delivered == t.prr_delivered + delivered
            &&& u.prr_out == t.prr_out
            &&& pipe > t.ssthresh ==> (t.prr_out + u.snd_credit) * fs >= owed
            &&& pipe > t.ssthresh && u.snd_credit > 0 ==> (t.prr_out + u.snd_credit - 1) * fs < owed
            &&& pipe <= t.ssthresh ==> {
                &&& pipe + u.snd_credit <= t.ssthresh
                &&& u.snd_credit <= max(u.prr_delivered - t.prr_out, delivered as int) + MSS
                &&& u.snd_credit == t.ssthresh - pipe || u.snd_credit == max(
                    u.prr_delivered - t.prr_out,
                    delivered as int,
                ) + MSS
            }
        }),
{
    let u = after_delivery(t, delivered, pipe);
    let fs = t.recover_fs as int;
    let owed = u.prr_delivered * t.ssthresh;
    let q = div_up(owed, fs);
    assert(owed >= 0) by (nonlinear_arith)
        requires
            owed == u.prr_delivered * t.ssthresh,
            u.prr_delivered >= 0,
            t.ssthresh >= 0,
    ;
    assert((q - 1) * fs < owed <= q * fs && q >= 0) by (nonlinear_arith)
        requires
            q == (owed + fs - 1) / fs,
            fs >= 1,
            owed >= 0,
    ;
    assert(q <= 0x7FFF_FFFF) by (nonlinear_arith)
        requires
            (q - 1) * fs < owed,
            owed <= 0x7FFF_FFFF * fs,
            fs >= 1,
    ;
    if pipe > t.ssthresh {
        let c = u.snd_credit as int;
        assert(c == max(q - t.prr_out, 0));
        assert((t.prr_out + c) * fs >= q * fs) by (nonlinear_arith)
            requires
                t.prr_out + c >= q,
                fs >= 1,
        ;
    }
}

/// Duplicate acknowledgements are counted until new data is acknowledged.
pub proof fn law_duplicates_are_counted(t: Tahoe, acked: u32)
    requires
        t.dup_acks < 255,
    ensures
        after_dup_ack(t) == (Tahoe { dup_acks: (t.dup_acks + 1) as u8, ..t }),
        after_ack(t, acked).dup_acks == 0,
{
}

} // verus!
