//! Deciding what to send: retransmissions, probes, new data and the FIN.

use crate::loop_budget_exhausted;
use crate::num::min_u32;
use crate::rack::detect_lost;
use crate::send_queue::SendEntry;
use crate::seq::{seq_ge, seq_gt, seq_le, seq_lt};
use crate::state::State;
use crate::tcb::model::{
    arm_persist, begin_recovery, buffered, can_retransmit, charged, emit_again, emit_fin, emit_new,
    fin_due, fin_placed, fire_tlp, flight, lemma_payload_fits, lost_queued, lost_taken,
    lost_target, nxt_moved, payload_mss, rack_scan, recovering, recovery_left, recovery_target,
    reo_updated, retransmit, ring_bytes, rto_kept, rxt_noted, send_data, send_fresh, send_lost, send_one,
    send_recovery, send_some, sendable, tlp_disarmed, tlp_spent, tlp_target, tx_full, unsent,
};
use crate::tcb::{RttProbe, Tcb};
use crate::tx_ring::TX_RING_CAP;
use crate::wire::flags;
use vstd::prelude::*;
use vstd::slice::slice_subrange;

verus! {

/// Most bytes of payload in one segment.
pub const SEGMENT_CAP: usize = 1460;

impl<const BUF: usize> Tcb<BUF> {
    /// Copies buffered bytes from offset `off` on, `n` of them at least.
    pub(crate) fn peek_send(&self, off: usize, n: usize) -> (b: [u8; SEGMENT_CAP])
        requires
            self.wf(),
            off + n <= self.send_ring@.len(),
            n <= SEGMENT_CAP,
        ensures
            b@.take(n as int) == ring_bytes(self@, off as int, n as int),
    {
        let mut b: [u8; SEGMENT_CAP] = [0u8; SEGMENT_CAP];
        let copied: usize = self.send_ring.peek_at(off, &mut b);
        assert(b@.take(n as int) =~= ring_bytes(self@, off as int, n as int));
        b
    }

    /// Moves the next byte to send on by `n`.
    pub(crate) fn move_nxt(&mut self, n: u32)
        requires
            old(self).wf(),
        ensures
            final(self).wf(),
            final(self)@ == nxt_moved(old(self)@, n),
    {
        proof {
            reveal(nxt_moved);
        }
        self.snd_nxt = self.snd_nxt.wrapping_add(n);
        self.bump_snd_max();
    }

    /// Charges the congestion window for `n` bytes from `seq` on and records them.
    fn charge(&mut self, seq: u32, n: u32, again: bool)
        requires
            old(self).wf(),
        ensures
            final(self).wf(),
            final(self)@ == charged(old(self)@, seq, n, again),
    {
        proof {
            reveal(charged);
        }
        self.cc.on_send(n);
        self.send_queue.push(seq, n, self.now_ms, again);
    }

    /// Notes that recovery has retransmitted `n` bytes from `seq` on.
    fn note_rxt(&mut self, seq: u32, n: u32)
        requires
            old(self).wf(),
        ensures
            final(self).wf(),
            final(self)@ == rxt_noted(old(self)@, seq, n),
    {
        proof {
            reveal(rxt_noted);
        }
        self.rxt_unacked = self.rxt_unacked.saturating_add(n);
        if seq_ge(seq, self.rxt_seq) {
            self.rxt_seq = seq.wrapping_add(n);
        }
    }

    /// Retransmits the `n` buffered bytes from `seq` on; there is room for the
    /// segment.
    fn emit_again(&mut self, seq: u32, n: u32)
        requires
            old(self).wf(),
            !tx_full(old(self)@),
            0 < n <= payload_mss(old(self)@),
            seq.wrapping_sub(old(self).snd_una) + n <= old(self).send_ring@.len(),
        ensures
            final(self).wf(),
            final(self)@ == emit_again(old(self)@, seq, n),
    {
        proof {
            reveal(emit_again);
            lemma_payload_fits(self@);
        }
        let off: usize = seq.wrapping_sub(self.snd_una) as usize;
        proof {
            reveal(payload_mss);
        }
        let data = self.peek_send(off, n as usize);
        let part: &[u8] = slice_subrange(&data, 0, n as usize);
        assert(part@ =~= data@.take(n as int));
        assert(off as int == seq.wrapping_sub(self@.snd_una) as int);
        let opts = self.data_options();
        let ack: u32 = self.rcv_nxt;
        self.emit_segment(flags::ACK | flags::PSH, seq, ack, &opts, part);
        self.charge(seq, n, true);
        self.note_rxt(seq, n);
        self.note_ack_sent();
        let top: u32 = self.snd_max;
        self.arm_rto_if_idle(top);
        self.arm_tlp();
    }

    /// Retransmits up to `bytes` buffered bytes from `seq` on, and says whether a
    /// segment was staged.
    pub(crate) fn emit_data_at(&mut self, seq: u32, bytes: u32) -> (queued: bool)
        requires
            old(self).wf(),
            bytes <= payload_mss(old(self)@),
        ensures
            final(self).wf(),
            final(self)@ == retransmit(old(self)@, seq, bytes as int),
            queued == can_retransmit(old(self)@, seq, bytes as int),
    {
        proof {
            reveal(retransmit);
        }
        let offset: u32 = seq.wrapping_sub(self.snd_una);
        let len: u32 = self.send_ring.len() as u32;
        let n: u32 = min_u32(bytes, len.saturating_sub(offset));
        assert(n == buffered(self@, seq, bytes as int));
        assert(n == buffered(self@, seq, bytes as int) as u32);
        if n == 0 || self.tx_ring.is_full() {
            return false;
        }
        self.emit_again(seq, n);
        true
    }

    /// A measurement under way no longer counts.
    pub(crate) fn spoil_probe(&mut self)
        ensures
            *final(self) == (Tcb {
                rtt_probe: crate::tcb::model::spoil_probe(old(self).rtt_probe),
                ..*old(self)
            }),
    {
        if let Some(p) = self.rtt_probe {
            self.rtt_probe = Some(RttProbe { seq: p.seq, sent_at: p.sent_at, valid: false });
        }
    }

    /// Sets recovery from the loss of some of `size` bytes in flight to start at the
    /// oldest unacknowledged byte.
    pub(crate) fn set_recovering(&mut self, size: u32)
        requires
            old(self).wf(),
        ensures
            final(self).wf(),
            final(self)@ == recovering(old(self)@, size),
    {
        proof {
            reveal(recovering);
        }
        self.cc.enter_recovery(size, self.snd_max);
        self.rxt_seq = self.snd_una;
        self.rxt_unacked = 0;
        self.spoil_probe();
    }

    /// Starts fast recovery.
    pub(crate) fn begin_recovery(&mut self)
        requires
            old(self).wf(),
        ensures
            final(self).wf(),
            final(self)@ == begin_recovery(old(self)@),
    {
        proof {
            reveal(begin_recovery);
        }
        let una: u32 = self.snd_una;
        self.set_recovering(self.snd_max.wrapping_sub(una));
        self.arm_rto_for(una);
    }

    /// Lets the reordering window follow the round-trip estimate.
    fn update_reo(&mut self)
        requires
            old(self).wf(),
        ensures
            final(self).wf(),
            final(self)@ == reo_updated(old(self)@),
    {
        proof {
            reveal(reo_updated);
        }
        if self.srtt_ms > 0 {
            self.rack.set_reo_wnd_from_srtt(self.srtt_ms);
        }
    }

    /// Queues what is outstanding of the losses `found`, and sets the reordering timer.
    fn queue_lost(&mut self, found: &[(u32, u32)], next: Option<u64>)
        requires
            old(self).wf(),
        ensures
            final(self).wf(),
            final(self)@ == lost_queued(old(self)@, found@, next),
    {
        proof {
            reveal(lost_queued);
        }
        self.rack_lost_queue.insert_all(found, &self.sack_scoreboard, self.snd_una, self.snd_max);
        self.rack_deadline = next;
    }

    /// Judges what is in flight by time.
    pub(crate) fn run_rack_scan(&mut self)
        requires
            old(self).wf(),
        ensures
            final(self).wf(),
            final(self)@ == rack_scan(old(self)@),
    {
        proof {
            reveal(rack_scan);
        }
        self.update_reo();
        let scan = detect_lost(&self.rack, &self.send_queue, self.now_ms);
        if !scan.lost.is_empty() && !self.cc.in_recovery() && seq_gt(self.snd_max, self.snd_una) {
            self.begin_recovery();
        }
        self.queue_lost(scan.lost.as_slice(), scan.next_deadline);
    }

    /// Disarms the tail loss probe.
    fn disarm_tlp(&mut self)
        requires
            old(self).wf(),
        ensures
            final(self).wf(),
            final(self)@ == tlp_disarmed(old(self)@),
    {
        proof {
            reveal(tlp_disarmed);
        }
        self.tlp_deadline = None;
    }

    /// Notes that the tail loss probe has been sent.
    fn spend_tlp(&mut self)
        requires
            old(self).wf(),
        ensures
            final(self).wf(),
            final(self)@ == tlp_spent(old(self)@),
    {
        proof {
            reveal(tlp_spent);
        }
        self.tlp_fired = true;
    }

    /// What the tail loss probe sends of the record `entry`.
    fn tlp_target(&self, entry: SendEntry) -> (r: (u32, u32))
        requires
            self.wf(),
        ensures
            (r.0, r.1 as int) == tlp_target(self@, entry),
            r.1 <= payload_mss(self@),
    {
        proof {
            reveal(tlp_target);
        }
        let start: u32 = if seq_lt(entry.seq_start, self.snd_una) {
            self.snd_una
        } else {
            entry.seq_start
        };
        let mss: u32 = self.effective_payload_mss();
        if seq_le(entry.seq_end, start) {
            return (start, 0);
        }
        (start, min_u32(entry.seq_end.wrapping_sub(start), mss))
    }

    /// Sends the tail loss probe.
    pub(crate) fn fire_tlp_probe(&mut self)
        requires
            old(self).wf(),
        ensures
            final(self).wf(),
            final(self)@ == fire_tlp(old(self)@),
    {
        proof {
            reveal(fire_tlp);
        }
        self.disarm_tlp();
        if self.tx_ring.is_full() {
            return;
        }
        let entry = match self.send_queue.highest_unsacked(&self.sack_scoreboard) {
            Some(e) => e,
            None => {
                self.spend_tlp();
                return;
            },
        };
        let (start, bytes): (u32, u32) = self.tlp_target(entry);
        if bytes == 0 {
            self.spend_tlp();
            return;
        }
        if self.emit_data_at(start, bytes) {
            self.spend_tlp();
        } else {
            proof {
                reveal(retransmit);
            }
        }
    }

    /// Gives our FIN the next sequence number, if it has none yet.
    fn place_fin(&mut self)
        requires
            old(self).wf(),
        ensures
            final(self).wf(),
            final(self)@ == fin_placed(old(self)@),
    {
        proof {
            reveal(fin_placed);
        }
        if !self.fin_sent {
            self.fin_seq = self.snd_nxt;
            self.cc.on_send(1);
            self.fin_sent = true;
        }
    }

    /// Sends the FIN if one is owed, and says whether it was staged.
    pub(crate) fn try_emit_fin(&mut self) -> (queued: bool)
        requires
            old(self).wf(),
        ensures
            final(self).wf(),
            final(self)@ == emit_fin(old(self)@),
            queued == (fin_due(old(self)@) && !tx_full(old(self)@)),
    {
        proof {
            reveal(emit_fin);
        }
        let fin_at: u32 = if self.fin_sent {
            self.fin_seq
        } else {
            self.snd_nxt
        };
        let need_fin: bool = matches!(
            self.state,
            State::FinWait1 | State::Closing | State::LastAck
        ) && self.send_ring.is_empty() && self.snd_nxt == fin_at;
        assert(need_fin == fin_due(self@));
        if !need_fin || self.tx_ring.is_full() {
            return false;
        }
        let opts = self.data_options();
        let seq: u32 = self.snd_nxt;
        let ack: u32 = self.rcv_nxt;
        let none: [u8; 0] = [];
        assert(none@ =~= Seq::<u8>::empty());
        self.emit_segment(flags::FIN | flags::ACK, seq, ack, &opts, none.as_slice());
        self.place_fin();
        self.move_nxt(1);
        self.note_ack_sent();
        let probe: u32 = self.snd_nxt;
        self.arm_rto_if_idle(probe);
        true
    }

    /// Sends `n` bytes of new data; there is room for the segment.
    fn emit_new_data(&mut self, n: u32)
        requires
            old(self).wf(),
            !tx_full(old(self)@),
            0 < n <= payload_mss(old(self)@),
            n <= unsent(old(self)@),
        ensures
            final(self).wf(),
            final(self)@ == emit_new(old(self)@, n),
    {
        proof {
            reveal(emit_new);
            lemma_payload_fits(self@);
        }
        let seq: u32 = self.snd_nxt;
        let off: usize = self.snd_nxt.wrapping_sub(self.snd_una) as usize;
        proof {
            reveal(payload_mss);
        }
        let data = self.peek_send(off, n as usize);
        let part: &[u8] = slice_subrange(&data, 0, n as usize);
        assert(part@ =~= data@.take(n as int));
        assert(off as int == flight(self@) as int);
        let opts = self.data_options();
        let ack: u32 = self.rcv_nxt;
        self.emit_segment(flags::ACK | flags::PSH, seq, ack, &opts, part);
        self.move_nxt(n);
        self.charge(seq, n, false);
        self.note_ack_sent();
        let probe: u32 = self.snd_nxt;
        self.arm_rto_if_idle(probe);
        self.arm_tlp();
    }

    /// Buffered bytes that have not been sent.
    pub(crate) fn unsent_bytes(&self) -> (n: u32)
        requires
            self.wf(),
        ensures
            n == unsent(self@),
    {
        let len: u32 = self.send_ring.len() as u32;
        len.saturating_sub(self.snd_nxt.wrapping_sub(self.snd_una))
    }

    /// Keeps the retransmission timer running for what is outstanding, together with
    /// the persist timer.
    fn keep_rto(&mut self)
        requires
            old(self).wf(),
        ensures
            final(self).wf(),
            final(self)@ == rto_kept(old(self)@),
    {
        proof {
            reveal(rto_kept);
        }
        if self.rto_deadline.is_none() && seq_gt(self.snd_max, self.snd_una) {
            self.rto_deadline = match self.persist_deadline {
                Some(d) => Some(d),
                None => Some(self.now_ms.wrapping_add(self.rto_ms as u64)),
            };
        }
    }

    /// Arms the persist timer for unsent data under a closed window, and the
    /// retransmission timer for what is outstanding.
    fn arm_persist(&mut self)
        requires
            old(self).wf(),
        ensures
            final(self).wf(),
            final(self)@ == arm_persist(old(self)@),
    {
        proof {
            reveal(arm_persist);
        }
        if self.unsent_bytes() > 0 && self.persist_deadline.is_none() {
            self.persist_backoff_ms = self.rto_ms;
            self.persist_deadline = Some(self.now_ms.wrapping_add(self.rto_ms as u64));
        }
        self.keep_rto();
    }

    /// How many bytes of new data may go out now.
    fn sendable_bytes(&self) -> (n: u32)
        requires
            self.wf(),
        ensures
            n == sendable(self@),
            n <= payload_mss(self@),
            n <= unsent(self@),
    {
        proof {
            reveal(sendable);
        }
        let flight: u32 = self.snd_nxt.wrapping_sub(self.snd_una);
        let allowed: u32 = self.cc.allowed(self.snd_wnd);
        let unsent: u32 = self.unsent_bytes();
        let mss: u32 = self.effective_payload_mss();
        if flight >= allowed {
            return 0;
        }
        let window: u32 = min_u32(allowed - flight, self.cc.snd_credit());
        min_u32(window, min_u32(unsent, mss))
    }

    /// Sends the FIN, or new data as far as the windows allow.
    fn send_fresh(&mut self) -> (more: bool)
        requires
            old(self).wf(),
        ensures
            final(self).wf(),
            (final(self)@, more) == send_fresh(old(self)@),
    {
        proof {
            reveal(send_fresh);
            reveal(emit_fin);
        }
        if self.try_emit_fin() {
            return true;
        }
        if self.snd_wnd == 0 {
            self.arm_persist();
            return false;
        }
        let n: u32 = self.sendable_bytes();
        assert(n == sendable(self@) as u32);
        if n == 0 || self.tx_ring.is_full() {
            return false;
        }
        self.emit_new_data(n);
        true
    }

    /// What recovery retransmits next.
    fn recovery_target(&self) -> (r: Option<(u32, u32)>)
        requires
            self.wf(),
        ensures
            match r {
                Some(p) => recovery_target(self@) == Some((p.0, p.1 as int)) && p.1 <= payload_mss(
                    self@,
                ),
                None => recovery_target(self@) is None,
            },
    {
        proof {
            reveal(recovery_target);
        }
        let mss: u32 = self.effective_payload_mss();
        let limit: u32 = min_u32(self.cc.snd_credit(), mss);
        if self.rxt_unacked == 0 && self.rxt_seq == self.snd_una && seq_gt(
            self.snd_max,
            self.snd_una,
        ) {
            return Some((self.snd_una, min_u32(self.snd_max.wrapping_sub(self.snd_una), limit)));
        }
        if self.sack_enabled {
            if let Some((seq, len)) = self.sack_scoreboard.next_seg(
                self.rxt_seq,
                self.snd_max,
                mss,
            ) {
                return Some((seq, min_u32(len, limit)));
            }
        }
        None
    }

    /// Sends the next retransmission of recovery, or what follows it.
    fn send_recovery(&mut self) -> (more: bool)
        requires
            old(self).wf(),
        ensures
            final(self).wf(),
            (final(self)@, more) == send_recovery(old(self)@),
    {
        proof {
            reveal(send_recovery);
        }
        if self.cc.in_recovery() {
            if let Some((seq, bytes)) = self.recovery_target() {
                if bytes > 0 {
                    return self.emit_data_at(seq, bytes);
                }
            }
        }
        self.send_fresh()
    }

    /// The part of a queued range to retransmit.
    fn lost_target(&self, seq: u32, end: u32) -> (r: Option<(u32, u32)>)
        requires
            self.wf(),
        ensures
            match r {
                Some(p) => lost_target(self@, (seq, end)) == Some((p.0, p.1 as int)) && p.1
                    <= payload_mss(self@),
                None => lost_target(self@, (seq, end)) is None,
            },
    {
        proof {
            reveal(lost_target);
        }
        let lo: u32 = if seq_lt(seq, self.snd_una) {
            self.snd_una
        } else {
            seq
        };
        let hi: u32 = if seq_gt(end, self.snd_max) {
            self.snd_max
        } else {
            end
        };
        match self.sack_scoreboard.first_unsacked_subrange(lo, hi) {
            Some((a, b)) => {
                let mss: u32 = self.effective_payload_mss();
                Some((a, min_u32(b.wrapping_sub(a), min_u32(self.cc.snd_credit(), mss))))
            },
            None => None,
        }
    }

    /// Takes the first queued loss.
    fn take_lost(&mut self) -> (r: (u32, u32))
        requires
            old(self).wf(),
            old(self)@.lost.len() > 0,
        ensures
            final(self).wf(),
            final(self)@ == lost_taken(old(self)@),
            r == old(self)@.lost[0],
    {
        proof {
            reveal(lost_taken);
        }
        match self.rack_lost_queue.take_lowest() {
            Some(r) => r,
            None => (0, 0),
        }
    }

    /// Retransmits the first queued loss, or what follows it.
    fn send_lost(&mut self) -> (more: bool)
        requires
            old(self).wf(),
        ensures
            final(self).wf(),
            (final(self)@, more) == send_lost(old(self)@),
    {
        proof {
            reveal(send_lost);
        }
        if !self.rack_lost_queue.is_empty() && self.cc.in_recovery() {
            let (seq, end): (u32, u32) = self.take_lost();
            if let Some((a, bytes)) = self.lost_target(seq, end) {
                if bytes > 0 {
                    return self.emit_data_at(a, bytes);
                }
            }
        }
        self.send_recovery()
    }

    /// Leaves recovery.
    fn leave_recovery(&mut self)
        requires
            old(self).wf(),
        ensures
            final(self).wf(),
            final(self)@ == recovery_left(old(self)@),
    {
        proof {
            reveal(recovery_left);
        }
        self.cc.force_exit_recovery();
        self.rxt_unacked = 0;
    }

    /// Sends at most one segment and says whether to go on.
    pub(crate) fn maybe_send_one(&mut self) -> (more: bool)
        requires
            old(self).wf(),
        ensures
            final(self).wf(),
            (final(self)@, more) == send_one(old(self)@),
    {
        proof {
            reveal(send_one);
        }
        if self.cc.in_recovery() && self.snd_nxt == self.snd_una && self.cc.snd_credit() == 0 {
            self.leave_recovery();
        }
        self.send_lost()
    }

    /// Sends as many segments as fit.
    pub(crate) fn maybe_send_data(&mut self)
        requires
            old(self).wf(),
        ensures
            final(self).wf(),
            final(self)@ == send_data(old(self)@),
    {
        proof {
            reveal(send_data);
        }
        if !matches!(
            self.state,
            State::Established
                | State::CloseWait
                | State::FinWait1
                | State::Closing
                | State::LastAck
        ) {
            return;
        }
        let cap: u32 = TX_RING_CAP as u32 + 2;
        let mut emit_guard: u32 = 0;
        loop
            invariant_except_break
                self.wf(),
                emit_guard <= cap,
                send_some(self@, (cap - emit_guard) as nat) == send_some(old(self)@, cap as nat),
            invariant
                cap == TX_RING_CAP + 2,
            ensures
                self.wf(),
                self@ == send_some(old(self)@, cap as nat),
            decreases cap - emit_guard,
        {
            proof {
                reveal_with_fuel(send_some, 2);
            }
            if self.tx_ring.is_full() {
                break;
            }
            if loop_budget_exhausted(&mut emit_guard, cap, "maybe_send_data") {
                break;
            }
            if !self.maybe_send_one() {
                break;
            }
        }
    }
}

} // verus!
