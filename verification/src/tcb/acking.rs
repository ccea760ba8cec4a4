//! Processing the peer's acknowledgements.

use crate::num::min_u32;
use crate::scoreboard::SackScoreboard;
use crate::send_queue::SendQueue;
use crate::seq::{seq_gt, seq_le};
use crate::state::State;
use crate::tcb::model::{
    ack_advance, ack_advanced, ack_fin, ack_prune, ack_recovery, ack_repeated, ack_sample,
    ack_timing, count_repeat, data_acked, delivery_credited, delivery_noted, has_work, is_repeat,
    note_echo, note_sacks, nxt_caught_up, patience_restored, pipe, records_pruned, recovery_ended,
    repeat_counted, rxt_caught_up, sack_sum, sack_total, sacks_noted, scaled, take_ack,
    take_window, tlp_reset, una_moved, user_timer_restarted, SackSum,
};
use crate::tcb::{Tcb, TIME_WAIT_MS};
use crate::wire::{flags, SackBlocks, Segment};
use vstd::prelude::*;

verus! {

/// What the SACK blocks of an acknowledgement showed.
pub(crate) struct Sacked {
    /// Bytes that are newly acknowledged.
    pub newly: u32,
    /// Send time and end of the latest transmission that they show delivered.
    pub ts: u64,
    pub end: u32,
}

/// Adds the SACK blocks to the scoreboard and sums them up.
fn absorb_blocks(
    board: &mut SackScoreboard,
    sent: &SendQueue,
    una: u32,
    top: u32,
    blocks: &[(u32, u32)],
) -> (r: Sacked)
    requires
        sent.wf(),
    ensures
        sack_sum(old(board)@, sent@, una, top, blocks@, blocks@.len() as int) == (SackSum {
            board: final(board)@,
            newly: r.newly,
            ts: r.ts,
            end: r.end,
        }),
{
    let mut newly: u32 = 0;
    let mut ts: u64 = 0;
    let mut end: u32 = 0;
    let mut i: usize = 0;
    while i < blocks.len()
        invariant
            sent.wf(),
            i <= blocks@.len(),
            sack_sum(old(board)@, sent@, una, top, blocks@, i as int) == (SackSum {
                board: board@,
                newly,
                ts,
                end,
            }),
        decreases blocks@.len() - i,
    {
        let (l, r): (u32, u32) = blocks[i];
        let new_bytes: u32 = board.bytes_newly_covered(l, r, una, top);
        if new_bytes > 0 {
            newly = newly.saturating_add(new_bytes);
            if let Some(entry) = sent.find_latest_covering(r.wrapping_sub(1)) {
                if entry.send_ts_ms > ts || (entry.send_ts_ms == ts && seq_gt(
                    entry.seq_end,
                    end,
                )) {
                    ts = entry.send_ts_ms;
                    end = entry.seq_end;
                }
            }
        }
        board.add_range(l, r, una, top);
        i = i + 1;
    }
    Sacked { newly, ts, end }
}

impl<const BUF: usize> Tcb<BUF> {
    /// The peer's window field, scaled.
    pub(crate) fn scale_peer_window(&self, w: u16) -> (n: u32)
        requires
            self.wf(),
        ensures
            n == scaled(self@, w),
    {
        (w as u32) << self.snd_wscale
    }

    /// Takes the peer's window; an open one ends the persist timer.
    #[verifier::rlimit(30)]
    pub(crate) fn update_send_window(&mut self, window: u16)
        requires
            old(self).wf(),
        ensures
            final(self).wf(),
            final(self)@ == take_window(old(self)@, window),
    {
        proof {
            reveal(take_window);
        }
        self.snd_wnd = self.scale_peer_window(window);
        if self.snd_wnd > 0 {
            self.persist_deadline = None;
            self.persist_backoff_ms = 0;
        }
    }

    /// Notes that the peer has answered.
    fn restore_patience(&mut self)
        requires
            old(self).wf(),
        ensures
            final(self).wf(),
            final(self)@ == patience_restored(old(self)@),
    {
        proof {
            reveal(patience_restored);
        }
        self.rtx_count = 0;
    }

    /// Reacts to a congestion echo.
    fn note_echo(&mut self, seg: &Segment<'_>)
        requires
            old(self).wf(),
        ensures
            final(self).wf(),
            final(self)@ == note_echo(old(self)@, seg@),
    {
        proof {
            reveal(note_echo);
        }
        if self.ecn_enabled && seg.has(flags::ECE) && !self.cc.in_recovery() && seq_gt(
            self.snd_nxt,
            self.snd_una,
        ) {
            self.set_recovering(self.snd_nxt.wrapping_sub(self.snd_una));
            self.send_cwr_pending = true;
        }
    }

    /// Adds the SACK blocks to the scoreboard, notes the delivery that they show,
    /// and counts the newly acknowledged bytes.
    #[verifier::rlimit(30)]
    fn absorb_sacks(&mut self, sack: &SackBlocks) -> (newly: u32)
        requires
            old(self).wf(),
            sack.wf(),
        ensures
            final(self).wf(),
            ({
                let a = sack_sum(
                    old(self)@.board,
                    old(self)@.sent,
                    old(self)@.snd_una,
                    old(self)@.snd_max,
                    sack@,
                    sack@.len() as int,
                );
                final(self)@ == sacks_noted(old(self)@, a) && newly == a.newly
            }),
    {
        proof {
            reveal(sacks_noted);
        }
        let una: u32 = self.snd_una;
        let top: u32 = self.snd_max;
        let r = absorb_blocks(
            &mut self.sack_scoreboard,
            &self.send_queue,
            una,
            top,
            sack.as_slice(),
        );
        if r.ts > 0 {
            self.rack.update_on_delivery(r.ts, r.end, self.now_ms);
        }
        r.newly
    }

    /// Notes the SACK blocks of a segment, and counts the newly acknowledged bytes.
    fn note_sacks(&mut self, seg: &Segment<'_>) -> (newly: u32)
        requires
            old(self).wf(),
            seg.options.sack.wf(),
        ensures
            final(self).wf(),
            (final(self)@, newly) == note_sacks(old(self)@, seg@),
    {
        proof {
            reveal(note_sacks);
            reveal(sack_total);
        }
        if self.sack_enabled {
            self.absorb_sacks(&seg.options.sack)
        } else {
            0
        }
    }

    /// Counts a repeated acknowledgement and says whether it is the third.
    fn count_dup_ack(&mut self) -> (loss: bool)
        requires
            old(self).wf(),
        ensures
            final(self).wf(),
            final(self)@ == repeat_counted(old(self)@),
            loss == (final(self)@.cc.dup_acks >= 3),
    {
        proof {
            reveal(repeat_counted);
        }
        self.cc.on_dup_ack()
    }

    /// Counts a repeated acknowledgement, and starts recovery where it shows a loss.
    fn count_repeat(&mut self, seg: &Segment<'_>)
        requires
            old(self).wf(),
            seg.options.sack.wf(),
        ensures
            final(self).wf(),
            final(self)@ == count_repeat(old(self)@, seg@),
    {
        proof {
            reveal(count_repeat);
        }
        let repeat: bool = seg.ack == self.snd_una && seq_gt(self.snd_max, self.snd_una)
            && self.scale_peer_window(seg.window) == self.snd_wnd && !self.cc.in_recovery();
        assert(repeat == is_repeat(self@, seg@));
        if !repeat {
            return;
        }
        let trigger: bool = if self.sack_enabled && !seg.options.sack.is_empty() {
            true
        } else if seg.payload.len() == 0 && !seg.has(flags::FIN) {
            self.count_dup_ack()
        } else {
            false
        };
        if trigger {
            self.begin_recovery();
        }
    }

    /// Bytes believed to be in flight in recovery.
    fn pipe(&self) -> (n: u32)
        ensures
            n == pipe(self@),
    {
        proof {
            reveal(pipe);
        }
        let outstanding: u32 = self.snd_max.wrapping_sub(self.snd_una);
        let sacked: u32 = self.sack_scoreboard.sacked_bytes();
        outstanding.saturating_sub(sacked).saturating_add(self.rxt_unacked)
    }

    /// Credits recovery for `n` bytes delivered.
    fn credit_delivery(&mut self, n: u32)
        requires
            old(self).wf(),
        ensures
            final(self).wf(),
            final(self)@ == delivery_credited(old(self)@, n),
    {
        proof {
            reveal(delivery_credited);
        }
        let pipe: u32 = self.pipe();
        self.cc.on_ack_in_recovery(n, pipe);
    }

    /// Processes an acknowledgement that does not advance.
    fn ack_repeated(&mut self, seg: &Segment<'_>, newly: u32)
        requires
            old(self).wf(),
            seg.options.sack.wf(),
        ensures
            final(self).wf(),
            final(self)@ == ack_repeated(old(self)@, seg@, newly),
    {
        proof {
            reveal(ack_repeated);
        }
        self.count_repeat(seg);
        if newly > 0 {
            self.credit_delivery(newly);
        }
        self.run_rack_scan();
        self.update_send_window(seg.window);
    }

    /// How many buffered bytes an acknowledgement up to `ack` covers.
    fn data_acked(&self, ack: u32) -> (n: u32)
        ensures
            n == data_acked(self@, ack),
    {
        proof {
            reveal(data_acked);
        }
        let acked: u32 = ack.wrapping_sub(self.snd_una);
        if self.fin_sent && seq_le(self.snd_una, self.fin_seq) && seq_gt(ack, self.fin_seq)
            && acked > 0 {
            acked - 1
        } else {
            acked
        }
    }

    /// Makes `ack` the oldest unacknowledged byte.
    fn move_una(&mut self, ack: u32)
        requires
            old(self).wf(),
        ensures
            final(self).wf(),
            final(self)@ == una_moved(old(self)@, ack),
    {
        proof {
            reveal(una_moved);
        }
        let acked: u32 = ack.wrapping_sub(self.snd_una);
        let data: u32 = self.data_acked(ack);
        self.cc.on_ack(acked);
        self.send_ring.consume(data as usize);
        self.snd_una = ack;
    }

    /// Starts the user timeout over, or stops it if there is no work left.
    fn restart_user_timer(&mut self)
        requires
            old(self).wf(),
        ensures
            final(self).wf(),
            final(self)@ == user_timer_restarted(old(self)@),
    {
        proof {
            reveal(user_timer_restarted);
        }
        if self.user_timeout_ms != 0 {
            self.user_timeout_deadline =
            if self.has_work() {
                Some(self.now_ms.wrapping_add(self.user_timeout_ms as u64))
            } else {
                None
            };
        }
    }

    /// Something waits for the peer's acknowledgement or for being sent.
    pub(crate) fn has_work(&self) -> (b: bool)
        ensures
            b == has_work(self@),
    {
        self.snd_una != self.snd_max || !self.send_ring.is_empty()
    }

    /// Pulls the next byte to send up to the oldest unacknowledged one.
    fn catch_nxt_up(&mut self)
        requires
            old(self).wf(),
        ensures
            final(self).wf(),
            final(self)@ == nxt_caught_up(old(self)@),
    {
        proof {
            reveal(nxt_caught_up);
        }
        if seq_gt(self.snd_una, self.snd_nxt) {
            self.snd_nxt = self.snd_una;
        }
    }

    /// Moves the oldest unacknowledged byte to `ack`.
    fn ack_advance(&mut self, ack: u32)
        requires
            old(self).wf(),
        ensures
            final(self).wf(),
            final(self)@ == ack_advance(old(self)@, ack),
    {
        proof {
            reveal(ack_advance);
        }
        self.move_una(ack);
        self.restart_user_timer();
        self.catch_nxt_up();
    }

    /// Drops what is acknowledged from the scoreboard, and notes its delivery.
    #[verifier::rlimit(30)]
    fn note_delivery(&mut self)
        requires
            old(self).wf(),
        ensures
            final(self).wf(),
            final(self)@ == delivery_noted(old(self)@),
    {
        proof {
            reveal(delivery_noted);
        }
        self.sack_scoreboard.prune_below(self.snd_una);
        if let Some(entry) = self.send_queue.find_latest_covering(self.snd_una.wrapping_sub(1)) {
            self.rack.update_on_delivery(entry.send_ts_ms, entry.seq_end, self.now_ms);
        }
    }

    /// Drops what is acknowledged from the transmission records and the queued
    /// losses.
    fn prune_records(&mut self)
        requires
            old(self).wf(),
        ensures
            final(self).wf(),
            final(self)@ == records_pruned(old(self)@),
    {
        proof {
            reveal(records_pruned);
        }
        self.send_queue.prune(self.snd_una, &self.sack_scoreboard);
        self.rack_lost_queue.drop_acked(self.snd_una);
    }

    /// Drops what is acknowledged, noting its delivery.
    fn ack_prune(&mut self)
        requires
            old(self).wf(),
        ensures
            final(self).wf(),
            final(self)@ == ack_prune(old(self)@),
    {
        proof {
            reveal(ack_prune);
        }
        self.note_delivery();
        self.prune_records();
    }

    /// Moves the retransmission cursor for `acked` newly acknowledged bytes.
    fn catch_rxt_up(&mut self, acked: u32)
        requires
            old(self).wf(),
        ensures
            final(self).wf(),
            final(self)@ == rxt_caught_up(old(self)@, acked),
    {
        proof {
            reveal(rxt_caught_up);
        }
        let drain: u32 = min_u32(acked, self.rxt_unacked);
        self.rxt_unacked = self.rxt_unacked.saturating_sub(drain);
        if seq_gt(self.snd_una, self.rxt_seq) {
            self.rxt_seq = self.snd_una;
        }
    }

    /// Ends recovery when its point is reached.
    #[verifier::rlimit(30)]
    fn end_recovery(&mut self)
        requires
            old(self).wf(),
        ensures
            final(self).wf(),
            final(self)@ == recovery_ended(old(self)@),
    {
        proof {
            reveal(recovery_ended);
        }
        if self.cc.check_exit_recovery(self.snd_una) {
            self.sack_scoreboard.clear();
            self.rxt_unacked = 0;
            self.rack_lost_queue.clear();
        }
    }

    /// Updates recovery for `acked` newly acknowledged bytes.
    fn ack_recovery(&mut self, acked: u32)
        requires
            old(self).wf(),
        ensures
            final(self).wf(),
            final(self)@ == ack_recovery(old(self)@, acked),
    {
        proof {
            reveal(ack_recovery);
        }
        self.catch_rxt_up(acked);
        self.credit_delivery(acked);
        self.end_recovery();
    }

    /// Starts the tail loss probe over.
    fn reset_tlp(&mut self, acked: u32)
        requires
            old(self).wf(),
        ensures
            final(self).wf(),
            final(self)@ == tlp_reset(old(self)@, acked),
    {
        proof {
            reveal(tlp_reset);
        }
        if acked > 0 {
            self.tlp_fired = false;
        }
        self.tlp_deadline = None;
    }

    /// Takes the round-trip sample of an acknowledgement.
    fn ack_sample(&mut self, seg: &Segment<'_>)
        requires
            old(self).wf(),
        ensures
            final(self).wf(),
            final(self)@ == ack_sample(old(self)@, seg@),
    {
        proof {
            reveal(ack_sample);
        }
        if self.ts_enabled {
            if let Some((_, tsecr)) = seg.options.ts {
                if tsecr != 0 {
                    self.update_rtt_from_ts_echo(tsecr);
                }
            }
        } else {
            self.process_ack_rtt(seg.ack);
        }
    }

    /// Takes the round-trip sample of an acknowledgement, and restarts or stops the
    /// retransmission timer.
    fn ack_timing(&mut self, seg: &Segment<'_>)
        requires
            old(self).wf(),
        ensures
            final(self).wf(),
            final(self)@ == ack_timing(old(self)@, seg@),
    {
        proof {
            reveal(ack_timing);
        }
        self.ack_sample(seg);
        if self.snd_una == self.snd_nxt {
            self.stop_rto();
        } else {
            let probe: u32 = self.snd_nxt;
            self.arm_rto_for(probe);
        }
    }

    /// Changes state when our FIN has been acknowledged.
    fn ack_fin(&mut self)
        requires
            old(self).wf(),
        ensures
            final(self).wf(),
            final(self)@ == ack_fin(old(self)@),
    {
        proof {
            reveal(ack_fin);
        }
        if self.fin_sent && self.snd_una == self.fin_seq.wrapping_add(1) {
            match self.state {
                State::FinWait1 => {
                    self.state = State::FinWait2;
                },
                State::Closing => {
                    self.time_wait_deadline = Some(self.now_ms.wrapping_add(TIME_WAIT_MS));
                    self.state = State::TimeWait;
                },
                State::LastAck => {
                    self.state = State::Closed;
                },
                _ => {},
            }
        }
    }

    /// Processes an acknowledgement that advances.
    fn ack_advanced(&mut self, seg: &Segment<'_>)
        requires
            old(self).wf(),
        ensures
            final(self).wf(),
            final(self)@ == ack_advanced(old(self)@, seg@),
    {
        proof {
            reveal(ack_advanced);
        }
        let acked: u32 = seg.ack.wrapping_sub(self.snd_una);
        self.ack_advance(seg.ack);
        self.ack_prune();
        self.ack_recovery(acked);
        self.run_rack_scan();
        self.reset_tlp(acked);
        self.ack_timing(seg);
        self.ack_fin();
        self.update_send_window(seg.window);
    }

    /// Processes the acknowledgement of a segment.
    pub(crate) fn process_ack(&mut self, seg: &Segment<'_>)
        requires
            old(self).wf(),
            seg.options.sack.wf(),
        ensures
            final(self).wf(),
            final(self)@ == take_ack(old(self)@, seg@),
    {
        proof {
            reveal(take_ack);
        }
        if seq_gt(seg.ack, self.snd_max) {
            self.send_pure_ack();
            return;
        }
        self.restore_patience();
        self.note_echo(seg);
        let newly: u32 = self.note_sacks(seg);
        if seq_le(seg.ack, self.snd_una) {
            self.ack_repeated(seg, newly);
        } else {
            self.ack_advanced(seg);
        }
    }
}

} // verus!
