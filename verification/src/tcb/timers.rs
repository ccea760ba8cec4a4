//! The timers of a connection.

use crate::error::TcpError;
use crate::num::{max_u32, min_u32, saturating_times};
use crate::state::State;
use crate::tcb::model::{
    collapse, count_timeout, due, emit_window_probe, flight, given_up, is_idle,
    keepalive_counted, persist_backed_off, rack_disarmed, resend_handshake, retry_counted,
    rto_gives_up, tick_ack, tick_keepalive, tick_persist, tick_rack, tick_rto, tick_time_wait,
    tick_timers, tick_tlp, tick_user_timeout, ticked, tx_full, unsent, user_timer_set,
};
use crate::tcb::{Tcb, MAX_RETRANSMITS, MAX_SYN_RCVD_RETRIES, RTO_MAX_MS, RTO_MIN_MS};
use crate::wire::flags;
use vstd::prelude::*;
use vstd::slice::slice_subrange;

verus! {

impl<const BUF: usize> Tcb<BUF> {
    /// The timer is armed and its time has come.
    fn is_due(&self, deadline: Option<u64>) -> (b: bool)
        ensures
            b == due(self@, deadline),
    {
        match deadline {
            Some(d) => self.now_ms >= d,
            None => false,
        }
    }

    /// Gives the connection up without telling the peer.
    fn abort_timed_out(&mut self)
        requires
            old(self).wf(),
        ensures
            final(self).wf(),
            final(self)@ == given_up(old(self)@),
    {
        proof {
            reveal(given_up);
        }
        self.state = State::Closed;
        self.error = Some(TcpError::ConnectionReset);
        self.send_ring.clear();
        self.recv_ring.clear();
        self.reasm.clear();
        self.snd_nxt = self.snd_una;
        self.snd_max = self.snd_una;
        self.fin_sent = false;
        self.rto_deadline = None;
        self.time_wait_deadline = None;
        self.persist_deadline = None;
        self.ack_deadline = None;
        self.rack_deadline = None;
        self.tlp_deadline = None;
        self.keepalive_deadline = None;
        self.keepalive_probes = 0;
        self.user_timeout_deadline = None;
    }

    /// The TIME_WAIT timer.
    fn check_time_wait(&mut self)
        requires
            old(self).wf(),
        ensures
            final(self).wf(),
            final(self)@ == tick_time_wait(old(self)@),
    {
        proof {
            reveal(tick_time_wait);
        }
        if self.is_due(self.time_wait_deadline) {
            self.state = State::Closed;
            self.time_wait_deadline = None;
        }
    }

    /// Counts a retransmission timeout.
    fn count_timeout(&mut self)
        requires
            old(self).wf(),
        ensures
            final(self).wf(),
            final(self)@ == count_timeout(old(self)@),
    {
        proof {
            reveal(count_timeout);
        }
        if self.state != State::SynRcvd {
            self.rtx_count = self.rtx_count.saturating_add(1);
        }
    }

    /// Prepares to send everything again from the oldest unacknowledged byte.
    fn collapse(&mut self)
        requires
            old(self).wf(),
        ensures
            final(self).wf(),
            final(self)@ == collapse(old(self)@),
    {
        proof {
            reveal(collapse);
        }
        let flight: u32 = self.snd_nxt.wrapping_sub(self.snd_una);
        self.cc.on_rto_loss(flight);
        self.snd_nxt = self.snd_una;
        self.sack_scoreboard.clear();
        self.rxt_seq = self.snd_una;
        self.rxt_unacked = 0;
        self.send_queue.clear();
        self.rack.reset();
        self.rack_deadline = None;
        self.rack_lost_queue.clear();
        self.tlp_deadline = None;
        self.tlp_fired = false;
        self.rto_ms = min_u32(saturating_times(self.rto_ms, 2), RTO_MAX_MS);
        self.spoil_probe();
        self.rto_deadline = None;
    }

    /// Counts a SYN-ACK that is sent again.
    fn count_retry(&mut self)
        requires
            old(self).wf(),
        ensures
            final(self).wf(),
            final(self)@ == retry_counted(old(self)@),
    {
        proof {
            reveal(retry_counted);
        }
        self.syn_rcvd_retries = self.syn_rcvd_retries.saturating_add(1);
    }

    /// Sends our SYN or SYN-ACK again.
    fn resend_handshake(&mut self)
        requires
            old(self).wf(),
        ensures
            final(self).wf(),
            final(self)@ == resend_handshake(old(self)@),
    {
        proof {
            reveal(resend_handshake);
        }
        if self.state == State::SynSent {
            self.send_syn();
        } else if self.state == State::SynRcvd {
            self.count_retry();
            if self.syn_rcvd_retries > MAX_SYN_RCVD_RETRIES {
                self.reset_to_listen_or_closed();
            } else if !self.tx_ring.is_full() {
                self.emit_synack_from_state();
                self.note_syn_in_flight();
            }
        }
    }

    /// The retransmission timer; says whether the connection was given up.
    fn check_rto(&mut self) -> (over: bool)
        requires
            old(self).wf(),
        ensures
            final(self).wf(),
            over == rto_gives_up(old(self)@),
            final(self)@ == (if over {
                given_up(count_timeout(old(self)@))
            } else {
                tick_rto(old(self)@)
            }),
    {
        proof {
            reveal(tick_rto);
        }
        if !self.is_due(self.rto_deadline) {
            return false;
        }
        self.count_timeout();
        if self.state != State::SynRcvd && self.rtx_count > MAX_RETRANSMITS {
            self.abort_timed_out();
            return true;
        }
        self.collapse();
        self.resend_handshake();
        false
    }

    /// Stops the reordering timer.
    fn disarm_rack(&mut self)
        requires
            old(self).wf(),
        ensures
            final(self).wf(),
            final(self)@ == rack_disarmed(old(self)@),
    {
        proof {
            reveal(rack_disarmed);
        }
        self.rack_deadline = None;
    }

    /// The reordering timer.
    fn check_rack(&mut self)
        requires
            old(self).wf(),
        ensures
            final(self).wf(),
            final(self)@ == tick_rack(old(self)@),
    {
        proof {
            reveal(tick_rack);
        }
        if self.is_due(self.rack_deadline) {
            self.disarm_rack();
            self.run_rack_scan();
        }
    }

    /// The tail loss probe timer.
    fn check_tlp(&mut self)
        requires
            old(self).wf(),
        ensures
            final(self).wf(),
            final(self)@ == tick_tlp(old(self)@),
    {
        proof {
            reveal(tick_tlp);
        }
        if self.is_due(self.tlp_deadline) {
            self.fire_tlp_probe();
        }
    }

    /// Probes a closed window with one byte of what waits; there is room for the
    /// segment.
    fn emit_window_probe(&mut self)
        requires
            old(self).wf(),
            !tx_full(old(self)@),
            unsent(old(self)@) > 0,
        ensures
            final(self).wf(),
            final(self)@ == emit_window_probe(old(self)@),
    {
        proof {
            reveal(emit_window_probe);
        }
        let off: usize = self.snd_nxt.wrapping_sub(self.snd_una) as usize;
        let data = self.peek_send(off, 1);
        let byte: &[u8] = slice_subrange(&data, 0, 1);
        assert(byte@ =~= data@.take(1));
        assert(off as int == flight(self@) as int);
        let opts = self.data_options();
        let seq: u32 = self.snd_nxt;
        let ack: u32 = self.rcv_nxt;
        self.emit_segment(flags::ACK | flags::PSH, seq, ack, &opts, byte);
        self.move_nxt(1);
        let probe: u32 = self.snd_nxt;
        self.arm_rto_if_idle(probe);
    }

    /// Lets the next probe of a closed window come after twice the time.
    fn back_persist_off(&mut self)
        requires
            old(self).wf(),
        ensures
            final(self).wf(),
            final(self)@ == persist_backed_off(old(self)@),
    {
        proof {
            reveal(persist_backed_off);
        }
        let next: u32 = saturating_times(self.persist_backoff_ms, 2);
        self.persist_backoff_ms = max_u32(min_u32(next, RTO_MAX_MS), RTO_MIN_MS);
        self.persist_deadline = Some(self.now_ms.wrapping_add(self.persist_backoff_ms as u64));
    }

    /// The persist timer.
    fn check_persist(&mut self)
        requires
            old(self).wf(),
        ensures
            final(self).wf(),
            final(self)@ == tick_persist(old(self)@),
    {
        proof {
            reveal(tick_persist);
        }
        if !self.is_due(self.persist_deadline) || self.tx_ring.is_full() {
            return;
        }
        if self.unsent_bytes() > 0 {
            self.emit_window_probe();
        }
        self.back_persist_off();
    }

    /// Counts a keepalive probe.
    fn count_keepalive(&mut self)
        requires
            old(self).wf(),
        ensures
            final(self).wf(),
            final(self)@ == keepalive_counted(old(self)@),
    {
        proof {
            reveal(keepalive_counted);
        }
        self.keepalive_probes = self.keepalive_probes.saturating_add(1);
        self.keepalive_deadline = Some(self.now_ms.wrapping_add(self.keepalive_intvl_ms as u64));
    }

    /// The keepalive timer.
    fn check_keepalive(&mut self)
        requires
            old(self).wf(),
        ensures
            final(self).wf(),
            final(self)@ == tick_keepalive(old(self)@),
    {
        proof {
            reveal(tick_keepalive);
        }
        let idle: bool = self.state == State::Established && !self.has_work();
        assert(idle == is_idle(self@));
        if self.keepalive_idle_ms == 0 || !idle || !self.is_due(self.keepalive_deadline) {
            return;
        }
        if self.keepalive_probes >= self.keepalive_count {
            self.abort_timed_out();
            return;
        }
        if self.tx_ring.is_full() {
            return;
        }
        let opts = self.data_options();
        let seq: u32 = self.snd_nxt.wrapping_sub(1);
        let ack: u32 = self.rcv_nxt;
        let none: [u8; 0] = [];
        assert(none@ =~= Seq::<u8>::empty());
        self.emit_segment(flags::ACK, seq, ack, &opts, none.as_slice());
        self.count_keepalive();
    }

    /// Sets the deadline of the user timeout.
    fn set_user_timer(&mut self, deadline: Option<u64>)
        requires
            old(self).wf(),
        ensures
            final(self).wf(),
            final(self)@ == user_timer_set(old(self)@, deadline),
    {
        proof {
            reveal(user_timer_set);
        }
        self.user_timeout_deadline = deadline;
    }

    /// The user timeout.
    fn check_user_timeout(&mut self)
        requires
            old(self).wf(),
        ensures
            final(self).wf(),
            final(self)@ == tick_user_timeout(old(self)@),
    {
        proof {
            reveal(tick_user_timeout);
        }
        if self.user_timeout_ms == 0 || !self.has_work() {
            self.set_user_timer(None);
        } else if self.user_timeout_deadline.is_none() {
            let deadline: u64 = self.now_ms.wrapping_add(self.user_timeout_ms as u64);
            self.set_user_timer(Some(deadline));
        } else if self.is_due(self.user_timeout_deadline) {
            self.abort_timed_out();
        }
    }

    /// The delayed acknowledgement.
    fn check_ack(&mut self)
        requires
            old(self).wf(),
        ensures
            final(self).wf(),
            final(self)@ == tick_ack(old(self)@),
    {
        proof {
            reveal(tick_ack);
        }
        if self.pending_ack && self.is_due(self.ack_deadline) {
            self.send_pure_ack();
        }
    }

    /// Drives the timers and sends what may be sent. To be called when the clock has
    /// moved, and after data was handed in.
    pub fn tick(&mut self) -> (r: Result<(), TcpError>)
        requires
            old(self).wf(),
        ensures
            final(self).wf(),
            final(self)@ == ticked(old(self)@),
            r == Ok::<(), TcpError>(()),
    {
        proof {
            reveal(tick_timers);
        }
        self.check_time_wait();
        if self.check_rto() {
            return Ok(());
        }
        self.check_rack();
        self.check_tlp();
        self.check_persist();
        self.check_keepalive();
        self.check_user_timeout();
        if self.state == State::Closed {
            return Ok(());
        }
        self.maybe_send_data();
        self.check_ack();
        Ok(())
    }
}

} // verus!
