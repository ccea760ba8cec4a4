//! Taking data and the peer's FIN in.

use crate::loop_budget_exhausted;
use crate::num::max_u32;
use crate::reassembly::MAX_HOLES;
use crate::seq::{seq_gt, seq_in_range};
use crate::state::State;
use crate::tcb::model::{
    acceptable, ack_owed, ack_timed, answer, drain, drain_runs, fin_received, fitting, owe_ack,
    received, run_drained, set_aside, take_fin, take_in_order, take_payload, window_updated,
};
use crate::tcb::{Tcb, DELAYED_ACK_MS, TIME_WAIT_MS};
use crate::wire::{flags, Segment};
use vstd::prelude::*;

verus! {

impl<const BUF: usize> Tcb<BUF> {
    /// The segment starts or ends in the receive window.
    pub(crate) fn in_window(&self, seq: u32, len: u32) -> (b: bool)
        ensures
            b == acceptable(self@, seq, len),
    {
        proof {
            reveal(acceptable);
        }
        let wnd: u32 = max_u32(self.rcv_wnd, 1);
        let end: u32 = self.rcv_nxt.wrapping_add(wnd);
        if len == 0 {
            seq == self.rcv_nxt || seq_in_range(seq, self.rcv_nxt, end)
        } else {
            let last: u32 = seq.wrapping_add(len - 1);
            seq_in_range(seq, self.rcv_nxt, end) || seq_in_range(last, self.rcv_nxt, end)
        }
    }

    /// Lets our window follow what may be advertised.
    pub(crate) fn update_window(&mut self)
        requires
            old(self).wf(),
        ensures
            final(self).wf(),
            final(self)@ == window_updated(old(self)@),
    {
        proof {
            reveal(window_updated);
        }
        self.rcv_wnd = self.advertised_window();
    }

    /// Hands the run of slot `i` on to the receive ring as far as there is room,
    /// and says how much that was.
    fn drain_run(&mut self, i: usize) -> (n: usize)
        requires
            old(self).wf(),
            i < MAX_HOLES,
        ensures
            final(self).wf(),
            final(self)@ == run_drained(old(self)@, i as int, n as int),
            n == fitting(old(self)@, old(self)@.reasm.runs[i as int].data),
            final(self)@.recv_ring.len() == old(self)@.recv_ring.len() + n,
    {
        proof {
            reveal(run_drained);
        }
        let n: usize = self.recv_ring.write(self.reasm.slot_bytes(i));
        self.rcv_nxt = self.rcv_nxt.wrapping_add(n as u32);
        self.reasm.commit_drain(i, n);
        n
    }

    /// Hands on what has become contiguous and says how much that was.
    pub(crate) fn drain_reassembly(&mut self) -> (total: usize)
        requires
            old(self).wf(),
        ensures
            final(self).wf(),
            final(self)@ == drain(old(self)@),
            total > 0 <==> final(self)@.recv_ring.len() > old(self)@.recv_ring.len(),
    {
        proof {
            reveal(drain);
        }
        let cap: u32 = MAX_HOLES as u32 + 2;
        let before: usize = self.recv_ring.len();
        let mut drain_guard: u32 = 0;
        loop
            invariant_except_break
                self.wf(),
                drain_guard <= cap,
                drain_runs(self@, (cap - drain_guard) as nat) == drain_runs(old(self)@, cap as nat),
            invariant
                cap == MAX_HOLES + 2,
            ensures
                self.wf(),
                self@ == drain_runs(old(self)@, cap as nat),
            decreases cap - drain_guard,
        {
            proof {
                reveal_with_fuel(drain_runs, 2);
            }
            let (i, len): (usize, usize) = match self.reasm.ready_slot(self.rcv_nxt) {
                Some((i, start, len)) => (i, len),
                None => break,
            };
            if loop_budget_exhausted(&mut drain_guard, cap, "drain_reassembly") {
                break;
            }
            let written: usize = self.drain_run(i);
            if written < len {
                break;
            }
        }
        let total: usize = self.recv_ring.len().saturating_sub(before);
        if total > 0 {
            self.update_window();
            proof {
                reveal(window_updated);
            }
        }
        total
    }

    /// Receives as much of `payload` as fits, in order, and says how much that was.
    fn receive(&mut self, payload: &[u8]) -> (n: usize)
        requires
            old(self).wf(),
        ensures
            final(self).wf(),
            final(self)@ == received(old(self)@, payload@),
            n == fitting(old(self)@, payload@),
    {
        proof {
            reveal(received);
        }
        let n: usize = self.recv_ring.write(payload);
        self.rcv_nxt = self.rcv_nxt.wrapping_add(n as u32);
        n
    }

    /// Holds a payload that is ahead of order.
    fn accept_oo_segment(&mut self, seq: u32, payload: &[u8])
        requires
            old(self).wf(),
            payload@.len() <= 0xFFFF,
        ensures
            final(self).wf(),
            final(self)@ == set_aside(old(self)@, seq, payload@),
    {
        proof {
            reveal(set_aside);
        }
        let rcv_nxt: u32 = self.rcv_nxt;
        self.reasm.insert(seq, payload, rcv_nxt);
    }

    /// Takes a payload in order in, and says whether that filled a hole.
    fn take_in_order(&mut self, payload: &[u8]) -> (filled: bool)
        requires
            old(self).wf(),
        ensures
            final(self).wf(),
            (final(self)@, filled) == take_in_order(old(self)@, payload@),
    {
        proof {
            reveal(take_in_order);
        }
        let written: usize = self.receive(payload);
        if written == payload.len() {
            self.drain_reassembly() > 0
        } else {
            false
        }
    }

    /// Takes a segment's payload in, and says whether that filled a hole.
    pub(crate) fn take_payload(&mut self, seg: &Segment<'_>) -> (filled: bool)
        requires
            old(self).wf(),
            seg.payload@.len() <= 0xFFFF,
        ensures
            final(self).wf(),
            (final(self)@, filled) == take_payload(old(self)@, seg@),
    {
        proof {
            reveal(take_payload);
        }
        if seg.payload.len() == 0 || !self.state.can_recv() {
            return false;
        }
        let mut filled: bool = false;
        if seg.seq == self.rcv_nxt {
            filled = self.take_in_order(seg.payload);
        } else if seq_gt(seg.seq, self.rcv_nxt) {
            self.accept_oo_segment(seg.seq, seg.payload);
        }
        self.update_window();
        filled
    }

    /// Changes state on the peer's FIN, which takes a sequence number.
    #[verifier::rlimit(30)]
    fn advance_state_on_remote_fin(&mut self)
        requires
            old(self).wf(),
        ensures
            final(self).wf(),
            final(self)@ == fin_received(old(self)@),
    {
        proof {
            reveal(fin_received);
        }
        self.rcv_nxt = self.rcv_nxt.wrapping_add(1);
        match self.state {
            State::Established => {
                self.state = State::CloseWait;
            },
            State::FinWait1 => {
                self.state = State::Closing;
            },
            State::FinWait2 => {
                self.time_wait_deadline = Some(self.now_ms.wrapping_add(TIME_WAIT_MS));
                self.state = State::TimeWait;
            },
            _ => {},
        }
    }

    /// Takes a segment's FIN in, if every byte before it has been received.
    pub(crate) fn take_fin(&mut self, seg: &Segment<'_>)
        requires
            old(self).wf(),
            seg.payload@.len() <= 0xFFFF,
        ensures
            final(self).wf(),
            final(self)@ == take_fin(old(self)@, seg@),
    {
        proof {
            reveal(take_fin);
        }
        if seg.has(flags::FIN) {
            let fin_seq: u32 = seg.seq.wrapping_add(seg.payload.len() as u32);
            if fin_seq == self.rcv_nxt {
                self.advance_state_on_remote_fin();
            }
        }
    }

    /// Counts an acknowledgement that is owed.
    fn count_owed_ack(&mut self)
        requires
            old(self).wf(),
        ensures
            final(self).wf(),
            final(self)@ == ack_owed(old(self)@),
    {
        proof {
            reveal(ack_owed);
        }
        self.delayed_ack_count = self.delayed_ack_count.saturating_add(1);
        self.pending_ack = true;
    }

    /// Times the delayed acknowledgement.
    fn time_ack(&mut self)
        requires
            old(self).wf(),
        ensures
            final(self).wf(),
            final(self)@ == ack_timed(old(self)@),
    {
        proof {
            reveal(ack_timed);
        }
        self.ack_deadline = Some(self.now_ms.wrapping_add(DELAYED_ACK_MS));
    }

    /// Owes the peer an acknowledgement, and sends it if it is the second.
    fn owe_ack(&mut self)
        requires
            old(self).wf(),
        ensures
            final(self).wf(),
            final(self)@ == owe_ack(old(self)@),
    {
        proof {
            reveal(owe_ack);
        }
        self.count_owed_ack();
        if self.delayed_ack_count >= 2 {
            self.send_pure_ack();
        } else if self.ack_deadline.is_none() {
            self.time_ack();
        }
    }

    /// Acknowledges a segment, at once or with a delay.
    pub(crate) fn answer(&mut self, seg: &Segment<'_>, advanced: bool, filled: bool)
        requires
            old(self).wf(),
        ensures
            final(self).wf(),
            final(self)@ == answer(old(self)@, seg@, advanced, filled),
    {
        proof {
            reveal(answer);
        }
        let carried_seq: bool = seg.payload.len() != 0 || seg.has(flags::FIN);
        if advanced {
            if seg.has(flags::FIN) || filled {
                self.send_pure_ack();
            } else {
                self.owe_ack();
            }
        } else if carried_seq {
            self.send_pure_ack();
        }
    }
}

} // verus!
