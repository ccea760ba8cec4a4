//! Segments in the synchronised states.

use crate::seq::{seq_ge, seq_le};
use crate::tcb::model::{accept, newest_ts, note_marks, on_synchronised, refuse};
use crate::tcb::Tcb;
use crate::wire::{ecn, flags, Segment};
use vstd::prelude::*;

verus! {

impl<const BUF: usize> Tcb<BUF> {
    /// The timestamp to echo after a segment.
    fn newest_ts(&self, seg: &Segment<'_>) -> (t: u32)
        ensures
            t == newest_ts(self@, seg@),
    {
        match seg.options.ts {
            Some((tsval, _)) => if self.ts_enabled && seq_ge(tsval, self.ts_recent) {
                tsval
            } else {
                self.ts_recent
            },
            None => self.ts_recent,
        }
    }

    /// Notes the peer's timestamp and congestion marks.
    fn note_marks(&mut self, seg: &Segment<'_>)
        requires
            old(self).wf(),
        ensures
            final(self).wf(),
            final(self)@ == note_marks(old(self)@, seg@),
    {
        proof {
            reveal(note_marks);
        }
        let ts: u32 = self.newest_ts(seg);
        let ce: bool = if self.ecn_enabled {
            (self.ce_observed || seg.ecn == ecn::CE) && !seg.has(flags::CWR)
        } else {
            self.ce_observed
        };
        self.ts_recent = ts;
        self.ce_observed = ce;
    }

    /// Answers a segment outside the window.
    fn refuse(&mut self, seg: &Segment<'_>)
        requires
            old(self).wf(),
            seg.options.sack.wf(),
            seg.payload@.len() <= 0xFFFF,
        ensures
            final(self).wf(),
            final(self)@ == refuse(old(self)@, seg@),
    {
        proof {
            reveal(refuse);
        }
        let end: u32 = seg.seq.wrapping_add(seg.payload.len() as u32);
        if seq_le(end, self.rcv_nxt) && seg.has(flags::ACK) {
            self.process_ack(seg);
        }
        self.send_pure_ack();
    }

    /// Takes a segment inside the window in.
    fn accept(&mut self, seg: &Segment<'_>)
        requires
            old(self).wf(),
            seg.options.sack.wf(),
            seg.payload@.len() <= 0xFFFF,
        ensures
            final(self).wf(),
            final(self)@ == accept(old(self)@, seg@),
    {
        proof {
            reveal(accept);
        }
        let prev_rcv_nxt: u32 = self.rcv_nxt;
        if seg.has(flags::ACK) {
            self.process_ack(seg);
        }
        let filled: bool = self.take_payload(seg);
        self.take_fin(seg);
        let advanced: bool = self.rcv_nxt != prev_rcv_nxt;
        self.answer(seg, advanced, filled);
        self.maybe_send_data();
    }

    /// Processes a segment in a synchronised state.
    pub(crate) fn on_segment_synchronised(&mut self, seg: &Segment<'_>)
        requires
            old(self).wf(),
            seg.options.sack.wf(),
            seg.payload@.len() <= 0xFFFF,
        ensures
            final(self).wf(),
            final(self)@ == on_synchronised(old(self)@, seg@),
    {
        proof {
            reveal(on_synchronised);
        }
        self.note_marks(seg);
        if self.in_window(seg.seq, seg.payload.len() as u32) {
            self.accept(seg);
        } else {
            self.refuse(seg);
        }
    }
}

} // verus!
