//! Round-trip measurement.

use crate::num::{max_u32, min_u32, saturating_times};
use crate::seq::seq_ge;
use crate::tcb::model::{probe_dropped, rtt_from_echo, rtt_from_probe, rtt_sample, rto_stopped};
use crate::tcb::{Tcb, RTO_MAX_MS, RTO_MIN_MS};
use vstd::prelude::*;

verus! {

impl<const BUF: usize> Tcb<BUF> {
    /// Updates the estimates with a round-trip sample (RFC 6298 section 2).
    pub(crate) fn update_rtt(&mut self, r_ms: u32)
        requires
            old(self).wf(),
        ensures
            final(self).wf(),
            final(self)@ == rtt_sample(old(self)@, r_ms),
    {
        proof {
            reveal(rtt_sample);
        }
        if !self.rtt_first_sample {
            self.srtt_ms = max_u32(r_ms, 1);
            self.rttvar_ms = max_u32(r_ms / 2, 1);
            self.rtt_first_sample = true;
        } else {
            let diff: u32 = if self.srtt_ms >= r_ms {
                self.srtt_ms - r_ms
            } else {
                r_ms - self.srtt_ms
            };
            self.rttvar_ms = (saturating_times(self.rttvar_ms, 3).saturating_add(diff)) / 4;
            self.srtt_ms = (saturating_times(self.srtt_ms, 7).saturating_add(r_ms)) / 8;
        }
        let rto: u32 = self.srtt_ms.saturating_add(max_u32(1, saturating_times(self.rttvar_ms, 4)));
        self.rto_ms = max_u32(min_u32(rto, RTO_MAX_MS), RTO_MIN_MS);
    }

    /// Updates the estimates with the peer's echo of the timestamp `tsecr`.
    pub(crate) fn update_rtt_from_ts_echo(&mut self, tsecr: u32)
        requires
            old(self).wf(),
        ensures
            final(self).wf(),
            final(self)@ == rtt_from_echo(old(self)@, tsecr),
    {
        proof {
            reveal(rtt_from_echo);
        }
        let r: u32 = self.ts_val().wrapping_sub(tsecr);
        if r > 60_000 {
            return;
        }
        self.update_rtt(max_u32(r, 1));
    }

    /// Drops the measurement under way.
    fn drop_probe(&mut self)
        requires
            old(self).wf(),
        ensures
            final(self).wf(),
            final(self)@ == probe_dropped(old(self)@),
    {
        proof {
            reveal(probe_dropped);
        }
        self.rtt_probe = None;
    }

    /// Updates the estimates by the measurement under way.
    pub(crate) fn process_ack_rtt(&mut self, ack: u32)
        requires
            old(self).wf(),
        ensures
            final(self).wf(),
            final(self)@ == rtt_from_probe(old(self)@, ack),
    {
        proof {
            reveal(rtt_from_probe);
        }
        let probe = match self.rtt_probe {
            Some(p) => p,
            None => return,
        };
        if !probe.valid {
            self.drop_probe();
            return;
        }
        if !seq_ge(ack, probe.seq) {
            return;
        }
        #[verifier::truncate]
        let r: u32 = self.now_ms.saturating_sub(probe.sent_at) as u32;
        self.drop_probe();
        if r > 0 {
            self.update_rtt(r);
        }
    }

    /// Stops the retransmission timer and the measurement.
    pub(crate) fn stop_rto(&mut self)
        requires
            old(self).wf(),
        ensures
            final(self).wf(),
            final(self)@ == rto_stopped(old(self)@),
    {
        proof {
            reveal(rto_stopped);
        }
        self.rto_deadline = None;
        self.rtt_probe = None;
    }
}

} // verus!
