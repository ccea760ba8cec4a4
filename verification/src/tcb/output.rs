//! Staging outbound segments.

use crate::error::TcpError;
use crate::reassembly::sack_report;
use crate::seq::{seq_gt, seq_le};
use crate::tcb::model::{
    ack_sent, advertised, arm_rto, arm_rto_if_idle, arm_tlp, bump_max, data_opts, datagram_out,
    emit, feedback, payload_mss, pure_ack, segment_out, tx_full, window_field,
};
use crate::tcb::{RttProbe, Tcb, TLP_MIN_PTO_MS};
use crate::tx_ring::{push_outcome, TxRing, TX_RING_CAP};
use crate::wire::options::{lemma_option_len, option_len};
use crate::wire::{self, ecn, flags, SackBlocks, TcpOptions};
use crate::{MAX_PACKET, MSS};
use vstd::prelude::*;

verus! {

/// Stages the datagram of one segment; there is room for it.
pub(crate) fn stage_packet(
    tx: &mut TxRing,
    src_ip: [u8; 4],
    dst_ip: [u8; 4],
    src_port: u16,
    dst_port: u16,
    seq: u32,
    ack: u32,
    bits: u8,
    window: u16,
    options: &TcpOptions,
    payload: &[u8],
    ip_id: u16,
    codepoint: u8,
)
    requires
        old(tx).wf(),
        old(tx)@.len() < TX_RING_CAP,
        options.sack.wf(),
        option_len(options@) <= 40,
        option_len(options@) + payload@.len() <= MSS,
    ensures
        final(tx).wf(),
        final(tx)@ == old(tx)@.push(
            wire::packet(
                wire::outbound(
                    src_ip@,
                    dst_ip@,
                    src_port,
                    dst_port,
                    seq,
                    ack,
                    bits,
                    window,
                    options@,
                    payload@,
                    codepoint,
                ),
                ip_id,
            ),
        ),
{
    let ghost g = wire::outbound(
        src_ip@,
        dst_ip@,
        src_port,
        dst_port,
        seq,
        ack,
        bits,
        window,
        options@,
        payload@,
        codepoint,
    );
    let ghost n = wire::packet_len(g);
    proof {
        lemma_option_len(options@);
        wire::lemma_bare_lens(g, 0, ip_id);
    }
    let write = |buf: &mut [u8]| -> (w: Result<usize, TcpError>)
        requires
            options.sack.wf(),
        ensures
            final(buf)@.len() == old(buf)@.len(),
            wire::emit_result(g, old(buf)@.len() as int) matches Ok(n) ==> w matches Ok(m) && m == n
                && final(buf)@ == wire::packet(g, ip_id) + old(buf)@.skip(n),
        {
            wire::emit(
                buf,
                src_ip,
                dst_ip,
                src_port,
                dst_port,
                seq,
                ack,
                bits,
                window,
                options,
                payload,
                ip_id,
                codepoint,
            )
        };
    let r = tx.push_with(write);
    proof {
        let (b, w): (&mut [u8], Result<usize, TcpError>) = choose|
            b: &mut [u8],
            w: Result<usize, TcpError>,
        |
            {
                &&& b@.len() == MAX_PACKET
                &&& #[trigger] call_ensures(write, (b,), w)
                &&& (tx@, r) == push_outcome(old(tx)@, final(b)@, w)
            };
        assert(wire::emit_result(g, MAX_PACKET as int) == Ok::<int, TcpError>(n));
        assert(final(b)@.subrange(0, n) =~= wire::packet(g, ip_id));
    }
}

impl<const BUF: usize> Tcb<BUF> {
    /// Stages one segment and says whether there was room for it.
    pub(crate) fn emit_segment(
        &mut self,
        flag_bits: u8,
        seq: u32,
        ack: u32,
        options: &TcpOptions,
        payload: &[u8],
    ) -> (queued: bool)
        requires
            old(self).wf(),
            options.sack.wf(),
            option_len(options@) <= 40,
            option_len(options@) + payload@.len() <= MSS,
        ensures
            final(self).wf(),
            final(self)@ == emit(old(self)@, flag_bits, seq, ack, options@, payload@),
            queued == !tx_full(old(self)@),
    {
        proof {
            reveal(emit);
            reveal(datagram_out);
            reveal(segment_out);
            reveal(feedback);
        }
        if self.tx_ring.is_full() {
            return false;
        }
        let is_syn: bool = (flag_bits & flags::SYN) != 0;
        let window: u16 = self.outbound_window(is_syn);
        let mut bits: u8 = flag_bits;
        let mut confirmed: bool = false;
        if self.ecn_enabled && !is_syn && (flag_bits & flags::ACK) != 0 {
            if self.ce_observed {
                bits = bits | flags::ECE;
            }
            if self.send_cwr_pending && payload.len() > 0 {
                bits = bits | flags::CWR;
                confirmed = true;
            }
        }
        let codepoint: u8 = if self.ecn_enabled && !is_syn {
            ecn::ECT_0
        } else {
            ecn::NOT_ECT
        };
        let src_ip = self.local.ip;
        let dst_ip = self.remote.ip;
        let src_port: u16 = self.local.port;
        let dst_port: u16 = self.remote.port;
        let ip_id: u16 = self.ip_id;
        if confirmed {
            self.send_cwr_pending = false;
        }
        stage_packet(
            &mut self.tx_ring,
            src_ip,
            dst_ip,
            src_port,
            dst_port,
            seq,
            ack,
            bits,
            window,
            options,
            payload,
            ip_id,
            codepoint,
        );
        self.ip_id = ip_id.wrapping_add(1);
        true
    }

    /// The window field to send.
    pub(crate) fn outbound_window(&self, is_syn_segment: bool) -> (w: u16)
        requires
            self.wf(),
        ensures
            w == window_field(self@, is_syn_segment),
    {
        let raw: u32 = self.advertised_window();
        let w: u32 = if is_syn_segment {
            raw
        } else {
            raw >> self.rcv_wscale
        };
        if w > 0xFFFF {
            0xFFFF
        } else {
            w as u16
        }
    }

    /// Room that may be advertised.
    pub(crate) fn advertised_window(&self) -> (w: u32)
        requires
            self.wf(),
        ensures
            w == advertised(self@),
    {
        let free: usize = self.recv_ring.free();
        let held: usize = self.reasm.held_bytes();
        if free > held {
            (free - held) as u32
        } else {
            0
        }
    }

    /// The clock as a timestamp value.
    pub(crate) fn ts_val(&self) -> (t: u32)
        ensures
            t == self@.now_ms as u32,
    {
        #[verifier::truncate]
        (self.now_ms as u32)
    }

    /// The options of an ordinary segment.
    pub(crate) fn data_options(&self) -> (o: TcpOptions)
        requires
            self.wf(),
        ensures
            o.sack.wf(),
            o@ == data_opts(self@),
            option_len(o@) <= 36,
    {
        proof {
            reveal(data_opts);
        }
        let mut sack = SackBlocks::empty();
        if self.sack_enabled {
            let max_blocks: usize = if self.ts_enabled {
                3
            } else {
                4
            };
            self.reasm.fill_sack_blocks(&mut sack, max_blocks);
            proof {
                let rep = sack_report(self@.reasm.runs, max_blocks as int);
                let all = Seq::<(u32, u32)>::empty() + rep;
                assert(all =~= rep);
                assert(all.take(rep.len() as int) =~= rep);
            }
        }
        let ts: Option<(u32, u32)> = if self.ts_enabled {
            Some((self.ts_val(), self.ts_recent))
        } else {
            None
        };
        TcpOptions { mss: None, wscale: None, ts, sack_permitted: false, sack }
    }

    /// Most payload bytes of one segment.
    pub(crate) fn effective_payload_mss(&self) -> (n: u32)
        requires
            self.wf(),
        ensures
            n == payload_mss(self@),
            n + option_len(data_opts(self@)) <= MSS,
    {
        proof {
            reveal(payload_mss);
        }
        let cap: usize = if self.local_mss <= self.peer_mss {
            self.local_mss as usize
        } else {
            self.peer_mss as usize
        };
        let opt: usize = self.data_options().encoded_len();
        if cap > opt {
            (cap - opt) as u32
        } else {
            0
        }
    }

    /// No acknowledgement is owed any more.
    pub(crate) fn note_ack_sent(&mut self)
        requires
            old(self).wf(),
        ensures
            final(self).wf(),
            final(self)@ == ack_sent(old(self)@),
    {
        proof {
            reveal(ack_sent);
        }
        self.pending_ack = false;
        self.delayed_ack_count = 0;
        self.ack_deadline = None;
    }

    /// Stages a bare acknowledgement, if there is room.
    pub(crate) fn send_pure_ack(&mut self)
        requires
            old(self).wf(),
        ensures
            final(self).wf(),
            final(self)@ == pure_ack(old(self)@),
    {
        proof {
            reveal(pure_ack);
        }
        if self.tx_ring.is_full() {
            return;
        }
        let opts = self.data_options();
        let seq: u32 = self.snd_nxt;
        let ack: u32 = self.rcv_nxt;
        let none: [u8; 0] = [];
        self.emit_segment(flags::ACK, seq, ack, &opts, none.as_slice());
        assert(none@ =~= Seq::<u8>::empty());
        self.note_ack_sent();
    }

    /// Arms the retransmission timer, and starts a round-trip measurement that
    /// `probe_seq` completes where there are no timestamps.
    pub fn arm_rto_for(&mut self, probe_seq: u32)
        requires
            old(self).wf(),
        ensures
            final(self).wf(),
            final(self)@ == arm_rto(old(self)@, probe_seq),
    {
        proof {
            reveal(arm_rto);
        }
        self.rto_deadline = Some(self.now_ms.wrapping_add(self.rto_ms as u64));
        if !self.ts_enabled && self.rtt_probe.is_none() {
            self.rtt_probe = Some(
                RttProbe { seq: probe_seq, sent_at: self.now_ms, valid: true },
            );
        }
    }

    pub(crate) fn arm_rto_if_idle(&mut self, probe_seq: u32)
        requires
            old(self).wf(),
        ensures
            final(self).wf(),
            final(self)@ == arm_rto_if_idle(old(self)@, probe_seq),
    {
        proof {
            reveal(arm_rto_if_idle);
        }
        if self.rto_deadline.is_none() {
            self.arm_rto_for(probe_seq);
        }
    }

    /// Lets `snd_max` follow `snd_nxt`.
    pub(crate) fn bump_snd_max(&mut self)
        requires
            old(self).wf(),
        ensures
            final(self).wf(),
            final(self)@ == bump_max(old(self)@),
    {
        proof {
            reveal(bump_max);
        }
        if seq_gt(self.snd_nxt, self.snd_max) {
            self.snd_max = self.snd_nxt;
        }
    }

    /// Arms the tail loss probe where one is in order.
    pub(crate) fn arm_tlp(&mut self)
        requires
            old(self).wf(),
        ensures
            final(self).wf(),
            final(self)@ == arm_tlp(old(self)@),
    {
        proof {
            reveal(arm_tlp);
        }
        if self.tlp_fired || seq_le(self.snd_max, self.snd_una) || self.snd_wnd == 0 {
            return;
        }
        let srtt: u64 = if self.srtt_ms >= 1 {
            self.srtt_ms as u64
        } else {
            1
        };
        let pto: u64 = if 2 * srtt >= TLP_MIN_PTO_MS {
            2 * srtt
        } else {
            TLP_MIN_PTO_MS
        };
        self.tlp_deadline = Some(self.now_ms.wrapping_add(pto));
    }
}

} // verus!
