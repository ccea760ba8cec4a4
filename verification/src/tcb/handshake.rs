//! Opening connections: the three-way handshake from both sides, and SYN cookies.

use crate::congestion::Tahoe;
use crate::rack::Rack;
use crate::scoreboard::SackScoreboard;
use crate::state::State;
use crate::tcb::cookie::{
    cookie_mss_from_index, cookie_mss_index, make_cookie, COOKIE_INDEX_UNIT,
    COOKIE_TIME_BUCKET_MS,
};
use crate::tcb::model::{
    agreed, any_peer, cookie, cookie_restored, cookie_segment, emit_cookie, emit_synack,
    from_cookie, half_open, handshake_done, in_state, offered_mss, offered_shifts, on_listen,
    on_syn_rcvd, on_syn_sent, pinned, relisten, reset, reset_reply, returns_cookie, send_syn,
    syn_accepted, syn_acked, syn_counted, syn_in_flight, syn_opts, synack_accepted, synack_opts,
    take_offer, take_syn, take_synack_options, ts_agreed, unpinned, window_shift,
};
use crate::tcb::output::stage_packet;
use crate::tcb::{Endpoint, Tcb, DEFAULT_PEER_MSS};
use crate::error::TcpError;
use crate::wire::options::option_len;
use crate::wire::{ecn, flags, SackBlocks, Segment, TcpOptions};
use vstd::prelude::*;

verus! {

/// A ring whose length fits a sequence number needs a shift of at most 16.
proof fn lemma_shift_bound(buf: nat, k: nat)
    requires
        buf < 0x1_0000 * vstd::arithmetic::power2::pow2(k),
    ensures
        window_shift(buf) <= k,
    decreases k,
{
    if buf > 0xFFFF {
        if k == 0 {
            assert(vstd::arithmetic::power2::pow2(0) == 1) by {
                vstd::arithmetic::power2::lemma2_to64();
            }
        } else {
            vstd::arithmetic::power2::lemma_pow2_unfold(k);
            lemma_shift_bound(buf / 2, (k - 1) as nat);
        }
    }
}

/// The shift that lets a window of `buf` bytes fit a 16-bit field.
pub fn local_ws_shift(buf: usize) -> (shift: u8)
    requires
        buf <= u32::MAX,
    ensures
        shift == window_shift(buf as nat),
        shift <= 16,
{
    proof {
        vstd::arithmetic::power2::lemma2_to64();
        lemma_shift_bound(buf as nat, 16);
    }
    let mut rest: usize = buf;
    let mut shift: u8 = 0;
    while rest > 0xFFFF
        invariant
            shift + window_shift(rest as nat) == window_shift(buf as nat),
            window_shift(buf as nat) <= 16,
        decreases rest,
    {
        rest = rest / 2;
        shift = shift + 1;
    }
    shift
}

/// The segment size that a segment offers, or `default`.
fn offered_mss_or(seg: &Segment<'_>, default: u16) -> (m: u16)
    ensures
        m == offered_mss(seg@, default),
{
    match seg.options.mss {
        Some(m) => if m >= DEFAULT_PEER_MSS {
            m
        } else {
            DEFAULT_PEER_MSS
        },
        None => default,
    }
}

impl<const BUF: usize> Tcb<BUF> {
    /// Takes what a peer's SYN or SYN-ACK offers in segment size, window scale and
    /// window.
    #[verifier::rlimit(30)]
    fn take_offer(&mut self, seg: &Segment<'_>)
        requires
            old(self).wf(),
        ensures
            final(self).wf(),
            final(self)@ == take_offer(old(self)@, seg@),
    {
        proof {
            reveal(take_offer);
        }
        let mss: u16 = offered_mss_or(seg, self.peer_mss);
        let (snd_shift, rcv_shift): (u8, u8) = match seg.options.wscale {
            Some(w) => (
                if w <= 14 {
                    w
                } else {
                    14
                },
                local_ws_shift(BUF),
            ),
            None => (self.snd_wscale, self.rcv_wscale),
        };
        assert((snd_shift, rcv_shift) == offered_shifts(self@, seg@));
        self.irs = seg.seq;
        self.rcv_nxt = seg.seq.wrapping_add(1);
        self.snd_wnd = seg.window as u32;
        self.peer_mss = mss;
        self.snd_wscale = snd_shift;
        self.rcv_wscale = rcv_shift;
        self.ws_offered = self.ws_offered || seg.options.wscale.is_some();
    }

    /// Uses timestamps if the peer sends one.
    fn agree_ts(&mut self, seg: &Segment<'_>)
        requires
            old(self).wf(),
        ensures
            final(self).wf(),
            final(self)@ == ts_agreed(old(self)@, seg@),
    {
        proof {
            reveal(ts_agreed);
        }
        if let Some((tsval, _)) = seg.options.ts {
            self.ts_enabled = true;
            self.ts_recent = tsval;
        }
    }

    /// Notes what else was agreed on.
    fn agree(&mut self, sack: bool, notification: bool)
        requires
            old(self).wf(),
        ensures
            final(self).wf(),
            final(self)@ == agreed(old(self)@, sack, notification),
    {
        proof {
            reveal(agreed);
        }
        self.sack_enabled = sack;
        self.ecn_enabled = notification;
    }

    /// Notes that our SYN is acknowledged.
    fn note_syn_acked(&mut self, ack: u32)
        requires
            old(self).wf(),
        ensures
            final(self).wf(),
            final(self)@ == syn_acked(old(self)@, ack),
    {
        proof {
            reveal(syn_acked);
        }
        self.snd_una = ack;
        self.rtx_count = 0;
    }

    /// Changes the state.
    pub(crate) fn set_state(&mut self, st: State)
        requires
            old(self).wf(),
        ensures
            final(self).wf(),
            final(self)@ == in_state(old(self)@, st),
    {
        proof {
            reveal(in_state);
        }
        self.state = st;
    }

    /// Agrees on the options of a SYN-ACK.
    fn take_synack_options(&mut self, seg: &Segment<'_>)
        requires
            old(self).wf(),
        ensures
            final(self).wf(),
            final(self)@ == take_synack_options(old(self)@, seg@),
    {
        proof {
            reveal(take_synack_options);
        }
        self.agree_ts(seg);
        if let Some((_, tsecr)) = seg.options.ts {
            if tsecr != 0 {
                self.update_rtt_from_ts_echo(tsecr);
            }
        }
        let notification: bool = seg.has(flags::ECE) && !seg.has(flags::CWR);
        self.agree(seg.options.sack_permitted, notification);
    }

    /// Takes the SYN-ACK that our SYN asked for.
    fn accept_synack(&mut self, seg: &Segment<'_>)
        requires
            old(self).wf(),
        ensures
            final(self).wf(),
            final(self)@ == synack_accepted(old(self)@, seg@),
    {
        proof {
            reveal(synack_accepted);
        }
        self.take_offer(seg);
        self.note_syn_acked(seg.ack);
        self.take_synack_options(seg);
        self.process_ack_rtt(seg.ack);
        self.stop_rto();
        self.set_state(State::Established);
        self.send_pure_ack();
    }

    /// Stages a reset.
    fn reply_reset(&mut self, seq: u32, ack: u32)
        requires
            old(self).wf(),
        ensures
            final(self).wf(),
            final(self)@ == reset_reply(old(self)@, seq, ack),
    {
        proof {
            reveal(reset_reply);
        }
        let none: [u8; 0] = [];
        assert(none@ =~= Seq::<u8>::empty());
        self.emit_segment(flags::RST, seq, ack, &TcpOptions::none(), none.as_slice());
    }

    /// Processes a segment while our SYN is unanswered.
    pub(crate) fn on_segment_syn_sent(&mut self, seg: &Segment<'_>) -> (r: Result<(), TcpError>)
        requires
            old(self).wf(),
        ensures
            final(self).wf(),
            (final(self)@, r) == on_syn_sent(old(self)@, seg@),
    {
        proof {
            reveal(on_syn_sent);
        }
        if !seg.has(flags::SYN) {
            return Err(TcpError::NotForUs);
        }
        if !seg.has(flags::ACK) {
            self.reply_reset(0, seg.seq.wrapping_add(1));
        } else if seg.ack != self.snd_nxt {
            self.reply_reset(seg.ack, 0);
        } else {
            self.accept_synack(seg);
        }
        Ok(())
    }

    /// Forgets everything about the present connection; what belongs to the
    /// endpoint stays.
    pub(crate) fn reset_connection_state(&mut self)
        requires
            old(self).wf(),
        ensures
            final(self).wf(),
            final(self)@ == reset(old(self)@),
    {
        proof {
            reveal(reset);
        }
        self.snd_una = self.iss;
        self.snd_nxt = self.iss;
        self.snd_max = self.iss;
        self.snd_wnd = 0;
        self.rcv_nxt = 0;
        self.rcv_wnd = BUF as u32;
        self.irs = 0;
        self.peer_mss = DEFAULT_PEER_MSS;
        self.ts_enabled = false;
        self.ts_recent = 0;
        self.snd_wscale = 0;
        self.rcv_wscale = 0;
        self.ws_offered = false;
        self.ecn_enabled = false;
        self.ce_observed = false;
        self.send_cwr_pending = false;
        self.sack_enabled = false;
        self.sack_scoreboard = SackScoreboard::new();
        self.rxt_seq = 0;
        self.rxt_unacked = 0;
        self.send_queue.clear();
        self.rack = Rack::new();
        self.rack_deadline = None;
        self.rack_lost_queue.clear();
        self.tlp_deadline = None;
        self.tlp_fired = false;
        self.rtx_count = 0;
        self.keepalive_probes = 0;
        self.keepalive_deadline = None;
        self.user_timeout_deadline = None;
        self.send_ring.clear();
        self.recv_ring.clear();
        self.reasm.clear();
        self.cc = Tahoe::new(BUF as u32);
        self.rto_deadline = None;
        self.rtt_probe = None;
        self.srtt_ms = 0;
        self.rttvar_ms = 0;
        self.rtt_first_sample = false;
        self.pending_ack = false;
        self.delayed_ack_count = 0;
        self.ack_deadline = None;
        self.persist_deadline = None;
        self.persist_backoff_ms = 0;
        self.fin_sent = false;
        self.fin_seq = 0;
        self.time_wait_deadline = None;
        self.error = None;
        self.tx_ring.clear();
        self.syn_rcvd_retries = 0;
    }

    /// Lets a listener wait for the next SYN; closes another connection.
    fn unpin(&mut self)
        requires
            old(self).wf(),
        ensures
            final(self).wf(),
            final(self)@ == unpinned(old(self)@),
    {
        proof {
            reveal(unpinned);
        }
        let ip: [u8; 4] = [0u8, 0u8, 0u8, 0u8];
        assert(ip@ =~= any_peer().ip);
        self.remote = Endpoint { ip, port: 0 };
        self.state =
        if self.is_listener {
            State::Listen
        } else {
            State::Closed
        };
    }

    /// Forgets the connection and gives its place back.
    pub(crate) fn reset_to_listen_or_closed(&mut self)
        requires
            old(self).wf(),
        ensures
            final(self).wf(),
            final(self)@ == relisten(old(self)@),
    {
        proof {
            reveal(relisten);
        }
        self.reset_connection_state();
        self.unpin();
    }

    /// The options of our SYN-ACK.
    fn synack_options(&self) -> (o: TcpOptions)
        ensures
            o.sack.wf(),
            o@ == synack_opts(self@),
            option_len(o@) <= 40,
    {
        proof {
            reveal(synack_opts);
        }
        TcpOptions {
            mss: Some(self.local_mss),
            wscale: if self.ws_offered {
                Some(self.rcv_wscale)
            } else {
                None
            },
            ts: if self.ts_enabled {
                Some((self.ts_val(), self.ts_recent))
            } else {
                None
            },
            sack_permitted: self.sack_enabled,
            sack: SackBlocks::empty(),
        }
    }

    /// Stages the SYN-ACK.
    pub(crate) fn emit_synack_from_state(&mut self)
        requires
            old(self).wf(),
        ensures
            final(self).wf(),
            final(self)@ == emit_synack(old(self)@),
    {
        proof {
            reveal(emit_synack);
        }
        let opts = self.synack_options();
        let extra: u8 = if self.ecn_enabled {
            flags::ECE
        } else {
            0
        };
        let seq: u32 = self.iss;
        let ack: u32 = self.rcv_nxt;
        let none: [u8; 0] = [];
        assert(none@ =~= Seq::<u8>::empty());
        self.emit_segment(flags::SYN | flags::ACK | extra, seq, ack, &opts, none.as_slice());
    }

    /// Gives our SYN its sequence number.
    fn count_syn(&mut self)
        requires
            old(self).wf(),
        ensures
            final(self).wf(),
            final(self)@ == syn_counted(old(self)@),
    {
        proof {
            reveal(syn_counted);
        }
        self.snd_nxt = self.iss.wrapping_add(1);
        self.bump_snd_max();
    }

    /// Notes that our SYN or SYN-ACK has gone out.
    pub(crate) fn note_syn_in_flight(&mut self)
        requires
            old(self).wf(),
        ensures
            final(self).wf(),
            final(self)@ == syn_in_flight(old(self)@),
    {
        proof {
            reveal(syn_in_flight);
        }
        self.count_syn();
        let probe: u32 = self.snd_nxt;
        self.arm_rto_for(probe);
    }

    /// Makes the source of a segment the peer.
    fn pin(&mut self, seg: &Segment<'_>)
        requires
            old(self).wf(),
        ensures
            final(self).wf(),
            final(self)@ == pinned(old(self)@, seg@),
    {
        proof {
            reveal(pinned);
        }
        self.remote = Endpoint { ip: seg.src_ip, port: seg.src_port };
    }

    /// Makes the connection half open.
    fn set_half_open(&mut self)
        requires
            old(self).wf(),
        ensures
            final(self).wf(),
            final(self)@ == half_open(old(self)@),
    {
        proof {
            reveal(half_open);
        }
        self.state = State::SynRcvd;
        self.syn_rcvd_retries = 0;
    }

    /// Agrees on what a SYN offers.
    fn take_syn(&mut self, seg: &Segment<'_>)
        requires
            old(self).wf(),
        ensures
            final(self).wf(),
            final(self)@ == take_syn(old(self)@, seg@),
    {
        proof {
            reveal(take_syn);
        }
        self.pin(seg);
        self.take_offer(seg);
        self.agree_ts(seg);
        let notification: bool = seg.has(flags::ECE) && seg.has(flags::CWR);
        self.agree(seg.options.sack_permitted, notification);
        self.update_window();
    }

    /// Starts a half-open connection on a SYN.
    fn accept_syn_stateful(&mut self, seg: &Segment<'_>)
        requires
            old(self).wf(),
        ensures
            final(self).wf(),
            final(self)@ == syn_accepted(old(self)@, seg@),
    {
        proof {
            reveal(syn_accepted);
        }
        self.reset_connection_state();
        self.take_syn(seg);
        self.emit_synack_from_state();
        self.set_half_open();
        self.note_syn_in_flight();
    }

    /// The cookie for a SYN of `peer_seq` in a time bucket.
    fn compute_cookie(
        &self,
        bucket: u64,
        peer_ip: &[u8; 4],
        peer_port: u16,
        mss_idx: u8,
        peer_seq: u32,
    ) -> (c: u32)
        ensures
            c == cookie(self@, bucket, peer_ip@, peer_port, mss_idx, peer_seq),
    {
        proof {
            reveal(cookie);
        }
        make_cookie(
            &self.cookie_secret,
            bucket,
            peer_ip,
            peer_port,
            &self.local.ip,
            self.local.port,
            peer_seq,
            mss_idx,
        )
    }

    /// Answers a SYN with a cookie; the listener keeps no state.
    fn emit_cookie_synack(&mut self, seg: &Segment<'_>)
        requires
            old(self).wf(),
        ensures
            final(self).wf(),
            final(self)@ == emit_cookie(old(self)@, seg@),
    {
        proof {
            reveal(emit_cookie);
            reveal(cookie_segment);
        }
        if self.tx_ring.is_full() {
            return;
        }
        let peer_mss: u16 = offered_mss_or(seg, DEFAULT_PEER_MSS);
        let mss_idx: u8 = cookie_mss_index(peer_mss);
        let bucket: u64 = self.now_ms / COOKIE_TIME_BUCKET_MS;
        let c: u32 = self.compute_cookie(bucket, &seg.src_ip, seg.src_port, mss_idx, seg.seq);
        let ts: Option<(u32, u32)> = match seg.options.ts {
            Some((tsval, _)) => Some((self.ts_val(), tsval)),
            None => None,
        };
        let opts = TcpOptions {
            mss: Some(self.local_mss),
            wscale: None,
            ts,
            sack_permitted: false,
            sack: SackBlocks::empty(),
        };
        let win: u16 = self.outbound_window(true);
        let local_ip = self.local.ip;
        let local_port: u16 = self.local.port;
        let ip_id: u16 = self.ip_id;
        let none: [u8; 0] = [];
        assert(none@ =~= Seq::<u8>::empty());
        stage_packet(
            &mut self.tx_ring,
            local_ip,
            seg.src_ip,
            local_port,
            seg.src_port,
            c,
            seg.seq.wrapping_add(1),
            flags::SYN | flags::ACK,
            win,
            &opts,
            none.as_slice(),
            ip_id,
            ecn::NOT_ECT,
        );
        self.ip_id = ip_id.wrapping_add(1);
    }

    /// Whether a segment returns a cookie of this time bucket or the one before.
    fn returns_cookie(&self, seg: &Segment<'_>) -> (b: bool)
        ensures
            b == returns_cookie(self@, seg@),
    {
        proof {
            reveal(returns_cookie);
        }
        let c: u32 = seg.ack.wrapping_sub(1);
        let mss_idx: u8 = (c / COOKIE_INDEX_UNIT) as u8;
        let peer_seq: u32 = seg.seq.wrapping_sub(1);
        let now_bucket: u64 = self.now_ms / COOKIE_TIME_BUCKET_MS;
        self.compute_cookie(now_bucket, &seg.src_ip, seg.src_port, mss_idx, peer_seq) == c
            || self.compute_cookie(
            now_bucket.wrapping_sub(1),
            &seg.src_ip,
            seg.src_port,
            mss_idx,
            peer_seq,
        ) == c
    }

    /// Restores what a returned cookie stands for.
    fn restore_cookie(&mut self, seg: &Segment<'_>)
        requires
            old(self).wf(),
        ensures
            final(self).wf(),
            final(self)@ == cookie_restored(old(self)@, seg@),
    {
        proof {
            reveal(cookie_restored);
        }
        let c: u32 = seg.ack.wrapping_sub(1);
        let mss: u16 = cookie_mss_from_index((c / COOKIE_INDEX_UNIT) as u8);
        self.peer_mss = if mss >= DEFAULT_PEER_MSS {
            mss
        } else {
            DEFAULT_PEER_MSS
        };
        self.irs = seg.seq.wrapping_sub(1);
        self.rcv_nxt = seg.seq.wrapping_sub(1).wrapping_add(1);
        self.iss = c;
        self.snd_una = seg.ack;
        self.snd_nxt = seg.ack;
        self.snd_max = seg.ack;
        self.snd_wnd = self.scale_peer_window(seg.window);
    }

    /// Makes the connection that a returned cookie stands for.
    fn promote(&mut self, seg: &Segment<'_>)
        requires
            old(self).wf(),
        ensures
            final(self).wf(),
            final(self)@ == from_cookie(old(self)@, seg@),
    {
        proof {
            reveal(from_cookie);
        }
        self.reset_connection_state();
        self.pin(seg);
        self.restore_cookie(seg);
        self.agree_ts(seg);
        self.update_window();
        self.set_state(State::Established);
    }

    /// Processes a segment while listening.
    pub(crate) fn on_segment_listen(&mut self, seg: &Segment<'_>)
        requires
            old(self).wf(),
            seg.options.sack.wf(),
            seg.payload@.len() <= 0xFFFF,
        ensures
            final(self).wf(),
            final(self)@ == on_listen(old(self)@, seg@),
    {
        proof {
            reveal(on_listen);
        }
        if seg.has(flags::SYN) {
            if seg.has(flags::ACK) {
                self.reply_reset(seg.ack, 0);
            } else if self.cookie_secret_set {
                self.emit_cookie_synack(seg);
            } else {
                self.accept_syn_stateful(seg);
            }
        } else if seg.has(flags::ACK) && self.cookie_secret_set && self.returns_cookie(seg) {
            self.promote(seg);
            self.on_segment_synchronised(seg);
        }
    }

    /// Completes the handshake on the acknowledgement of our SYN-ACK.
    fn finish_handshake(&mut self, seg: &Segment<'_>)
        requires
            old(self).wf(),
        ensures
            final(self).wf(),
            final(self)@ == handshake_done(old(self)@, seg@),
    {
        proof {
            reveal(handshake_done);
        }
        self.snd_una = seg.ack;
        self.snd_wnd = self.scale_peer_window(seg.window);
        self.rto_deadline = None;
        self.rtt_probe = None;
        self.syn_rcvd_retries = 0;
        self.state = State::Established;
    }

    /// Processes a segment while half open.
    pub(crate) fn on_segment_syn_rcvd(&mut self, seg: &Segment<'_>)
        requires
            old(self).wf(),
            seg.options.sack.wf(),
            seg.payload@.len() <= 0xFFFF,
        ensures
            final(self).wf(),
            final(self)@ == on_syn_rcvd(old(self)@, seg@),
    {
        proof {
            reveal(on_syn_rcvd);
        }
        if seg.has(flags::SYN) {
            if seg.has(flags::ACK) {
                self.reply_reset(seg.ack, 0);
            } else if seg.seq == self.irs {
                self.emit_synack_from_state();
            }
            return;
        }
        if !seg.has(flags::ACK) {
            return;
        }
        if seg.ack != self.iss.wrapping_add(1) {
            self.reply_reset(seg.ack, 0);
            return;
        }
        if self.in_window(seg.seq, seg.payload.len() as u32) && seg.seq == self.rcv_nxt {
            self.finish_handshake(seg);
            self.on_segment_synchronised(seg);
        }
    }

    /// The options of our SYN.
    fn syn_options(&self) -> (o: TcpOptions)
        requires
            self.wf(),
        ensures
            o.sack.wf(),
            o@ == syn_opts(self@),
            option_len(o@) <= 40,
    {
        proof {
            reveal(syn_opts);
        }
        TcpOptions {
            mss: Some(self.local_mss),
            wscale: Some(local_ws_shift(BUF)),
            ts: Some((self.ts_val(), 0)),
            sack_permitted: true,
            sack: SackBlocks::empty(),
        }
    }

    /// Sends our SYN, if there is room for it.
    pub(crate) fn send_syn(&mut self)
        requires
            old(self).wf(),
        ensures
            final(self).wf(),
            final(self)@ == send_syn(old(self)@),
    {
        proof {
            reveal(send_syn);
        }
        if self.tx_ring.is_full() {
            return;
        }
        let opts = self.syn_options();
        let seq: u32 = self.iss;
        let none: [u8; 0] = [];
        assert(none@ =~= Seq::<u8>::empty());
        self.emit_segment(
            flags::SYN | flags::ECE | flags::CWR,
            seq,
            0,
            &opts,
            none.as_slice(),
        );
        self.note_syn_in_flight();
    }
}

} // verus!
