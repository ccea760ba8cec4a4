//! Inbound datagrams: which state takes them, and resets.

use crate::error::TcpError;
use crate::state::State;
use crate::tcb::model::{
    for_us, injected, on_reset, on_segment, peer_alive, reset_by_peer, EndpointView,
};
use crate::tcb::{Endpoint, Tcb};
use crate::wire::{self, flags, Segment};
use vstd::prelude::*;

verus! {

/// Two addresses are the same.
fn same_ip(a: &[u8; 4], b: &[u8; 4]) -> (same: bool)
    ensures
        same == (a@ == b@),
{
    let same: bool = a[0] == b[0] && a[1] == b[1] && a[2] == b[2] && a[3] == b[3];
    proof {
        if same {
            assert(a@ =~= b@);
        }
    }
    same
}

impl Endpoint {
    /// The endpoint is at `ip` and `port`.
    fn is_at(&self, ip: &[u8; 4], port: u16) -> (b: bool)
        ensures
            b == (self@ == (EndpointView { ip: ip@, port })),
    {
        same_ip(&self.ip, ip) && self.port == port
    }
}

impl<const BUF: usize> Tcb<BUF> {
    /// Closes the connection on a reset from the peer.
    fn close_on_reset(&mut self)
        requires
            old(self).wf(),
        ensures
            final(self).wf(),
            final(self)@ == reset_by_peer(old(self)@),
    {
        proof {
            reveal(reset_by_peer);
        }
        self.error = Some(TcpError::ConnectionReset);
        self.state = State::Closed;
        self.snd_nxt = self.snd_una;
        self.snd_max = self.snd_una;
        self.fin_sent = false;
        self.rto_deadline = None;
        self.time_wait_deadline = None;
        self.persist_deadline = None;
        self.ack_deadline = None;
        self.rack_deadline = None;
        self.tlp_deadline = None;
    }

    /// Processes a reset.
    fn handle_rst(&mut self, seg: &Segment<'_>) -> (r: Result<(), TcpError>)
        requires
            old(self).wf(),
        ensures
            final(self).wf(),
            (final(self)@, r) == on_reset(old(self)@, seg@),
    {
        proof {
            reveal(on_reset);
        }
        match self.state {
            State::SynSent => {
                if !seg.has(flags::ACK) || seg.ack != self.snd_nxt {
                    return Err(TcpError::NotForUs);
                }
            },
            State::Listen => {
                return Ok(());
            },
            State::SynRcvd => {
                if !self.in_window(seg.seq, 0) {
                    return Ok(());
                }
                if self.is_listener {
                    self.reset_to_listen_or_closed();
                    return Ok(());
                }
            },
            _ => {},
        }
        self.close_on_reset();
        Ok(())
    }

    /// Processes a segment that belongs to the connection.
    fn on_segment(&mut self, seg: &Segment<'_>) -> (r: Result<(), TcpError>)
        requires
            old(self).wf(),
            seg.options.sack.wf(),
            seg.payload@.len() <= 0xFFFF,
        ensures
            final(self).wf(),
            (final(self)@, r) == on_segment(old(self)@, seg@),
    {
        proof {
            reveal(on_segment);
        }
        if seg.has(flags::RST) {
            return self.handle_rst(seg);
        }
        match self.state {
            State::Closed => Err(TcpError::InvalidState),
            State::Listen => {
                self.on_segment_listen(seg);
                Ok(())
            },
            State::SynSent => self.on_segment_syn_sent(seg),
            State::SynRcvd => {
                self.on_segment_syn_rcvd(seg);
                Ok(())
            },
            _ => {
                self.on_segment_synchronised(seg);
                Ok(())
            },
        }
    }

    /// Notes that the peer is alive.
    fn note_peer_alive(&mut self)
        requires
            old(self).wf(),
        ensures
            final(self).wf(),
            final(self)@ == peer_alive(old(self)@),
    {
        proof {
            reveal(peer_alive);
        }
        if self.keepalive_idle_ms != 0 {
            self.keepalive_probes = 0;
            self.keepalive_deadline = Some(
                self.now_ms.wrapping_add(self.keepalive_idle_ms as u64),
            );
        }
    }

    /// The segment is addressed to the connection.
    fn is_for_us(&self, seg: &Segment<'_>) -> (b: bool)
        ensures
            b == for_us(self@, seg@),
    {
        self.local.is_at(&seg.dst_ip, seg.dst_port) && (matches!(self.state, State::Listen)
            || self.remote.is_at(&seg.src_ip, seg.src_port))
    }

    /// Processes an inbound datagram. Pending packets should have been extracted
    /// first: an answer that finds no room is dropped.
    pub fn inject_packet(&mut self, packet: &[u8]) -> (r: Result<(), TcpError>)
        requires
            old(self).wf(),
        ensures
            final(self).wf(),
            (final(self)@, r) == injected(old(self)@, packet@),
    {
        let seg = match wire::parse(packet) {
            Ok(seg) => seg,
            Err(e) => {
                return Err(e);
            },
        };
        if !self.is_for_us(&seg) {
            return Err(TcpError::NotForUs);
        }
        let r = self.on_segment(&seg);
        self.note_peer_alive();
        r
    }
}

} // verus!
