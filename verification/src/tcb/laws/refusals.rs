//! What a connection does not take: segments for others, outside its window, of a handshake
//! that it knows nothing of. And what it makes of a reset.

use crate::error::TcpError;
use crate::num::max;
use crate::reassembly::held;
use crate::seq::seq_gt;
use crate::state::synchronized;
use crate::tcb::laws::acking::{lemma_take_ack_sound, lemma_take_ack_stays};
use crate::tcb::laws::clocks::lemma_synack_parses;
use crate::tcb::laws::frame::{lemma_pure_ack, lemma_send_data};
use crate::tcb::laws::marks::heard;
use crate::tcb::laws::outbound::lemma_options_fit;
use crate::tcb::laws::reactions::{lemma_drain_limits, lemma_scale, lemma_take_limits};
use crate::tcb::laws::receipts::{acks, lemma_pure_ack_tells, lemma_take_ack_owed, told};
use crate::tcb::laws::segments::{
    lemma_answer_send, lemma_handshake_done_sound, lemma_take_payload_send,
};
use crate::tcb::laws::soundness::sound;
use crate::tcb::laws::staged::addressable;
use crate::tcb::laws::transitions::lemma_on_synchronised_state;
use crate::tcb::model::{
    accept, acceptable, ack_advanced, ack_repeated, answer, app_recv, app_recv_len, app_send,
    data_buffered, data_read, datagram_out, emit, emit_synack, feedback, for_us, handshake_done,
    injected, note_marks, on_listen, on_reset, on_segment, on_syn_rcvd, on_syn_sent,
    on_synchronised, peer_alive, refuse, relisten, reset, reset_by_peer, reset_reply, scaled,
    segment_out, take_ack, take_fin, take_payload, take_window, tx_full, unpinned, window_updated,
    TcbView,
};
use crate::tx_ring::TX_RING_CAP;
use crate::wire::{flags, law_emit_then_parse_round_trip, packet, parse_packet};
use crate::wire::flags::{ACK, FIN, RST, SYN};
use crate::wire::options::no_options;
use vstd::arithmetic::power2::pow2;
use vstd::prelude::*;

verus! {

/// What is malformed, or for another connection, changes nothing.
pub proof fn law_strangers_change_nothing(s: TcbView, b: Seq<u8>)
    ensures
        parse_packet(b) is None ==> injected(s, b) == (
            s,
            Err::<(), TcpError>(TcpError::MalformedPacket),
        ),
        parse_packet(b) matches Some(g) ==> (g.dst_ip != s.local.ip || g.dst_port != s.local.port
            || !(s.state is Listen) && (g.src_ip != s.remote.ip || g.src_port != s.remote.port)
            ==> injected(s, b) == (s, Err::<(), TcpError>(TcpError::NotForUs))),
{
}

/// A segment is in the window if it starts or ends there: no further above the next expected
/// byte than the window is wide. A window that is closed counts as one byte.
pub proof fn law_window_is_tested(s: TcbView, seq: u32, len: u32)
    requires
        s.rcv_wnd <= 0x4000_0000,
        len <= 0xFFFF,
    ensures
        ({
            let wide = if s.rcv_wnd > 0 {
                s.rcv_wnd as int
            } else {
                1
            };
            let first = seq.wrapping_sub(s.rcv_nxt);
            let last = seq.wrapping_add(len).wrapping_sub(1).wrapping_sub(s.rcv_nxt);
            &&& len == 0 ==> (acceptable(s, seq, len) <==> first < wide)
            &&& len > 0 ==> (acceptable(s, seq, len) <==> first < wide || last < wide)
        }),
{
    reveal(acceptable);
}

/// A segment outside the window is answered and leaves what was received alone.
pub proof fn law_outside_the_window_is_refused(s: TcbView, b: Seq<u8>)
    requires
        addressable(s),
        sound(s),
        synchronized(s.state),
        s.tx.len() < TX_RING_CAP,
        heard(s, b),
        !seq_gt(parse_packet(b)->0.ack, s.snd_max),
        !acceptable(s, parse_packet(b)->0.seq, parse_packet(b)->0.payload.len() as u32),
    ensures
        ({
            let t = injected(s, b).0;
            &&& t.rcv_nxt == s.rcv_nxt && t.recv_ring == s.recv_ring && t.reasm == s.reasm
            &&& told(s.tx.len(), t)
        }),
{
    let g = parse_packet(b)->0;
    let n = note_marks(s, g);
    assert(addressable(n) && n.tx == s.tx && n.rcv_nxt == s.rcv_nxt && n.recv_ring == s.recv_ring
        && n.reasm == s.reasm && n.snd_max == s.snd_max && !acceptable(
        n,
        g.seq,
        g.payload.len() as u32,
    )) by {
        reveal(note_marks);
        reveal(acceptable);
    }
    lemma_take_ack_owed(n, g);
    let k = take_ack(n, g);
    lemma_pure_ack_tells(n);
    lemma_pure_ack_tells(k);
    lemma_pure_ack(n);
    lemma_pure_ack(k);
    reveal(on_segment);
    reveal(on_synchronised);
    reveal(refuse);
    reveal(peer_alive);
    let t = injected(s, b).0;
    assert(acks(t.tx[t.tx.len() - 1], t.rcv_nxt));
}

/// A reset ends a connection: it is closed and has failed, nothing is outstanding, and no
/// timer runs that would send. While our SYN is unanswered only a reset that acknowledges it
/// counts. A listener does not mind, and a half-open connection of a listener gives its
/// place back.
pub proof fn law_reset_is_obeyed(s: TcbView, b: Seq<u8>)
    requires
        parse_packet(b) matches Some(g) && for_us(s, g) && g.has(flags::RST),
    ensures
        ({
            let g = parse_packet(b)->0;
            let t = injected(s, b).0;
            &&& synchronized(s.state) || s.state is SynSent && g.has(flags::ACK) && g.ack
                == s.snd_nxt ==> {
                &&& t.state is Closed && t.error == Some(TcpError::ConnectionReset)
                &&& t.snd_nxt == s.snd_una && t.snd_max == s.snd_una
                &&& t.rto_deadline is None && t.persist_deadline is None && t.ack_deadline is None
                &&& t.tlp_deadline is None && t.rack_deadline is None
                &&& t.time_wait_deadline is None
                &&& t.tx == s.tx && t.recv_ring == s.recv_ring
            }
            &&& s.state is SynSent && (!g.has(flags::ACK) || g.ack != s.snd_nxt) ==> t.state
                is SynSent && t.error == s.error && t.tx == s.tx && injected(s, b).1 == Err::<
                (),
                TcpError,
            >(TcpError::NotForUs)
            &&& s.state is Listen ==> t.state is Listen && t.error == s.error && t.tx == s.tx
            &&& s.state is SynRcvd && !acceptable(s, g.seq, 0) ==> t.state is SynRcvd && t.tx == s.tx
            &&& s.state is SynRcvd && acceptable(s, g.seq, 0) && s.is_listener ==> t.state is Listen
                && t.error is None && t.tx.len() == 0 && t.rto_deadline is None
            &&& s.state is SynRcvd && acceptable(s, g.seq, 0) && !s.is_listener ==> t.state
                is Closed && t.error == Some(TcpError::ConnectionReset)
        }),
{
    reveal(on_segment);
    reveal(on_reset);
    reveal(reset_by_peer);
    reveal(relisten);
    reveal(unpinned);
    reveal(reset);
    reveal(peer_alive);
}

/// `t` has staged one more packet than `s`: a reset at `seq`.
pub open spec fn resets_at(s: TcbView, t: TcbView, seq: u32) -> bool {
    &&& t.tx.len() == s.tx.len() + 1
    &&& parse_packet(t.tx.last()) matches Some(g)
    &&& g.has(flags::RST) && !g.has(flags::SYN) && !g.has(flags::ACK)
    &&& g.seq == seq && g.payload.len() == 0
    &&& g.dst_ip == s.remote.ip && g.dst_port == s.remote.port
}

proof fn lemma_reset_reply(s: TcbView, seq: u32, ack: u32)
    requires
        addressable(s),
        !tx_full(s),
    ensures
        resets_at(s, reset_reply(s, seq, ack), seq),
        reset_reply(s, seq, ack).state == s.state,
        reset_reply(s, seq, ack).error == s.error,
{
    reveal(reset_reply);
    reveal(emit);
    reveal(datagram_out);
    reveal(segment_out);
    reveal(feedback);
    lemma_reset_bits();
    lemma_options_fit(s);
    let g = segment_out(s, flags::RST, seq, ack, no_options(), Seq::empty());
    law_emit_then_parse_round_trip(g, s.ip_id, Seq::empty());
    assert(packet(g, s.ip_id) + Seq::<u8>::empty() =~= packet(g, s.ip_id));
}

proof fn lemma_reset_bits()
    by (bit_vector)
    ensures
        0x04u8 & 0x04u8 != 0 && 0x04u8 & 0x02u8 == 0 && 0x04u8 & 0x10u8 == 0,
{
}

/// A handshake that it knows nothing of is reset, and changes nothing else: a SYN-ACK for
/// another SYN, a SYN that comes for ours, a SYN-ACK for a listener or a half-open
/// connection, an acknowledgement of another SYN-ACK. The reset is where the segment
/// acknowledged.
pub proof fn law_foreign_handshake_is_reset(s: TcbView, b: Seq<u8>)
    requires
        addressable(s),
        !tx_full(s),
        parse_packet(b) matches Some(g) && for_us(s, g) && !g.has(flags::RST),
    ensures
        ({
            let g = parse_packet(b)->0;
            let t = injected(s, b).0;
            let syn = g.has(flags::SYN);
            let ack = g.has(flags::ACK);
            &&& s.state is SynSent && syn && ack && g.ack != s.snd_nxt ==> resets_at(s, t, g.ack)
                && t.state is SynSent
            &&& s.state is SynSent && syn && !ack ==> resets_at(s, t, 0) && t.state is SynSent
            &&& s.state is SynSent && !syn ==> t.state is SynSent && t.tx == s.tx
            &&& s.state is Listen && syn && ack ==> resets_at(s, t, g.ack) && t.state is Listen
            &&& s.state is Listen && !syn && !s.cookie_secret_set ==> t.state is Listen && t.tx
                == s.tx
            &&& s.state is SynRcvd && syn && ack ==> resets_at(s, t, g.ack) && t.state is SynRcvd
            &&& s.state is SynRcvd && !syn && ack && g.ack != s.iss.wrapping_add(1) ==> resets_at(
                s,
                t,
                g.ack,
            ) && t.state is SynRcvd
        }),
{
    let g = parse_packet(b)->0;
    lemma_reset_reply(s, g.ack, 0);
    lemma_reset_reply(s, 0, g.seq.wrapping_add(1));
    reveal(on_segment);
    reveal(on_listen);
    reveal(on_syn_sent);
    reveal(on_syn_rcvd);
    reveal(peer_alive);
}

/// The acknowledgement of its SYN-ACK establishes a half-open connection, with the window
/// that it says, by the scale that was agreed on.
pub proof fn law_handshake_is_completed(s: TcbView, b: Seq<u8>)
    requires
        sound(s),
        s.state is SynRcvd,
        s.snd_wscale <= 14,
        parse_packet(b) matches Some(g) && for_us(s, g) && g.has(flags::ACK) && !g.has(flags::RST)
            && !g.has(flags::SYN) && !g.has(flags::FIN) && g.ack == s.iss.wrapping_add(1) && g.seq
            == s.rcv_nxt,
    ensures
        ({
            let g = parse_packet(b)->0;
            let t = injected(s, b).0;
            &&& t.state is Established
            &&& t.snd_una == s.iss.wrapping_add(1)
            &&& t.snd_wnd == g.window * pow2(s.snd_wscale as nat)
        }),
{
    let g = parse_packet(b)->0;
    let h = handshake_done(s, g);
    lemma_handshake_done_sound(s, g);
    assert(h.state is Established && h.snd_una == g.ack && h.snd_wscale == s.snd_wscale && h.rcv_nxt
        == s.rcv_nxt && h.snd_max == s.snd_max && h.rcv_wnd == s.rcv_wnd) by {
        reveal(handshake_done);
    }
    assert(acceptable(s, g.seq, g.payload.len() as u32) && acceptable(
        h,
        g.seq,
        g.payload.len() as u32,
    )) by {
        reveal(acceptable);
    }
    lemma_on_synchronised_state(h, g);
    let n = note_marks(h, g);
    assert(n.snd_wscale == s.snd_wscale && n.snd_max == s.snd_max && n.snd_una == g.ack && sound(n)
        && n.state is Established && acceptable(n, g.seq, g.payload.len() as u32)) by {
        reveal(note_marks);
        reveal(acceptable);
    }
    let k = take_ack(n, g);
    lemma_take_ack_owed(n, g);
    lemma_take_ack_sound(n, g);
    assert(k.snd_wnd == scaled(n, g.window)) by {
        reveal(take_ack);
        reveal(ack_repeated);
        reveal(ack_advanced);
        reveal(take_window);
    }
    assert(k.snd_una == g.ack) by {
        lemma_take_ack_stays(n, g);
    }
    lemma_scale(g.window, s.snd_wscale);
    let t = on_synchronised(h, g);
    assert(t.snd_wnd == k.snd_wnd && t.snd_una == k.snd_una) by {
        reveal(on_synchronised);
        reveal(accept);
        lemma_take_limits(k, g);
        lemma_take_payload_send(k, g);
        let (p, filled) = take_payload(k, g);
        lemma_take_limits(p, g);
        let c = take_fin(p, g);
        assert(c.snd_una == p.snd_una) by {
            reveal(take_fin);
        }
        lemma_answer_send(c, g, c.rcv_nxt != n.rcv_nxt, filled);
        lemma_send_data(answer(c, g, c.rcv_nxt != n.rcv_nxt, filled));
    }
    reveal(on_segment);
    reveal(on_syn_rcvd);
    reveal(peer_alive);
}

/// A SYN that comes again is answered again, while the connection is half open.
pub proof fn law_repeated_syn_is_answered(s: TcbView, b: Seq<u8>)
    requires
        addressable(s),
        s.state is SynRcvd,
        !tx_full(s),
        parse_packet(b) matches Some(g) && for_us(s, g) && g.has(flags::SYN) && !g.has(flags::ACK)
            && !g.has(flags::RST) && g.seq == s.irs,
    ensures
        ({
            let t = injected(s, b).0;
            &&& t.state is SynRcvd && t.snd_nxt == s.snd_nxt
            &&& t.tx.len() == s.tx.len() + 1
            &&& parse_packet(t.tx.last()) matches Some(h)
            &&& h.has(flags::SYN) && h.has(flags::ACK) && h.seq == s.iss && h.ack == s.rcv_nxt
        }),
{
    lemma_synack_parses(s);
    reveal(on_segment);
    reveal(on_syn_rcvd);
    reveal(peer_alive);
    reveal(emit_synack);
    reveal(emit);
}

/// A write takes as much as there is room for, behind what waits already, while the
/// connection may send; it blocks if there is no room at all.
pub proof fn law_write_takes_what_fits(s: TcbView, data: Seq<u8>)
    requires
        s.send_ring.len() <= s.cap,
    ensures
        ({
            let (t, r) = app_send(s, data);
            let room = s.cap - s.send_ring.len();
            let open = s.state is Established || s.state is CloseWait;
            &&& !open ==> r == Err::<int, TcpError>(TcpError::InvalidState) && t == s
            &&& open && room == 0 && data.len() > 0 ==> r == Err::<int, TcpError>(
                TcpError::WouldBlock,
            ) && t == s
            &&& open && data.len() <= room ==> r == Ok::<int, TcpError>(data.len() as int)
                && t.send_ring == s.send_ring + data
            &&& open && 0 < room < data.len() ==> r == Ok::<int, TcpError>(room) && t.send_ring
                == s.send_ring + data.take(room) && t.send_ring.len() == s.cap
        }),
{
    reveal(data_buffered);
    assert(data.take(data.len() as int) =~= data);
}

/// Reading makes room, and the window follows: what is free once the application has read is
/// what the window is.
pub proof fn law_reading_opens_the_window(s: TcbView, room: int)
    requires
        s.cap <= u32::MAX,
        room > 0,
        s.recv_ring.len() > 0,
        s.error is None,
    ensures
        ({
            let t = app_recv(s, room).0;
            t.rcv_wnd == max(t.cap - t.recv_ring.len() - held(t.reasm.runs), 0) && t.cap == s.cap
        }),
{
    let r = data_read(s, app_recv_len(s, room));
    lemma_drain_limits(r);
    reveal(data_read);
    reveal(window_updated);
}

} // verus!
