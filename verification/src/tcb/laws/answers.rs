//! What an acknowledgement can and cannot do.

use crate::error::TcpError;
use crate::seq::{seq_gt, seq_le};
use crate::state::synchronized;
use crate::tcb::laws::acking::{lemma_take_ack_sound, lemma_take_ack_stays};
use crate::tcb::laws::frame::{lemma_pure_ack, lemma_send_data};
use crate::tcb::laws::segments::{lemma_answer_send, lemma_take_payload_send};
use crate::tcb::laws::soundness::{outstanding, sound};
use crate::tcb::model::{
    accept, answer, app_send, fin_received, for_us, injected, note_marks, on_reset, on_segment,
    on_syn_sent, on_synchronised, peer_alive, refuse, reset_by_peer, scaled, take_ack, take_fin,
    take_payload, TcbView,
};
use crate::wire::{flags, parse_packet, SegmentView};
use vstd::prelude::*;

verus! {

/// The send side has not moved.
pub open spec fn unmoved(s: TcbView, t: TcbView) -> bool {
    t.snd_una == s.snd_una && t.send_ring == s.send_ring && t.state == s.state
}

/// A bare acknowledgement.
pub open spec fn bare_ack(g: SegmentView) -> bool {
    &&& g.payload.len() == 0
    &&& g.has(flags::ACK) && !g.has(flags::FIN) && !g.has(flags::RST)
}

proof fn lemma_stale_ack_stays(s: TcbView, g: SegmentView)
    requires
        sound(s),
        synchronized(s.state),
        bare_ack(g),
        seq_gt(g.ack, s.snd_max) || seq_le(g.ack, s.snd_una),
    ensures
        unmoved(s, on_synchronised(s, g)),
        seq_gt(g.ack, s.snd_max) ==> on_synchronised(s, g).snd_wnd == s.snd_wnd,
        !seq_gt(g.ack, s.snd_max) ==> on_synchronised(s, g).snd_wnd == s.snd_wnd
            || on_synchronised(s, g).snd_wnd == scaled(s, g.window),
{
    reveal(on_synchronised);
    let t = note_marks(s, g);
    assert(sound(t) && unmoved(s, t) && t.snd_wnd == s.snd_wnd && t.snd_max == s.snd_max
        && t.snd_wscale == s.snd_wscale) by {
        reveal(note_marks);
    }
    lemma_take_ack_stays(t, g);
    let k = take_ack(t, g);
    reveal(refuse);
    lemma_pure_ack(t);
    lemma_pure_ack(k);
    reveal(accept);
    reveal(take_payload);
    reveal(take_fin);
    lemma_answer_send(k, g, k.rcv_nxt != t.rcv_nxt, false);
    lemma_send_data(answer(k, g, k.rcv_nxt != t.rcv_nxt, false));
}

/// A bare acknowledgement of data that was never sent, or of nothing new, moves
/// nothing on the send side: no byte is taken off what is buffered. One of data
/// that was never sent does not even change the window.
pub proof fn law_stale_ack_moves_nothing(s: TcbView, b: Seq<u8>)
    requires
        sound(s),
        synchronized(s.state),
        parse_packet(b) matches Some(g) ==> bare_ack(g) && (seq_gt(g.ack, s.snd_max) || seq_le(
            g.ack,
            s.snd_una,
        )),
    ensures
        unmoved(s, injected(s, b).0),
        parse_packet(b) matches Some(g) ==> (injected(s, b).0.snd_wnd == s.snd_wnd || !seq_gt(
            g.ack,
            s.snd_max,
        ) && injected(s, b).0.snd_wnd == scaled(s, g.window)),
{
    if let Some(g) = parse_packet(b) {
        if for_us(s, g) {
            lemma_stale_ack_stays(s, g);
            reveal(on_segment);
            reveal(peer_alive);
        }
    }
}

/// Nothing that was acknowledged is ever taken back, and nothing that was not sent
/// is taken to be acknowledged: the oldest unacknowledged byte moves forward within
/// what is outstanding, or stays.
pub proof fn law_una_moves_within_what_is_outstanding(s: TcbView, b: Seq<u8>)
    requires
        sound(s),
        synchronized(s.state),
    ensures
        injected(s, b).0.snd_una.wrapping_sub(s.snd_una) <= outstanding(s),
{
    if let Some(g) = parse_packet(b) {
        if for_us(s, g) {
            reveal(on_segment);
            reveal(peer_alive);
            reveal(on_reset);
            reveal(reset_by_peer);
            reveal(on_synchronised);
            let t = note_marks(s, g);
            assert(sound(t) && t.snd_una == s.snd_una && outstanding(t) == outstanding(s) && t.state
                == s.state) by {
                reveal(note_marks);
            }
            lemma_take_ack_sound(t, g);
            let k = take_ack(t, g);
            reveal(refuse);
            lemma_pure_ack(t);
            lemma_pure_ack(k);
            reveal(accept);
            let a = if g.has(flags::ACK) {
                k
            } else {
                t
            };
            lemma_take_payload_send(a, g);
            let (p, filled) = take_payload(a, g);
            let c = take_fin(p, g);
            assert(c.snd_una == p.snd_una) by {
                reveal(take_fin);
                reveal(fin_received);
            }
            lemma_answer_send(c, g, c.rcv_nxt != t.rcv_nxt, filled);
            lemma_send_data(answer(c, g, c.rcv_nxt != t.rcv_nxt, filled));
        }
    }
}

/// No internal error escapes: a datagram is taken or refused as malformed, as not
/// for the connection, or because there is none, and a write is taken or refused
/// because of the state or for want of room.
pub proof fn law_only_expected_errors(s: TcbView, b: Seq<u8>, data: Seq<u8>)
    ensures
        injected(s, b).1 matches Err(e) ==> e == TcpError::MalformedPacket || e
            == TcpError::NotForUs || e == TcpError::InvalidState,
        app_send(s, data).1 matches Err(e) ==> e == TcpError::InvalidState || e
            == TcpError::WouldBlock,
{
    reveal(on_segment);
    reveal(on_reset);
    reveal(on_syn_sent);
}

} // verus!
