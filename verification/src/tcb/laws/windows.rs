//! Windows, what is sent within them, and what the host is told.

use crate::scoreboard::covered;
use crate::scoreboard::laws::{above, in_window, law_first_hole_is_lowest};
use crate::tcb::events;
use crate::tcb::model::{
    event_bits, flight, lost_target, payload_mss, sendable, window_shift, TcbView,
};
use crate::MSS;
use vstd::prelude::*;

verus! {

/// New data never goes beyond the peer's window or the congestion window, nor
/// beyond what fits a segment.
pub proof fn law_new_data_respects_windows(s: TcbView)
    ensures
        sendable(s) > 0 ==> {
            &&& flight(s) + sendable(s) <= s.snd_wnd
            &&& flight(s) + sendable(s) <= s.cc.cwnd
            &&& sendable(s) <= payload_mss(s) <= MSS
            &&& flight(s) + sendable(s) <= s.send_ring.len()
        },
{
    reveal(sendable);
    reveal(payload_mss);
}

/// Of a queued loss only what the peer does not hold is sent again, at most a segment of
/// it, and from its lowest missing byte on. Nothing is when the peer holds all of it.
pub proof fn law_queued_loss_is_missing(s: TcbView, r: (u32, u32))
    requires
        in_window(s.board.ranges, s.snd_una, s.snd_max),
        above(r.0, s.snd_una) <= above(s.snd_max, s.snd_una),
        above(r.1, s.snd_una) <= above(s.snd_max, s.snd_una),
    ensures
        match lost_target(s, r) {
            Some((seq, n)) => {
                &&& n <= payload_mss(s)
                &&& above(r.0, s.snd_una) <= above(seq, s.snd_una)
                &&& above(seq, s.snd_una) + n <= above(r.1, s.snd_una)
                &&& forall|x: u32|
                    above(r.0, s.snd_una) <= above(x, s.snd_una) < above(seq, s.snd_una)
                        ==> #[trigger] covered(s.board.ranges, x)
                &&& forall|x: u32|
                    above(seq, s.snd_una) <= above(x, s.snd_una) < above(seq, s.snd_una) + n
                        ==> !#[trigger] covered(s.board.ranges, x)
            },
            None => forall|x: u32|
                above(r.0, s.snd_una) <= above(x, s.snd_una) < above(r.1, s.snd_una)
                    ==> #[trigger] covered(s.board.ranges, x),
        },
{
    reveal(lost_target);
    law_first_hole_is_lowest(s.board.ranges, r.0, r.1, s.snd_una, s.snd_max);
}

/// `x` halved `n` times.
pub open spec fn halved(x: nat, n: nat) -> nat
    decreases n,
{
    if n == 0 {
        x
    } else {
        halved(x / 2, (n - 1) as nat)
    }
}

/// The shift that we offer lets a full buffer fit the window field, and no smaller
/// one does.
pub proof fn law_window_shift_is_least(buf: nat)
    ensures
        halved(buf, window_shift(buf)) <= 0xFFFF,
        forall|k: nat| k < window_shift(buf) ==> #[trigger] halved(buf, k) > 0xFFFF,
    decreases buf,
{
    if buf > 0xFFFF {
        law_window_shift_is_least(buf / 2);
        assert forall|k: nat| k < window_shift(buf) implies #[trigger] halved(buf, k) > 0xFFFF by {
            if k > 0 {
                assert(halved(buf / 2, (k - 1) as nat) > 0xFFFF);
            }
        }
    }
}

/// Each event bit stands for exactly one thing.
pub proof fn law_event_bits_are_independent(s: TcbView)
    ensures
        event_bits(s) & events::READABLE != 0 <==> s.recv_ring.len() > 0,
        event_bits(s) & events::WRITABLE != 0 <==> (s.state is Established || s.state is CloseWait)
            && s.send_ring.len() < s.cap,
        event_bits(s) & events::ESTABLISHED != 0 <==> s.state is Established,
        event_bits(s) & events::PEER_CLOSED != 0 <==> s.state is CloseWait || s.state is LastAck
            || s.state is Closing || s.state is TimeWait,
        event_bits(s) & events::CLOSED != 0 <==> s.state is Closed,
        event_bits(s) & events::LISTENING != 0 <==> s.state is Listen,
        event_bits(s) & events::HALF_OPEN != 0 <==> s.state is SynRcvd,
        event_bits(s) & events::TX_PENDING != 0 <==> s.tx.len() > 0,
        event_bits(s) & events::ERROR != 0 <==> s.error is Some,
{
    let b1 = s.recv_ring.len() > 0;
    let b2 = (s.state is Established || s.state is CloseWait) && s.send_ring.len() < s.cap;
    let b3 = s.state is Established;
    let b4 = s.state is CloseWait || s.state is LastAck || s.state is Closing || s.state is TimeWait;
    let b5 = s.state is Closed;
    let b6 = s.state is Listen;
    let b7 = s.state is SynRcvd;
    let b8 = s.tx.len() > 0;
    let b9 = s.error is Some;
    let e0 = 0u32;
    let e1 = if b1 { e0 | 0x001 } else { e0 };
    let e2 = if b2 { e1 | 0x002 } else { e1 };
    let e3 = if b3 { e2 | 0x004 } else { e2 };
    let e4 = if b4 { e3 | 0x008 } else { e3 };
    let e5 = if b5 { e4 | 0x010 } else { e4 };
    let e6 = if b6 { e5 | 0x080 } else { e5 };
    let e7 = if b7 { e6 | 0x100 } else { e6 };
    let e8 = if b8 { e7 | 0x020 } else { e7 };
    let e9 = if b9 { e8 | 0x040 } else { e8 };
    assert(event_bits(s) == e9);
    assert((e9 & 0x001 != 0 <==> b1) && (e9 & 0x002 != 0 <==> b2) && (e9 & 0x004 != 0 <==> b3) && (
    e9 & 0x008 != 0 <==> b4) && (e9 & 0x010 != 0 <==> b5) && (e9 & 0x080 != 0 <==> b6) && (e9
        & 0x100 != 0 <==> b7) && (e9 & 0x020 != 0 <==> b8) && (e9 & 0x040 != 0 <==> b9))
        by (bit_vector)
        requires
            e0 == 0,
            e1 == (if b1 { e0 | 0x001u32 } else { e0 }),
            e2 == (if b2 { e1 | 0x002u32 } else { e1 }),
            e3 == (if b3 { e2 | 0x004u32 } else { e2 }),
            e4 == (if b4 { e3 | 0x008u32 } else { e3 }),
            e5 == (if b5 { e4 | 0x010u32 } else { e4 }),
            e6 == (if b6 { e5 | 0x080u32 } else { e5 }),
            e7 == (if b7 { e6 | 0x100u32 } else { e6 }),
            e8 == (if b8 { e7 | 0x020u32 } else { e7 }),
            e9 == (if b9 { e8 | 0x040u32 } else { e8 }),
    ;
}

} // verus!
