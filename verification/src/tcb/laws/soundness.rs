//! The send variables stay consistent: [`sound`] holds from the start and through
//! every call, and implies that no consistency condition is broken.

use crate::state::State;
use crate::tcb::model::{breach, flight, TcbView};
use crate::tcb::{DEFAULT_PEER_MSS, RTO_MAX_MS, RTO_MIN_MS};
use crate::MSS;
use vstd::prelude::*;

verus! {

/// Sequence numbers sent and not acknowledged.
pub open spec fn outstanding(s: TcbView) -> int {
    s.snd_max.wrapping_sub(s.snd_una) as int
}

/// Nothing is outstanding, and a FIN that was sent is acknowledged.
pub open spec fn settled(s: TcbView) -> bool {
    &&& outstanding(s) == 0
    &&& s.fin_sent ==> s.snd_una == s.fin_seq.wrapping_add(1)
}

/// Nothing is outstanding or buffered, and a FIN that was sent is acknowledged.
pub open spec fn at_rest(s: TcbView) -> bool {
    settled(s) && s.send_ring.len() == 0
}

/// Nothing is outstanding, and what may still be buffered will not be sent.
pub open spec fn shut(s: TcbView) -> bool {
    settled(s) && (s.send_ring.len() > 0 ==> s.persist_deadline is None)
}

/// At most our SYN is outstanding, and nothing is buffered.
pub open spec fn in_handshake(s: TcbView) -> bool {
    &&& s.snd_una == s.iss
    &&& s.snd_nxt == s.snd_max
    &&& outstanding(s) <= 1
    &&& s.send_ring.len() == 0
    &&& !s.fin_sent
    &&& !s.cc.in_recovery
    &&& s.tlp_deadline is None
    &&& s.rack_deadline is None
}

/// Recovery is about something that is outstanding.
pub open spec fn recovery_ok(s: TcbView) -> bool {
    s.cc.in_recovery ==> 0 < s.cc.recovery_point.wrapping_sub(s.snd_una) <= outstanding(s)
}

/// Everything outstanding is buffered.
pub open spec fn all_buffered(s: TcbView) -> bool {
    !s.fin_sent && outstanding(s) <= s.send_ring.len() && recovery_ok(s)
}

/// Everything outstanding is buffered, or it is our FIN alone.
pub open spec fn finishing(s: TcbView) -> bool {
    ||| all_buffered(s)
    ||| s.fin_sent && s.send_ring.len() == 0 && s.snd_una == s.fin_seq && outstanding(s) == 1
        && recovery_ok(s)
}

/// The sequence variables of the send side agree with the state, with what is
/// buffered and with the timers that run.
pub open spec fn consistent(s: TcbView) -> bool {
    &&& s.cap <= 0x4000_0000
    &&& RTO_MIN_MS <= s.rto_ms <= RTO_MAX_MS
    &&& s.local_mss == MSS && s.peer_mss >= DEFAULT_PEER_MSS
    &&& s.cc.cwnd > 0 && (s.cc.in_recovery ==> s.cc.ssthresh > 0)
    &&& s.send_ring.len() <= s.cap
    &&& flight(s) <= outstanding(s)
    &&& s.rto_deadline is Some || s.tlp_deadline is Some ==> outstanding(s) > 0
    &&& s.time_wait_deadline is Some ==> s.state is TimeWait
    &&& match s.state {
        State::Closed => shut(s),
        State::Listen => at_rest(s) && !s.fin_sent,
        State::SynSent => in_handshake(s),
        State::SynRcvd => in_handshake(s) && outstanding(s) == 1,
        State::Established | State::CloseWait => all_buffered(s),
        State::FinWait1 | State::Closing | State::LastAck => finishing(s),
        State::FinWait2 | State::TimeWait => at_rest(s) && s.fin_sent,
    }
}

/// The send side is consistent, and the retransmission timer runs while anything is
/// in flight and while recovery waits for our FIN to be acknowledged.
pub open spec fn sound(s: TcbView) -> bool {
    &&& consistent(s)
    &&& flight(s) > 0 ==> s.rto_deadline is Some
    &&& s.fin_sent && s.cc.in_recovery && outstanding(s) > 0 ==> s.rto_deadline is Some
}

/// A sound connection breaks no consistency condition.
pub proof fn law_sound_breaks_nothing(s: TcbView)
    requires
        sound(s),
    ensures
        breach(s) is None,
{
}

} // verus!
