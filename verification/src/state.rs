//! TCP connection states (RFC 9293 section 3.3.2) and what each one allows.

use vstd::prelude::*;

verus! {

/// State of one connection. Its one-byte form is [`State::as_byte`].
#[derive(Copy, Clone, Debug, PartialEq, Eq, Structural)]
pub enum State {
    /// No connection: the initial state, and the last one after a teardown.
    Closed,
    /// Active open: SYN sent, awaiting the SYN-ACK.
    SynSent,
    /// Three-way handshake complete; data flows both ways.
    Established,
    /// The application closed: FIN sent, awaiting its ACK and possibly a FIN.
    FinWait1,
    /// Our FIN was acknowledged; awaiting the peer's FIN.
    FinWait2,
    /// Simultaneous close: the peer's FIN arrived while ours was unacknowledged.
    Closing,
    /// Both FINs acknowledged; waiting out twice the segment lifetime.
    TimeWait,
    /// The peer sent its FIN first; awaiting the application's close.
    CloseWait,
    /// We sent our FIN from `CloseWait`; awaiting its ACK.
    LastAck,
    /// Passive open: bound to a local endpoint, awaiting a SYN.
    Listen,
    /// Passive open half way: SYN accepted, SYN-ACK sent, awaiting the ACK.
    SynRcvd,
}

/// The states past the synchronisation point: both sides agree on every
/// sequence variable.
pub open spec fn synchronized(s: State) -> bool {
    ||| s is Established
    ||| s is FinWait1
    ||| s is FinWait2
    ||| s is Closing
    ||| s is CloseWait
    ||| s is LastAck
    ||| s is TimeWait
}

/// The one-byte form of a state: its position in the declaration.
pub open spec fn state_byte(s: State) -> int {
    match s {
        State::Closed => 0,
        State::SynSent => 1,
        State::Established => 2,
        State::FinWait1 => 3,
        State::FinWait2 => 4,
        State::Closing => 5,
        State::TimeWait => 6,
        State::CloseWait => 7,
        State::LastAck => 8,
        State::Listen => 9,
        State::SynRcvd => 10,
    }
}

impl State {
    /// The one-byte form that crosses the foreign interface.
    pub fn as_byte(self) -> (b: u8)
        ensures
            b == state_byte(self),
    {
        match self {
            State::Closed => 0,
            State::SynSent => 1,
            State::Established => 2,
            State::FinWait1 => 3,
            State::FinWait2 => 4,
            State::Closing => 5,
            State::TimeWait => 6,
            State::CloseWait => 7,
            State::LastAck => 8,
            State::Listen => 9,
            State::SynRcvd => 10,
        }
    }

    /// Whether application data may be sent in this state.
    pub fn can_send(self) -> (b: bool)
        ensures
            b == (self is Established || self is CloseWait),
    {
        matches!(self, State::Established | State::CloseWait)
    }

    /// Whether application data may be received in this state.
    pub fn can_recv(self) -> (b: bool)
        ensures
            b == (self is Established || self is FinWait1 || self is FinWait2),
    {
        matches!(self, State::Established | State::FinWait1 | State::FinWait2)
    }

    /// Whether the connection is fully torn down.
    pub fn is_closed(self) -> (b: bool)
        ensures
            b == (self is Closed),
    {
        matches!(self, State::Closed)
    }

    /// Whether the connection is a passive listener, or half way through a
    /// passive open.
    pub fn is_listening(self) -> (b: bool)
        ensures
            b == (self is Listen || self is SynRcvd),
    {
        matches!(self, State::Listen | State::SynRcvd)
    }

    /// Whether the connection is past the synchronisation point.
    pub fn is_synchronized(self) -> (b: bool)
        ensures
            b == synchronized(self),
    {
        matches!(
            self,
            State::Established
                | State::FinWait1
                | State::FinWait2
                | State::Closing
                | State::CloseWait
                | State::LastAck
                | State::TimeWait
        )
    }
}

/// The edges of the connection state diagram (RFC 9293 section 3.3.2), with those
/// that two events at once take and those of a teardown. Every state may stay as it
/// is.
pub open spec fn legal_step(prev: State, next: State) -> bool {
    prev == next || match prev {
        State::Closed => next is SynSent || next is Listen,
        State::Listen => next is SynRcvd || next is Closed,
        State::SynRcvd => next is Established || next is Listen || next is FinWait1
            || next is Closed,
        State::SynSent => next is Established || next is Closed,
        State::Established => next is FinWait1 || next is CloseWait || next is Closed,
        State::FinWait1 => next is FinWait2 || next is Closing || next is TimeWait
            || next is Closed,
        State::FinWait2 => next is TimeWait || next is Closed,
        State::Closing => next is TimeWait || next is Closed,
        State::TimeWait => next is Closed,
        State::CloseWait => next is LastAck || next is Closed,
        State::LastAck => next is Closed,
    }
}

/// Whether a connection may go from one state to the other in one step.
pub fn allowed_transition(prev: State, next: State) -> (b: bool)
    ensures
        b == legal_step(prev, next),
{
    if prev == next {
        return true;
    }
    match prev {
        State::Closed => matches!(next, State::SynSent | State::Listen),
        State::Listen => matches!(next, State::SynRcvd | State::Closed),
        State::SynRcvd => matches!(
            next,
            State::Established | State::Listen | State::FinWait1 | State::Closed
        ),
        State::SynSent => matches!(next, State::Established | State::Closed),
        State::Established => matches!(next, State::FinWait1 | State::CloseWait | State::Closed),
        State::FinWait1 => matches!(
            next,
            State::FinWait2 | State::Closing | State::TimeWait | State::Closed
        ),
        State::FinWait2 => matches!(next, State::TimeWait | State::Closed),
        State::Closing => matches!(next, State::TimeWait | State::Closed),
        State::TimeWait => matches!(next, State::Closed),
        State::CloseWait => matches!(next, State::LastAck | State::Closed),
        State::LastAck => matches!(next, State::Closed),
    }
}

/// A state's byte identifies the state.
pub proof fn law_state_bytes_are_distinct(a: State, b: State)
    ensures
        0 <= state_byte(a) <= 10,
        state_byte(a) == state_byte(b) ==> a == b,
{
}

} // verus!
