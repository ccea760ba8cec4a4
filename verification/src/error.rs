//! Error codes, each with its negative `i32` status code for foreign hosts.

use vstd::prelude::*;

verus! {

/// Errors returned by the stack.
#[derive(Copy, Clone, Debug, PartialEq, Eq, Structural)]
pub enum TcpError {
    /// The supplied buffer was too small for the requested operation.
    BufferTooSmall,
    /// A null pointer was passed across the foreign interface.
    NullPointer,
    /// The connection is in a state that cannot service the request.
    InvalidState,
    /// Inbound packet is malformed (truncated header, bad checksum, and so on).
    MalformedPacket,
    /// Inbound packet is well formed but does not belong to this connection.
    NotForUs,
    /// Local send ring is full and would block.
    WouldBlock,
    /// Connection has been reset by the peer or aborted locally.
    ConnectionReset,
    /// Peer closed cleanly and all buffered data has been consumed.
    ConnectionClosed,
    /// Numeric conversion or arithmetic boundary error.
    Overflow,
}

/// The status code of each error: `-1` to `-9` in declaration order.
pub open spec fn error_code(e: TcpError) -> int {
    match e {
        TcpError::BufferTooSmall => -1,
        TcpError::NullPointer => -2,
        TcpError::InvalidState => -3,
        TcpError::MalformedPacket => -4,
        TcpError::NotForUs => -5,
        TcpError::WouldBlock => -6,
        TcpError::ConnectionReset => -7,
        TcpError::ConnectionClosed => -8,
        TcpError::Overflow => -9,
    }
}

impl TcpError {
    /// The negative status code surfaced to foreign hosts.
    pub fn as_code(self) -> (code: i32)
        ensures
            code == error_code(self),
    {
        match self {
            TcpError::BufferTooSmall => -1,
            TcpError::NullPointer => -2,
            TcpError::InvalidState => -3,
            TcpError::MalformedPacket => -4,
            TcpError::NotForUs => -5,
            TcpError::WouldBlock => -6,
            TcpError::ConnectionReset => -7,
            TcpError::ConnectionClosed => -8,
            TcpError::Overflow => -9,
        }
    }
}

/// No two errors share a status code, and every code is negative, so a code
/// identifies its error and is never mistaken for a byte count.
pub proof fn law_error_codes_are_distinct(a: TcpError, b: TcpError)
    ensures
        error_code(a) < 0,
        error_code(a) == error_code(b) ==> a == b,
{
}

} // verus!
