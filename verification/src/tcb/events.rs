//! Bits returned by [`crate::tcb::Tcb::poll`], stable across releases.

use vstd::prelude::*;

verus! {

/// Received data waits for the application.
pub const READABLE: u32 = 0x001;

/// The application may send.
pub const WRITABLE: u32 = 0x002;

/// The connection is established.
pub const ESTABLISHED: u32 = 0x004;

/// The peer has closed its half.
pub const PEER_CLOSED: u32 = 0x008;

/// The connection is closed.
pub const CLOSED: u32 = 0x010;

/// Packets wait for the host.
pub const TX_PENDING: u32 = 0x020;

/// The connection failed.
pub const ERROR: u32 = 0x040;

/// The connection waits for a SYN.
pub const LISTENING: u32 = 0x080;

/// A SYN was accepted and the SYN-ACK is in flight.
pub const HALF_OPEN: u32 = 0x100;

} // verus!
