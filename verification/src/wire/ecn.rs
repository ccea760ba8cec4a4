//! Explicit congestion notification codepoints: the low two bits of the IPv4
//! traffic-class byte (RFC 3168).

use vstd::prelude::*;

verus! {

/// Not ECN-capable transport.
pub const NOT_ECT: u8 = 0x00;

/// ECN-capable transport, codepoint 1.
pub const ECT_1: u8 = 0x01;

/// ECN-capable transport, codepoint 0.
pub const ECT_0: u8 = 0x02;

/// Congestion experienced.
pub const CE: u8 = 0x03;

/// The bits of the traffic-class byte that hold the codepoint.
pub const MASK: u8 = 0x03;

} // verus!
