//! TCP header flag bits.

use vstd::prelude::*;

verus! {

pub const FIN: u8 = 0x01;

pub const SYN: u8 = 0x02;

pub const RST: u8 = 0x04;

pub const PSH: u8 = 0x08;

pub const ACK: u8 = 0x10;

pub const URG: u8 = 0x20;

pub const ECE: u8 = 0x40;

pub const CWR: u8 = 0x80;

} // verus!
