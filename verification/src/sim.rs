//! Two connections joined in memory.
//!
//! The pieces from which the self-test and the transfers over a bad link are made:
//! streams of known bytes, links that lose, repeat and delay packets, and the
//! random numbers and input bytes that decide what a link does.

use vstd::prelude::*;

pub mod chaos;
pub mod engine;
pub mod exact;
pub mod idle;
pub mod link;
pub mod net;
pub mod pair;
pub mod rng;
pub mod stream;
pub mod transfer;

verus! {

/// Initial sequence number of the client.
pub const CLI_ISS: u32 = 0x1111_1111;

/// Initial sequence number of the server.
pub const SRV_ISS: u32 = 0x9999_9999;

/// Which pattern the client sends.
pub const CLI_STREAM: u32 = 0x0000_0001;

/// Which pattern the server sends.
pub const SRV_STREAM: u32 = 0x8000_0001;

} // verus!
