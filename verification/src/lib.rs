//! A sans-I/O user-space TCP stack.
//!
//! The stack owns no clock, no socket and no thread: a host hands it inbound
//! IPv4 datagrams and the current time, and drains the datagrams that it wants
//! sent. Active opens ([`Tcb::connect`]) and passive opens ([`Tcb::listen`],
//! optionally behind SYN cookies) are supported.

use vstd::prelude::*;

pub mod congestion;
pub mod error;
pub mod handle;
pub mod num;
pub mod rack;
pub mod reassembly;
pub mod ring;
pub mod scoreboard;
pub mod selftest;
pub mod send_queue;
pub mod seq;
pub mod server;
pub mod sim;
pub mod state;
pub mod tcb;
pub mod tx_ring;
pub mod wire;

pub use error::TcpError;
pub use state::State;
pub use tcb::{Endpoint, Tcb, TcbConfig};

verus! {

/// Standard maximum segment size for an Ethernet-class path.
pub const MSS: u16 = 1460;

/// Default per-direction ring buffer capacity, a power of two.
///
/// One MiB lets a connection fill about 80 ms at 100 Mbit/s before the receive
/// window throttles the sender.
pub const BUF_CAP: usize = 1_048_576;

/// Nominal out-of-order reassembly capacity, in bytes.
pub const REASM_CAP: usize = 16384;

/// Largest IPv4 datagram that the stack emits: 20 bytes of IPv4 header, 20
/// bytes of TCP header and one [`MSS`] of options and payload.
pub const MAX_PACKET: usize = 1500;

/// Counts one more turn of a loop in `iters` and says whether the budget of
/// `cap` turns is spent, in which case the caller stops the loop.
///
/// The loops that call it are proved to end well below their budget; the count
/// keeps a bound on the work per call visible in the code itself.
pub fn loop_budget_exhausted(iters: &mut u32, cap: u32, what: &str) -> (stop: bool)
    ensures
        *final(iters) == (*old(iters)).wrapping_add(1),
        stop == (*final(iters) > cap),
{
    *iters = iters.wrapping_add(1);
    *iters > cap
}

} // verus!
