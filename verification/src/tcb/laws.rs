//! What a connection keeps, whatever happens to it.

pub mod acking;
pub mod answers;
pub mod budget;
pub mod calls;
pub mod checks;
pub mod clocks;
pub mod closing;
pub mod cookies;
pub mod delivery;
pub mod dry;
pub mod flow;
pub mod frame;
pub mod inbound;
pub mod liveness;
pub mod losses;
pub mod marks;
pub mod network;
pub mod offers;
pub mod opening;
pub mod outbound;
pub mod patience;
pub mod places;
pub mod progress;
pub mod reactions;
pub mod receipts;
pub mod records;
pub mod refusals;
pub mod resending;
pub mod round_trips;
pub mod segments;
pub mod sending;
pub mod soundness;
pub mod staged;
pub mod stream;
pub mod timers;
pub mod transitions;
pub mod upkeep;
pub mod windows;
pub mod writing;
