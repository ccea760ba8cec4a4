//! Result codes of the self-test, stable across releases.

use vstd::prelude::*;

verus! {

/// Both transfers completed and both sides closed cleanly.
pub const OK: i32 = 0;

/// A connection could not be created.
pub const INIT_FAILED: i32 = -1;

/// A connection could not be opened.
pub const SETUP_FAILED: i32 = -2;

/// A received byte was not the one that was sent.
pub const DATA_MISMATCH: i32 = -3;

/// The transfers did not complete within the bound.
pub const NO_CONVERGENCE: i32 = -4;

/// A step failed that cannot fail.
pub const INTERNAL_ERROR: i32 = -5;

} // verus!
