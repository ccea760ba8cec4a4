//! Smaller and larger of two numbers.

use vstd::prelude::*;

verus! {

/// The smaller of two integers.
pub open spec fn min(a: int, b: int) -> int {
    if a <= b {
        a
    } else {
        b
    }
}

/// The larger of two integers.
pub open spec fn max(a: int, b: int) -> int {
    if a >= b {
        a
    } else {
        b
    }
}

pub fn min_usize(a: usize, b: usize) -> (m: usize)
    ensures
        m == min(a as int, b as int),
{
    if a <= b {
        a
    } else {
        b
    }
}

pub fn min_u32(a: u32, b: u32) -> (m: u32)
    ensures
        m == min(a as int, b as int),
{
    if a <= b {
        a
    } else {
        b
    }
}

pub fn max_u32(a: u32, b: u32) -> (m: u32)
    ensures
        m == max(a as int, b as int),
{
    if a >= b {
        a
    } else {
        b
    }
}

pub fn max_u64(a: u64, b: u64) -> (m: u64)
    ensures
        m == max(a as int, b as int),
{
    if a >= b {
        a
    } else {
        b
    }
}

/// `x` times `k`, or the largest value where that is too much.
pub fn saturating_times(x: u32, k: u32) -> (r: u32)
    ensures
        r == min(x * k, u32::MAX as int),
{
    assert(0 <= x * k <= 0xFFFF_FFFF * 0xFFFF_FFFF) by (nonlinear_arith)
        requires
            0 <= x <= 0xFFFF_FFFF,
            0 <= k <= 0xFFFF_FFFF,
    ;
    let wide: u64 = x as u64 * k as u64;
    if wide > u32::MAX as u64 {
        u32::MAX
    } else {
        wide as u32
    }
}

} // verus!
