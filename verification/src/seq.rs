//! Serial-number arithmetic on 32-bit sequence numbers (RFC 1982).
//!
//! Two sequence numbers are ordered by the signed distance between them, taken
//! modulo `2^32`: `a` is after `b` when the shorter way round leads from `b`
//! forward to `a`.

use vstd::prelude::*;

verus! {

/// Signed distance from `b` to `a`: the one integer in `[-2^31, 2^31)` that is
/// congruent to `a - b` modulo `2^32`.
pub open spec fn seq_diff(a: u32, b: u32) -> int {
    let d = a - b;
    if d >= 0x8000_0000 {
        d - 0x1_0000_0000
    } else if d < -0x8000_0000 {
        d + 0x1_0000_0000
    } else {
        d
    }
}

proof fn lemma_as_i32(d: u32)
    ensures
        d < 0x8000_0000 ==> d as i32 == d,
        d >= 0x8000_0000 ==> d as i32 == d - 0x1_0000_0000,
{
    assert(d < 0x8000_0000 ==> d as i32 == d) by (bit_vector);
    assert(d >= 0x8000_0000 ==> d as i32 == d - 0x1_0000_0000) by (bit_vector);
}

/// `a` is strictly after `b`.
#[verifier::allow_in_spec]
pub fn seq_gt(a: u32, b: u32) -> bool
    returns
        seq_diff(a, b) > 0,
{
    proof {
        lemma_as_i32(a.wrapping_sub(b));
    }
    (a.wrapping_sub(b) as i32) > 0
}

/// `a` is `b` or after it.
#[verifier::allow_in_spec]
pub fn seq_ge(a: u32, b: u32) -> bool
    returns
        seq_diff(a, b) >= 0,
{
    proof {
        lemma_as_i32(a.wrapping_sub(b));
    }
    (a.wrapping_sub(b) as i32) >= 0
}

/// `a` is `b` or before it.
#[verifier::allow_in_spec]
pub fn seq_le(a: u32, b: u32) -> bool
    returns
        seq_diff(a, b) <= 0,
{
    proof {
        lemma_as_i32(a.wrapping_sub(b));
    }
    (a.wrapping_sub(b) as i32) <= 0
}

/// `a` is strictly before `b`.
#[verifier::allow_in_spec]
pub fn seq_lt(a: u32, b: u32) -> bool
    returns
        seq_diff(a, b) < 0,
{
    proof {
        lemma_as_i32(a.wrapping_sub(b));
    }
    (a.wrapping_sub(b) as i32) < 0
}

/// `x` lies in the half-open range from `lo` forward to `hi_exclusive`.
#[verifier::allow_in_spec]
pub fn seq_in_range(x: u32, lo: u32, hi_exclusive: u32) -> bool
    returns
        x.wrapping_sub(lo) < hi_exclusive.wrapping_sub(lo),
{
    x.wrapping_sub(lo) < hi_exclusive.wrapping_sub(lo)
}

/// Order is antisymmetric: nothing is before itself, and `a` before `b` excludes
/// `b` before `a`. (Numbers exactly half the space apart are each before the
/// other by the signed distance, and are left out.)
pub proof fn law_seq_lt_is_antisymmetric(a: u32, b: u32)
    requires
        a.wrapping_sub(b) != 0x8000_0000,
    ensures
        !seq_lt(a, a),
        !seq_gt(a, a),
        seq_lt(a, b) ==> seq_gt(b, a) && !seq_lt(b, a),
        seq_gt(a, b) ==> seq_lt(b, a) && !seq_gt(b, a),
        seq_lt(a, b) || a == b || seq_gt(a, b),
{
}

/// The order survives wrap-around: a number is before every number up to
/// `2^31 - 1` ahead of it, and after every number as far behind it.
pub proof fn law_seq_wraparound_consistent(a: u32, ahead: u32)
    requires
        0 < ahead < 0x8000_0000,
    ensures
        seq_lt(a, a.wrapping_add(ahead)),
        seq_gt(a, a.wrapping_sub(ahead)),
        seq_diff(a.wrapping_add(ahead), a) == ahead,
{
}

/// Over spans shorter than half the space the order is transitive and distances
/// add up.
pub proof fn law_seq_distances_add(a: u32, b: u32, c: u32)
    requires
        -0x8000_0000 <= seq_diff(c, b) + seq_diff(b, a) < 0x8000_0000,
    ensures
        seq_diff(c, a) == seq_diff(c, b) + seq_diff(b, a),
        seq_ge(b, a) && seq_ge(c, b) ==> seq_ge(c, a),
{
}

} // verus!
