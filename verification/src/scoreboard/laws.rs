//! What the scoreboard keeps from one block to the next.
//!
//! The laws speak of ranges inside a window `[lo, hi]` of sequence numbers that
//! is shorter than half the space, where the serial order is a plain order.

use crate::scoreboard::{
    absorb, before, bytes_above, bytes_shared, cascade, clip_below, clip_to_window, covered,
    first_holding, first_hole, first_touching, highest, hole_end, insert_sorted, lost,
    newly_covered, next_lost, offset, overlap_or_adjacent, part_above, pruned, range_has, shared,
    sorted, union_of, Range, SCOREBOARD_CAP,
};
use crate::seq::{seq_diff, seq_lt};
use vstd::prelude::*;

verus! {

/// Distance of `x` above `lo`.
pub open spec fn above(x: u32, lo: u32) -> int {
    x.wrapping_sub(lo) as int
}

/// `r` is not empty and lies in the window.
pub open spec fn range_in_window(r: Range, lo: u32, hi: u32) -> bool {
    &&& above(hi, lo) < 0x8000_0000
    &&& above(r.left, lo) < above(r.right, lo) <= above(hi, lo)
}

/// Every range lies in the window, and the window is shorter than half the
/// sequence space.
pub open spec fn in_window(rs: Seq<Range>, lo: u32, hi: u32) -> bool {
    &&& above(hi, lo) < 0x8000_0000
    &&& forall|i: int| 0 <= i < rs.len() ==> range_in_window(#[trigger] rs[i], lo, hi)
}

/// No two ranges overlap or touch.
pub open spec fn apart(rs: Seq<Range>) -> bool {
    forall|i: int, j: int|
        0 <= i < j < rs.len() ==> !overlap_or_adjacent(#[trigger] rs[i], #[trigger] rs[j])
}

/// The ranges rise.
pub open spec fn rising(rs: Seq<Range>, una: u32) -> bool {
    forall|i: int, j: int|
        0 <= i < j < rs.len() ==> offset(#[trigger] rs[i], una) <= offset(#[trigger] rs[j], una)
}

/// `outer` holds all of `inner`.
pub open spec fn encloses(outer: Range, inner: Range, lo: u32) -> bool {
    above(outer.left, lo) <= above(inner.left, lo) && above(inner.right, lo) <= above(
        outer.right,
        lo,
    )
}

/// Some range of `rs` holds all of `inner`.
pub open spec fn enclosed(rs: Seq<Range>, inner: Range, lo: u32) -> bool {
    exists|k: int| 0 <= k < rs.len() && encloses(#[trigger] rs[k], inner, lo)
}

/// Inside the window the serial order is the order of the distances.
pub proof fn lemma_window_order(x: u32, y: u32, lo: u32)
    requires
        above(x, lo) < 0x8000_0000,
        above(y, lo) < 0x8000_0000,
    ensures
        seq_diff(x, y) == above(x, lo) - above(y, lo),
{
}

proof fn lemma_union(a: Range, b: Range, lo: u32, hi: u32)
    requires
        range_in_window(a, lo, hi),
        range_in_window(b, lo, hi),
        overlap_or_adjacent(a, b),
    ensures
        range_in_window(union_of(a, b), lo, hi),
        encloses(union_of(a, b), a, lo),
        encloses(union_of(a, b), b, lo),
        forall|x: u32| #[trigger]
            range_has(union_of(a, b), x) == (range_has(a, x) || range_has(b, x)),
{
    lemma_window_order(a.left, b.left, lo);
    lemma_window_order(a.right, b.right, lo);
    lemma_window_order(a.left, b.right, lo);
    lemma_window_order(b.left, a.right, lo);
}

proof fn lemma_touch_symmetric(a: Range, b: Range)
    ensures
        overlap_or_adjacent(a, b) == overlap_or_adjacent(b, a),
{
}

proof fn lemma_first_touching(rs: Seq<Range>, r: Range, skip: int, from: int)
    requires
        0 <= from <= rs.len(),
    ensures
        ({
            let j = first_touching(rs, r, skip, from);
            &&& from <= j <= rs.len()
            &&& j < rs.len() ==> j != skip && overlap_or_adjacent(r, rs[j])
            &&& forall|k: int|
                from <= k < j && k != skip ==> !overlap_or_adjacent(r, #[trigger] rs[k])
        }),
    decreases rs.len() - from,
{
    if from < rs.len() && !(from != skip && overlap_or_adjacent(r, rs[from])) {
        lemma_first_touching(rs, r, skip, from + 1);
    }
}

proof fn lemma_insert_sorted(rs: Seq<Range>, r: Range, una: u32)
    ensures
        insert_sorted(rs, r, una).len() == rs.len() + 1,
        forall|x: Range| #[trigger]
            insert_sorted(rs, r, una).contains(x) <==> (rs.contains(x) || x == r),
        apart(rs) && (forall|k: int|
            0 <= k < rs.len() ==> !overlap_or_adjacent(r, #[trigger] rs[k])) ==> apart(
            insert_sorted(rs, r, una),
        ),
        rising(rs, una) ==> rising(insert_sorted(rs, r, una), una),
    decreases rs.len(),
{
    let out = insert_sorted(rs, r, una);
    if rs.len() == 0 || offset(rs.last(), una) <= offset(r, una) {
        assert(out == rs.push(r));
        assert(out[rs.len() as int] == r);
        assert forall|x: Range| #[trigger] out.contains(x) <==> (rs.contains(x) || x == r) by {
            if rs.contains(x) {
                let k = choose|k: int| 0 <= k < rs.len() && rs[k] == x;
                assert(out[k] == x);
            }
        }
        if rising(rs, una) {
            assert forall|i: int, j: int| 0 <= i < j < out.len() implies offset(
                #[trigger] out[i],
                una,
            ) <= offset(#[trigger] out[j], una) by {
                if j == rs.len() && rs.len() > 0 {
                    assert(offset(rs[i], una) <= offset(rs[rs.len() - 1], una));
                }
            }
        }
    } else {
        let front = rs.drop_last();
        let mid = insert_sorted(front, r, una);
        lemma_insert_sorted(front, r, una);
        assert(out == mid.push(rs.last()));
        assert forall|x: Range| #[trigger] out.contains(x) <==> (rs.contains(x) || x == r) by {
            if rs.contains(x) || x == r {
                if x == rs.last() {
                    assert(out[rs.len() as int] == x);
                } else {
                    if rs.contains(x) {
                        let k = choose|k: int| 0 <= k < rs.len() && rs[k] == x;
                        assert(front[k] == x);
                    }
                    assert(mid.contains(x));
                    let k = choose|k: int| 0 <= k < mid.len() && mid[k] == x;
                    assert(out[k] == x);
                }
            }
            if out.contains(x) {
                let k = choose|k: int| 0 <= k < out.len() && out[k] == x;
                if k < mid.len() {
                    assert(mid[k] == x);
                    assert(mid.contains(x));
                    if front.contains(x) {
                        let m = choose|m: int| 0 <= m < front.len() && front[m] == x;
                        assert(rs[m] == x);
                    }
                } else {
                    assert(rs[rs.len() - 1] == x);
                }
            }
        }
        if apart(rs) && (forall|k: int|
            0 <= k < rs.len() ==> !overlap_or_adjacent(r, #[trigger] rs[k])) {
            assert(apart(front));
            assert forall|k: int| 0 <= k < front.len() implies !overlap_or_adjacent(
                r,
                #[trigger] front[k],
            ) by {
                assert(front[k] == rs[k]);
            }
            assert forall|i: int, j: int| 0 <= i < j < out.len() implies !overlap_or_adjacent(
                #[trigger] out[i],
                #[trigger] out[j],
            ) by {
                if j == mid.len() {
                    assert(mid.contains(mid[i]));
                    if front.contains(mid[i]) {
                        let m = choose|m: int| 0 <= m < front.len() && front[m] == mid[i];
                        assert(rs[m] == mid[i]);
                        assert(!overlap_or_adjacent(rs[m], rs[rs.len() - 1]));
                    } else {
                        assert(mid[i] == r);
                        assert(!overlap_or_adjacent(r, rs[rs.len() - 1]));
                    }
                } else {
                    assert(!overlap_or_adjacent(mid[i], mid[j]));
                }
            }
        }
        if rising(rs, una) {
            assert(rising(front, una));
            assert forall|i: int, j: int| 0 <= i < j < out.len() implies offset(
                #[trigger] out[i],
                una,
            ) <= offset(#[trigger] out[j], una) by {
                if j == mid.len() {
                    assert(mid.contains(mid[i]));
                    if front.contains(mid[i]) {
                        let m = choose|m: int| 0 <= m < front.len() && front[m] == mid[i];
                        assert(offset(rs[m], una) <= offset(rs[rs.len() - 1], una));
                    }
                }
            }
        }
    }
}

/// Sorting keeps the ranges and puts them in order.
pub proof fn lemma_sorted(rs: Seq<Range>, una: u32)
    ensures
        sorted(rs, una).len() == rs.len(),
        forall|x: Range| #[trigger] sorted(rs, una).contains(x) <==> rs.contains(x),
        apart(rs) ==> apart(sorted(rs, una)),
        rising(sorted(rs, una), una),
    decreases rs.len(),
{
    if rs.len() > 0 {
        let front = rs.drop_last();
        let done = sorted(front, una);
        lemma_sorted(front, una);
        lemma_insert_sorted(done, rs.last(), una);
        assert forall|x: Range| #[trigger] sorted(rs, una).contains(x) <==> rs.contains(x) by {
            if rs.contains(x) {
                let k = choose|k: int| 0 <= k < rs.len() && rs[k] == x;
                if k < front.len() {
                    assert(front[k] == x);
                    assert(front.contains(x));
                }
            }
            if front.contains(x) {
                let k = choose|k: int| 0 <= k < front.len() && front[k] == x;
                assert(rs[k] == x);
            }
            assert(rs[rs.len() - 1] == rs.last());
        }
        if apart(rs) {
            assert(apart(front));
            assert forall|k: int| 0 <= k < done.len() implies !overlap_or_adjacent(
                rs.last(),
                #[trigger] done[k],
            ) by {
                assert(done.contains(done[k]));
                assert(front.contains(done[k]));
                let m = choose|m: int| 0 <= m < front.len() && front[m] == done[k];
                assert(!overlap_or_adjacent(rs[m], rs[rs.len() - 1]));
            }
        }
    }
}

proof fn lemma_sorted_keeps(rs: Seq<Range>, una: u32, lo: u32, hi: u32)
    requires
        in_window(rs, lo, hi),
    ensures
        in_window(sorted(rs, una), lo, hi),
        forall|x: u32| #[trigger] covered(sorted(rs, una), x) == covered(rs, x),
        forall|r: Range| #[trigger] enclosed(rs, r, lo) ==> enclosed(sorted(rs, una), r, lo),
{
    let out = sorted(rs, una);
    lemma_sorted(rs, una);
    assert forall|i: int| 0 <= i < out.len() implies range_in_window(#[trigger] out[i], lo, hi) by {
        assert(out.contains(out[i]));
        let k = choose|k: int| 0 <= k < rs.len() && rs[k] == out[i];
        assert(range_in_window(rs[k], lo, hi));
    }
    assert forall|x: u32| #[trigger] covered(out, x) == covered(rs, x) by {
        if covered(out, x) {
            let i = choose|i: int| 0 <= i < out.len() && range_has(#[trigger] out[i], x);
            assert(out.contains(out[i]));
            let k = choose|k: int| 0 <= k < rs.len() && rs[k] == out[i];
            assert(range_has(rs[k], x));
        }
        if covered(rs, x) {
            let i = choose|i: int| 0 <= i < rs.len() && range_has(#[trigger] rs[i], x);
            assert(rs.contains(rs[i]));
            assert(out.contains(rs[i]));
            let k = choose|k: int| 0 <= k < out.len() && out[k] == rs[i];
            assert(range_has(out[k], x));
        }
    }
    assert forall|r: Range| #[trigger] enclosed(rs, r, lo) implies enclosed(out, r, lo) by {
        let i = choose|i: int| 0 <= i < rs.len() && encloses(#[trigger] rs[i], r, lo);
        assert(rs.contains(rs[i]));
        assert(out.contains(rs[i]));
        let k = choose|k: int| 0 <= k < out.len() && out[k] == rs[i];
        assert(encloses(out[k], r, lo));
    }
}

/// No two ranges other than the one at `i` overlap or touch.
spec fn apart_but(rs: Seq<Range>, i: int) -> bool {
    forall|a: int, b: int|
        0 <= a < b < rs.len() && a != i && b != i ==> !overlap_or_adjacent(
            #[trigger] rs[a],
            #[trigger] rs[b],
        )
}

/// One step of a cascade: the range at `i` takes in the one at `j`, and the last
/// range moves into the gap.
spec fn merged(rs: Seq<Range>, i: int, j: int) -> Seq<Range> {
    let last = rs.len() - 1;
    let grown = rs.update(i, union_of(rs[i], rs[j]));
    grown.update(j, grown[last]).drop_last()
}

/// Where the range at `i` stands after that step.
spec fn moved(rs: Seq<Range>, i: int, j: int) -> int {
    if j < rs.len() - 1 && i == rs.len() - 1 {
        j
    } else {
        i
    }
}

proof fn lemma_merged_window(rs: Seq<Range>, i: int, j: int, lo: u32, hi: u32)
    requires
        in_window(rs, lo, hi),
        0 <= i < rs.len(),
        0 <= j < rs.len(),
        i != j,
        overlap_or_adjacent(rs[i], rs[j]),
    ensures
        in_window(merged(rs, i, j), lo, hi),
        0 <= moved(rs, i, j) < merged(rs, i, j).len(),
        merged(rs, i, j)[moved(rs, i, j)] == union_of(rs[i], rs[j]),
{
    let rest = merged(rs, i, j);
    lemma_union(rs[i], rs[j], lo, hi);
    assert forall|k: int| 0 <= k < rest.len() implies range_in_window(
        #[trigger] rest[k],
        lo,
        hi,
    ) by {
        let last = rs.len() - 1;
        if k == j {
            if i != last {
                assert(rest[k] == rs[last]);
            }
        } else if k != i {
            assert(rest[k] == rs[k]);
        }
    }
}

proof fn lemma_merged_coverage(rs: Seq<Range>, i: int, j: int, lo: u32, hi: u32, x: u32)
    requires
        in_window(rs, lo, hi),
        0 <= i < rs.len(),
        0 <= j < rs.len(),
        i != j,
        overlap_or_adjacent(rs[i], rs[j]),
    ensures
        covered(merged(rs, i, j), x) == covered(rs, x),
{
    let rest = merged(rs, i, j);
    let last = rs.len() - 1;
    let at = moved(rs, i, j);
    let u = union_of(rs[i], rs[j]);
    lemma_union(rs[i], rs[j], lo, hi);
    lemma_merged_window(rs, i, j, lo, hi);
    assert(range_has(u, x) == (range_has(rs[i], x) || range_has(rs[j], x)));
    if covered(rest, x) {
        let k = choose|k: int| 0 <= k < rest.len() && range_has(#[trigger] rest[k], x);
        if k == at {
            assert(range_has(rs[i], x) || range_has(rs[j], x));
        } else if k == j {
            assert(range_has(rs[last], x));
        } else {
            assert(range_has(rs[k], x));
        }
    }
    if covered(rs, x) {
        let k = choose|k: int| 0 <= k < rs.len() && range_has(#[trigger] rs[k], x);
        if k == i || k == j {
            assert(range_has(rest[at], x));
        } else if k == last {
            assert(rest[j] == rs[last]);
            assert(range_has(rest[j], x));
        } else {
            assert(range_has(rest[k], x));
        }
    }
}

proof fn lemma_merged_apart(rs: Seq<Range>, i: int, j: int)
    requires
        0 <= i < rs.len(),
        0 <= j < rs.len(),
        i != j,
        apart_but(rs, i),
    ensures
        apart_but(merged(rs, i, j), moved(rs, i, j)),
{
    let rest = merged(rs, i, j);
    let last = rs.len() - 1;
    let at = moved(rs, i, j);
    assert forall|a: int, b: int|
        0 <= a < b < rest.len() && a != at && b != at implies !overlap_or_adjacent(
        #[trigger] rest[a],
        #[trigger] rest[b],
    ) by {
        let a0 = if a == j {
            last
        } else {
            a
        };
        let b0 = if b == j {
            last
        } else {
            b
        };
        assert(rest[a] == rs[a0] && rest[b] == rs[b0]);
        assert(a0 != i && b0 != i && a0 != b0);
        if a0 < b0 {
            assert(!overlap_or_adjacent(rs[a0], rs[b0]));
        } else {
            assert(!overlap_or_adjacent(rs[b0], rs[a0]));
            lemma_touch_symmetric(rs[a0], rs[b0]);
        }
    }
}

proof fn lemma_cascade(rs: Seq<Range>, i: int, inner: Range, lo: u32, hi: u32)
    requires
        in_window(rs, lo, hi),
        0 <= i < rs.len(),
        encloses(rs[i], inner, lo),
    ensures
        in_window(cascade(rs, i), lo, hi),
        cascade(rs, i).len() <= rs.len(),
        forall|x: u32| #[trigger] covered(cascade(rs, i), x) == covered(rs, x),
        enclosed(cascade(rs, i), inner, lo),
        apart_but(rs, i) ==> apart(cascade(rs, i)),
    decreases rs.len(),
{
    let j = first_touching(rs, rs[i], i, 0);
    lemma_first_touching(rs, rs[i], i, 0);
    if j >= rs.len() {
        if apart_but(rs, i) {
            assert forall|a: int, b: int| 0 <= a < b < rs.len() implies !overlap_or_adjacent(
                #[trigger] rs[a],
                #[trigger] rs[b],
            ) by {
                if a == i {
                    assert(!overlap_or_adjacent(rs[i], rs[b]));
                } else if b == i {
                    assert(!overlap_or_adjacent(rs[i], rs[a]));
                    lemma_touch_symmetric(rs[i], rs[a]);
                }
            }
        }
        assert(encloses(rs[i], inner, lo));
    } else {
        let rest = merged(rs, i, j);
        let at = moved(rs, i, j);
        lemma_union(rs[i], rs[j], lo, hi);
        lemma_merged_window(rs, i, j, lo, hi);
        lemma_cascade(rest, at, inner, lo, hi);
        assert(cascade(rs, i) == cascade(rest, at));
        assert forall|x: u32| #[trigger] covered(cascade(rs, i), x) == covered(rs, x) by {
            lemma_merged_coverage(rs, i, j, lo, hi, x);
            assert(covered(cascade(rest, at), x) == covered(rest, x));
        }
        if apart_but(rs, i) {
            lemma_merged_apart(rs, i, j);
        }
    }
}

proof fn lemma_highest(rs: Seq<Range>, una: u32, n: int)
    requires
        0 <= n < rs.len(),
    ensures
        0 <= highest(rs, una, n) <= n,
    decreases n,
{
    if n > 0 {
        lemma_highest(rs, una, n - 1);
    }
}

/// A block clipped to the window lies in it.
pub proof fn lemma_clip_in_window(left: u32, right: u32, una: u32, top: u32)
    requires
        above(top, una) < 0x8000_0000,
    ensures
        clip_to_window(left, right, una, top) matches Some(r) ==> range_in_window(r, una, top),
{
}

/// Absorbing a block keeps every range in the window, the room bounded, and the
/// ranges in rising order.
pub proof fn law_absorb_keeps_window(rs: Seq<Range>, una: u32, r: Range, lo: u32, hi: u32)
    requires
        in_window(rs, lo, hi),
        range_in_window(r, lo, hi),
        rs.len() <= SCOREBOARD_CAP,
    ensures
        in_window(absorb(rs, una, r), lo, hi),
        absorb(rs, una, r).len() <= SCOREBOARD_CAP,
        rising(absorb(rs, una, r), una),
{
    let i = first_touching(rs, r, -1, 0);
    lemma_first_touching(rs, r, -1, 0);
    if i < rs.len() {
        lemma_touch_symmetric(r, rs[i]);
        lemma_union(rs[i], r, lo, hi);
        let start = rs.update(i, union_of(rs[i], r));
        lemma_cascade(start, i, r, lo, hi);
        lemma_sorted_keeps(cascade(start, i), una, lo, hi);
        lemma_sorted(cascade(start, i), una);
    } else if rs.len() < SCOREBOARD_CAP {
        lemma_sorted_keeps(rs.push(r), una, lo, hi);
        lemma_sorted(rs.push(r), una);
    } else {
        lemma_highest(rs, una, rs.len() - 1);
        let h = highest(rs, una, rs.len() - 1);
        let next = if offset(r, una) < offset(rs[h], una) {
            rs.update(h, r)
        } else {
            rs
        };
        lemma_sorted_keeps(next, una, lo, hi);
        lemma_sorted(next, una);
    }
}

/// Absorbing a block adds exactly the block's bytes, keeps the ranges apart, and
/// leaves the block inside one range. (When all the room is taken by ranges that
/// the block does not touch, one range is lost instead, and nothing is claimed.)
pub proof fn law_absorb_covers_exactly(rs: Seq<Range>, una: u32, r: Range, lo: u32, hi: u32)
    requires
        in_window(rs, lo, hi),
        range_in_window(r, lo, hi),
        apart(rs),
        rs.len() < SCOREBOARD_CAP || first_touching(rs, r, -1, 0) < rs.len(),
    ensures
        forall|x: u32| #[trigger]
            covered(absorb(rs, una, r), x) == (covered(rs, x) || range_has(r, x)),
        apart(absorb(rs, una, r)),
        enclosed(absorb(rs, una, r), r, lo),
{
    let i = first_touching(rs, r, -1, 0);
    lemma_first_touching(rs, r, -1, 0);
    let out = absorb(rs, una, r);
    if i < rs.len() {
        lemma_touch_symmetric(r, rs[i]);
        lemma_union(rs[i], r, lo, hi);
        let u = union_of(rs[i], r);
        let start = rs.update(i, u);
        assert forall|x: u32| #[trigger] covered(start, x) == (covered(rs, x) || range_has(
            r,
            x,
        )) by {
            if covered(start, x) {
                let k = choose|k: int| 0 <= k < start.len() && range_has(#[trigger] start[k], x);
                if k == i {
                    assert(range_has(u, x));
                    assert(range_has(rs[i], x) || range_has(r, x));
                } else {
                    assert(range_has(rs[k], x));
                }
            }
            if covered(rs, x) {
                let k = choose|k: int| 0 <= k < rs.len() && range_has(#[trigger] rs[k], x);
                if k == i {
                    assert(range_has(u, x));
                    assert(range_has(start[i], x));
                } else {
                    assert(range_has(start[k], x));
                }
            }
            if range_has(r, x) {
                assert(range_has(u, x));
                assert(range_has(start[i], x));
            }
        }
        assert forall|a: int, b: int|
            0 <= a < b < start.len() && a != i && b != i implies !overlap_or_adjacent(
            #[trigger] start[a],
            #[trigger] start[b],
        ) by {
            assert(!overlap_or_adjacent(rs[a], rs[b]));
        }
        lemma_cascade(start, i, r, lo, hi);
        let c = cascade(start, i);
        lemma_sorted_keeps(c, una, lo, hi);
        lemma_sorted(c, una);
        assert forall|x: u32| #[trigger] covered(out, x) == (covered(rs, x) || range_has(r, x)) by {
            assert(covered(c, x) == covered(start, x));
            assert(covered(start, x) == (covered(rs, x) || range_has(r, x)));
        }
        assert(enclosed(c, r, lo));
    } else {
        let c = rs.push(r);
        assert forall|x: u32| #[trigger] covered(c, x) == (covered(rs, x) || range_has(r, x)) by {
            if covered(rs, x) {
                let k = choose|k: int| 0 <= k < rs.len() && range_has(#[trigger] rs[k], x);
                assert(range_has(c[k], x));
            }
            if range_has(r, x) {
                assert(range_has(c[rs.len() as int], x));
            }
            if covered(c, x) {
                let k = choose|k: int| 0 <= k < c.len() && range_has(#[trigger] c[k], x);
                if k < rs.len() {
                    assert(range_has(rs[k], x));
                }
            }
        }
        assert forall|a: int, b: int| 0 <= a < b < c.len() implies !overlap_or_adjacent(
            #[trigger] c[a],
            #[trigger] c[b],
        ) by {
            if b == rs.len() {
                assert(!overlap_or_adjacent(r, rs[a]));
                lemma_touch_symmetric(r, rs[a]);
            } else {
                assert(!overlap_or_adjacent(rs[a], rs[b]));
            }
        }
        lemma_sorted_keeps(c, una, lo, hi);
        lemma_sorted(c, una);
        assert(encloses(c[rs.len() as int], r, lo));
        assert(enclosed(c, r, lo));
        assert forall|x: u32| #[trigger] covered(out, x) == (covered(rs, x) || range_has(r, x)) by {
            assert(covered(c, x) == (covered(rs, x) || range_has(r, x)));
        }
    }
}

proof fn lemma_shared_at_least(rs: Seq<Range>, k: int, left: u32, right: u32)
    requires
        0 <= k < rs.len(),
    ensures
        bytes_shared(rs, left, right) >= shared(rs[k], left, right),
    decreases rs.len(),
{
    if k < rs.len() - 1 {
        lemma_shared_at_least(rs.drop_last(), k, left, right);
    }
}

/// A block that was absorbed reports no new bytes when it comes again.
pub proof fn law_repeated_block_is_not_new(
    rs: Seq<Range>,
    left: u32,
    right: u32,
    una: u32,
    snd_una: u32,
    snd_max: u32,
    lo: u32,
    hi: u32,
)
    requires
        in_window(rs, lo, hi),
        apart(rs),
        above(snd_una, lo) <= above(snd_max, lo) <= above(hi, lo),
        clip_to_window(left, right, snd_una, snd_max) is Some,
        rs.len() < SCOREBOARD_CAP || first_touching(
            rs,
            clip_to_window(left, right, snd_una, snd_max)->0,
            -1,
            0,
        ) < rs.len(),
    ensures
        newly_covered(
            absorb(rs, una, clip_to_window(left, right, snd_una, snd_max)->0),
            left,
            right,
            snd_una,
            snd_max,
        ) == 0,
{
    let r = clip_to_window(left, right, snd_una, snd_max)->0;
    lemma_clip_in_wider_window(left, right, snd_una, snd_max, lo, hi);
    law_absorb_covers_exactly(rs, una, r, lo, hi);
    let out = absorb(rs, una, r);
    let k = choose|k: int| 0 <= k < out.len() && encloses(#[trigger] out[k], r, lo);
    lemma_absorb_in_window(rs, una, r, lo, hi);
    assert(range_in_window(out[k], lo, hi));
    lemma_window_order(out[k].left, r.left, lo);
    lemma_window_order(out[k].right, r.right, lo);
    lemma_window_order(r.left, r.right, lo);
    lemma_shared_at_least(out, k, r.left, r.right);
}

/// A block that is clipped to a window lies in every window around it.
pub proof fn lemma_clip_in_wider_window(
    left: u32,
    right: u32,
    una: u32,
    top: u32,
    lo: u32,
    hi: u32,
)
    requires
        above(hi, lo) < 0x8000_0000,
        above(una, lo) <= above(top, lo) <= above(hi, lo),
    ensures
        clip_to_window(left, right, una, top) matches Some(r) ==> range_in_window(r, lo, hi),
{
    lemma_clip_in_window(left, right, una, top);
}

/// A block leaves ranges that are apart so, with room for it or without.
pub proof fn lemma_absorb_apart(rs: Seq<Range>, una: u32, r: Range, lo: u32, hi: u32)
    requires
        in_window(rs, lo, hi),
        range_in_window(r, lo, hi),
        apart(rs),
        rs.len() <= SCOREBOARD_CAP,
    ensures
        apart(absorb(rs, una, r)),
{
    let i = first_touching(rs, r, -1, 0);
    if rs.len() < SCOREBOARD_CAP || i < rs.len() {
        law_absorb_covers_exactly(rs, una, r, lo, hi);
    } else {
        lemma_first_touching(rs, r, -1, 0);
        let h = highest(rs, una, rs.len() - 1);
        lemma_highest(rs, una, rs.len() - 1);
        let out = rs.update(h, r);
        assert forall|a: int, b: int| 0 <= a < b < out.len() implies !overlap_or_adjacent(
            #[trigger] out[a],
            #[trigger] out[b],
        ) by {
            if a == h {
                assert(!overlap_or_adjacent(r, rs[b]));
            } else if b == h {
                assert(!overlap_or_adjacent(r, rs[a]));
                lemma_touch_symmetric(r, rs[a]);
            }
        }
        lemma_sorted(out, una);
        lemma_sorted(rs, una);
    }
}

/// Pruning leaves parts of ranges, and ranges that are apart so.
pub proof fn lemma_pruned_apart(rs: Seq<Range>, lo: u32, hi: u32, una: u32)
    requires
        in_window(rs, lo, hi),
        apart(rs),
        above(una, lo) <= above(hi, lo),
    ensures
        in_window(pruned(rs, una), lo, hi),
        apart(pruned(rs, una)),
        pruned(rs, una).len() <= rs.len(),
        forall|k: int|
            0 <= k < pruned(rs, una).len() ==> enclosed(rs, #[trigger] pruned(rs, una)[k], lo),
    decreases rs.len(),
{
    if rs.len() > 0 {
        let front = rs.drop_last();
        let z = rs.last();
        assert(range_in_window(rs[rs.len() - 1], lo, hi));
        assert forall|i: int| 0 <= i < front.len() implies range_in_window(
            #[trigger] front[i],
            lo,
            hi,
        ) by {
            assert(range_in_window(rs[i], lo, hi));
        }
        assert forall|a: int, b: int| 0 <= a < b < front.len() implies !overlap_or_adjacent(
            #[trigger] front[a],
            #[trigger] front[b],
        ) by {
            assert(!overlap_or_adjacent(rs[a], rs[b]));
        }
        lemma_pruned_apart(front, lo, hi, una);
        let kept = pruned(front, una);
        let out = pruned(rs, una);
        assert forall|k: int| 0 <= k < kept.len() implies enclosed(rs, #[trigger] kept[k], lo) by {
            let j = choose|j: int| 0 <= j < front.len() && encloses(#[trigger] front[j], kept[k], lo);
            assert(encloses(rs[j], kept[k], lo));
        }
        if let Some(c) = clip_below(z, una) {
            lemma_window_order(z.left, una, lo);
            lemma_window_order(z.right, una, lo);
            assert(encloses(rs[rs.len() - 1], c, lo));
            assert(enclosed(rs, c, lo));
            assert forall|a: int, b: int| 0 <= a < b < out.len() implies !overlap_or_adjacent(
                #[trigger] out[a],
                #[trigger] out[b],
            ) by {
                if b == kept.len() {
                    let p = kept[a];
                    assert(enclosed(front, p, lo));
                    let j = choose|j: int| 0 <= j < front.len() && encloses(#[trigger] front[j], p, lo);
                    assert(!overlap_or_adjacent(rs[j], rs[rs.len() - 1]));
                    assert(range_in_window(front[j], lo, hi) && range_in_window(p, lo, hi));
                    lemma_window_order(front[j].left, z.right, lo);
                    lemma_window_order(z.left, front[j].right, lo);
                    lemma_window_order(p.left, c.right, lo);
                    lemma_window_order(c.left, p.right, lo);
                }
            }
        }
    }
}

pub proof fn lemma_absorb_in_window(rs: Seq<Range>, una: u32, r: Range, lo: u32, hi: u32)
    requires
        in_window(rs, lo, hi),
        range_in_window(r, lo, hi),
        rs.len() < SCOREBOARD_CAP || first_touching(rs, r, -1, 0) < rs.len(),
    ensures
        in_window(absorb(rs, una, r), lo, hi),
{
    let i = first_touching(rs, r, -1, 0);
    lemma_first_touching(rs, r, -1, 0);
    if i < rs.len() {
        lemma_touch_symmetric(r, rs[i]);
        lemma_union(rs[i], r, lo, hi);
        let start = rs.update(i, union_of(rs[i], r));
        lemma_cascade(start, i, r, lo, hi);
        lemma_sorted_keeps(cascade(start, i), una, lo, hi);
    } else {
        lemma_sorted_keeps(rs.push(r), una, lo, hi);
    }
}

/// Pruning moves the bottom of the window up, keeps the bytes above it and drops
/// the others.
pub proof fn law_prune_moves_window(rs: Seq<Range>, lo: u32, hi: u32, una: u32)
    requires
        in_window(rs, lo, hi),
        above(una, lo) <= above(hi, lo),
    ensures
        in_window(pruned(rs, una), una, hi),
        pruned(rs, una).len() <= rs.len(),
        forall|x: u32| #[trigger]
            covered(pruned(rs, una), x) == (covered(rs, x) && above(una, lo) <= above(x, lo)),
    decreases rs.len(),
{
    let out = pruned(rs, una);
    if rs.len() > 0 {
        let front = rs.drop_last();
        let r = rs.last();
        assert(range_in_window(rs[rs.len() - 1], lo, hi));
        assert forall|i: int| 0 <= i < front.len() implies range_in_window(
            #[trigger] front[i],
            lo,
            hi,
        ) by {
            assert(range_in_window(rs[i], lo, hi));
        }
        law_prune_moves_window(front, lo, hi, una);
        lemma_window_order(r.left, una, lo);
        lemma_window_order(r.right, una, lo);
        let pf = pruned(front, una);
        let c = clip_below(r, una);
        assert forall|x: u32| #[trigger] covered(out, x) == (covered(rs, x) && above(una, lo)
            <= above(x, lo)) by {
            assert(covered(pf, x) == (covered(front, x) && above(una, lo) <= above(x, lo)));
            if covered(rs, x) {
                let k = choose|k: int| 0 <= k < rs.len() && range_has(#[trigger] rs[k], x);
                if k < front.len() {
                    assert(range_has(front[k], x));
                }
            }
            if covered(front, x) {
                let k = choose|k: int| 0 <= k < front.len() && range_has(#[trigger] front[k], x);
                assert(range_has(rs[k], x));
            }
            assert(range_has(r, x) ==> range_has(rs[rs.len() - 1], x));
            if let Some(q) = c {
                assert(out == pf.push(q));
                assert(range_has(q, x) == (range_has(r, x) && above(una, lo) <= above(x, lo)));
                if range_has(q, x) {
                    assert(range_has(out[pf.len() as int], x));
                }
                if covered(pf, x) {
                    let k = choose|k: int| 0 <= k < pf.len() && range_has(#[trigger] pf[k], x);
                    assert(range_has(out[k], x));
                }
                if covered(out, x) {
                    let k = choose|k: int| 0 <= k < out.len() && range_has(#[trigger] out[k], x);
                    if k < pf.len() {
                        assert(range_has(pf[k], x));
                    }
                }
            } else {
                assert(range_has(r, x) ==> above(x, lo) < above(una, lo));
            }
        }
    }
}

proof fn lemma_first_holding(rs: Seq<Range>, seq: u32, from: int)
    requires
        0 <= from <= rs.len(),
    ensures
        ({
            let i = first_holding(rs, seq, from);
            &&& from <= i <= rs.len()
            &&& i < rs.len() ==> range_has(rs[i], seq)
            &&& forall|k: int| from <= k < i ==> !range_has(#[trigger] rs[k], seq)
        }),
    decreases rs.len() - from,
{
    if from < rs.len() && !range_has(rs[from], seq) {
        lemma_first_holding(rs, seq, from + 1);
    }
}

proof fn lemma_hole_end(rs: Seq<Range>, cursor: u32, end: u32, n: int, lo: u32, hi: u32)
    requires
        in_window(rs, lo, hi),
        above(cursor, lo) < above(end, lo) <= above(hi, lo),
        0 <= n <= rs.len(),
    ensures
        ({
            let e = hole_end(rs, cursor, end, n);
            &&& above(cursor, lo) < above(e, lo) <= above(end, lo)
            &&& forall|k: int|
                0 <= k < n ==> above((#[trigger] rs[k]).left, lo) <= above(cursor, lo) || above(
                    e,
                    lo,
                ) <= above(rs[k].left, lo)
        }),
    decreases n,
{
    if n > 0 {
        lemma_hole_end(rs, cursor, end, n - 1, lo, hi);
        assert(range_in_window(rs[n - 1], lo, hi));
        let e = hole_end(rs, cursor, end, n - 1);
        lemma_window_order(rs[n - 1].left, cursor, lo);
        lemma_window_order(rs[n - 1].left, e, lo);
    }
}

proof fn lemma_bytes_above_falls(rs: Seq<Range>, x: u32, y: u32, lo: u32, hi: u32)
    requires
        in_window(rs, lo, hi),
        above(x, lo) <= above(y, lo) <= above(hi, lo),
    ensures
        bytes_above(rs, y) <= bytes_above(rs, x),
    decreases rs.len(),
{
    if rs.len() > 0 {
        let front = rs.drop_last();
        assert forall|i: int| 0 <= i < front.len() implies range_in_window(
            #[trigger] front[i],
            lo,
            hi,
        ) by {
            assert(range_in_window(rs[i], lo, hi));
        }
        lemma_bytes_above_falls(front, x, y, lo, hi);
        let r = rs[rs.len() - 1];
        assert(range_in_window(r, lo, hi));
        lemma_window_order(r.left, x, lo);
        lemma_window_order(r.left, y, lo);
        lemma_window_order(r.right, x, lo);
        lemma_window_order(r.right, y, lo);
        lemma_window_order(r.right, r.left, lo);
        assert(part_above(r, y) <= part_above(r, x));
    }
}

/// Every byte of `[cursor, e)` is free of ranges when `cursor` is and no range
/// starts between.
proof fn lemma_hole_is_free(rs: Seq<Range>, cursor: u32, end: u32, lo: u32, hi: u32, x: u32)
    requires
        in_window(rs, lo, hi),
        above(cursor, lo) < above(end, lo) <= above(hi, lo),
        first_holding(rs, cursor, 0) == rs.len(),
        above(cursor, lo) <= above(x, lo) < above(
            hole_end(rs, cursor, end, rs.len() as int),
            lo,
        ),
    ensures
        !covered(rs, x),
{
    lemma_first_holding(rs, cursor, 0);
    lemma_hole_end(rs, cursor, end, rs.len() as int, lo, hi);
    if covered(rs, x) {
        let k = choose|k: int| 0 <= k < rs.len() && range_has(#[trigger] rs[k], x);
        assert(range_in_window(rs[k], lo, hi));
        assert(!range_has(rs[k], cursor));
    }
}

/// What [`next_lost`] finds is the lowest lost byte that is not acknowledged, and
/// the run that it proposes is free of acknowledged bytes; when it finds nothing
/// there is no such byte.
pub proof fn law_next_seg_is_lowest_lost(
    rs: Seq<Range>,
    start: u32,
    end: u32,
    mss: u32,
    lo: u32,
    hi: u32,
)
    requires
        in_window(rs, lo, hi),
        above(start, lo) <= above(hi, lo),
        above(end, lo) <= above(hi, lo),
    ensures
        match next_lost(rs, start, end, mss) {
            Some((s, n)) => {
                &&& above(start, lo) <= above(s, lo) < above(end, lo)
                &&& n <= mss
                &&& !covered(rs, s)
                &&& lost(rs, s, mss)
                &&& forall|x: u32|
                    above(s, lo) <= above(x, lo) < above(s, lo) + n ==> !#[trigger] covered(rs, x)
                &&& forall|x: u32|
                    above(start, lo) <= above(x, lo) < above(s, lo) ==> #[trigger] covered(rs, x)
                        || !lost(rs, x, mss)
            },
            None => forall|x: u32|
                above(start, lo) <= above(x, lo) < above(end, lo) ==> #[trigger] covered(rs, x)
                    || !lost(rs, x, mss),
        },
    decreases before(start, end),
{
    lemma_window_order(start, end, lo);
    if seq_lt(start, end) {
        let i = first_holding(rs, start, 0);
        lemma_first_holding(rs, start, 0);
        if i < rs.len() {
            let r = rs[i];
            assert(range_in_window(r, lo, hi));
            lemma_window_order(r.right, end, lo);
            law_next_seg_is_lowest_lost(rs, r.right, end, mss, lo, hi);
            assert(next_lost(rs, start, end, mss) == next_lost(rs, r.right, end, mss));
            assert forall|x: u32|
                above(start, lo) <= above(x, lo) < above(r.right, lo) implies #[trigger] covered(
                rs,
                x,
            ) by {
                assert(range_has(rs[i], x));
            }
        } else {
            let e = hole_end(rs, start, end, rs.len() as int);
            lemma_hole_end(rs, start, end, rs.len() as int, lo, hi);
            lemma_window_order(e, end, lo);
            assert forall|x: u32|
                above(start, lo) <= above(x, lo) < above(e, lo) implies !#[trigger] covered(
                rs,
                x,
            ) by {
                lemma_hole_is_free(rs, start, end, lo, hi, x);
            }
            assert(!covered(rs, start));
            if !lost(rs, start, mss) {
                law_next_seg_is_lowest_lost(rs, e, end, mss, lo, hi);
                assert forall|x: u32|
                    above(start, lo) <= above(x, lo) < above(e, lo) implies !lost(
                    rs,
                    x,
                    mss,
                ) by {
                    lemma_bytes_above_falls(rs, start, x, lo, hi);
                }
            }
        }
    }
}

/// A hole goes on up to the end of the search or to the start of a range.
proof fn lemma_hole_stops(rs: Seq<Range>, cursor: u32, end: u32, n: int, lo: u32, hi: u32)
    requires
        in_window(rs, lo, hi),
        0 <= n <= rs.len(),
    ensures
        hole_end(rs, cursor, end, n) == end || covered(rs, hole_end(rs, cursor, end, n)),
    decreases n,
{
    if n > 0 {
        lemma_hole_stops(rs, cursor, end, n - 1, lo, hi);
        assert(range_in_window(rs[n - 1], lo, hi));
        assert(range_has(rs[n - 1], rs[n - 1].left));
    }
}

/// What [`first_hole`] finds is the lowest run of `[start, end)` that is not
/// acknowledged, and all of it; when it finds nothing every byte is.
pub proof fn law_first_hole_is_lowest(rs: Seq<Range>, start: u32, end: u32, lo: u32, hi: u32)
    requires
        in_window(rs, lo, hi),
        above(start, lo) <= above(hi, lo),
        above(end, lo) <= above(hi, lo),
    ensures
        match first_hole(rs, start, end) {
            Some((a, b)) => {
                &&& above(start, lo) <= above(a, lo) < above(b, lo) <= above(end, lo)
                &&& forall|x: u32|
                    above(start, lo) <= above(x, lo) < above(a, lo) ==> #[trigger] covered(rs, x)
                &&& forall|x: u32|
                    above(a, lo) <= above(x, lo) < above(b, lo) ==> !#[trigger] covered(rs, x)
                &&& b == end || covered(rs, b)
            },
            None => forall|x: u32|
                above(start, lo) <= above(x, lo) < above(end, lo) ==> #[trigger] covered(rs, x),
        },
    decreases before(start, end),
{
    lemma_window_order(start, end, lo);
    if seq_lt(start, end) {
        let i = first_holding(rs, start, 0);
        lemma_first_holding(rs, start, 0);
        if i < rs.len() {
            let r = rs[i];
            assert(range_in_window(r, lo, hi));
            lemma_window_order(r.right, end, lo);
            law_first_hole_is_lowest(rs, r.right, end, lo, hi);
            assert forall|x: u32|
                above(start, lo) <= above(x, lo) < above(r.right, lo) implies #[trigger] covered(
                rs,
                x,
            ) by {
                assert(range_has(rs[i], x));
            }
        } else {
            let e = hole_end(rs, start, end, rs.len() as int);
            lemma_hole_end(rs, start, end, rs.len() as int, lo, hi);
            lemma_hole_stops(rs, start, end, rs.len() as int, lo, hi);
            assert forall|x: u32|
                above(start, lo) <= above(x, lo) < above(e, lo) implies !#[trigger] covered(
                rs,
                x,
            ) by {
                lemma_hole_is_free(rs, start, end, lo, hi, x);
            }
        }
    }
}

/// A byte counts as lost once three segments of data above it have been acknowledged.
pub proof fn law_three_segments_above_tell_of_a_loss(rs: Seq<Range>, seq: u32, mss: u32)
    requires
        mss <= 0xFFFF,
        bytes_above(rs, seq) <= u32::MAX,
    ensures
        lost(rs, seq, mss) <==> bytes_above(rs, seq) >= 3 * mss,
{
}

/// What is proposed to be sent is a whole segment, or everything up to the next byte that is
/// acknowledged or to the end.
pub proof fn law_next_seg_is_filled(rs: Seq<Range>, start: u32, end: u32, mss: u32, lo: u32, hi: u32)
    requires
        in_window(rs, lo, hi),
        above(start, lo) <= above(hi, lo),
        above(end, lo) <= above(hi, lo),
    ensures
        next_lost(rs, start, end, mss) matches Some((s, n)) ==> n == mss || s.wrapping_add(n) == end
            || covered(rs, s.wrapping_add(n)),
    decreases before(start, end),
{
    lemma_window_order(start, end, lo);
    if seq_lt(start, end) {
        let i = first_holding(rs, start, 0);
        lemma_first_holding(rs, start, 0);
        if i < rs.len() {
            let r = rs[i];
            assert(range_in_window(r, lo, hi));
            lemma_window_order(r.right, end, lo);
            law_next_seg_is_filled(rs, r.right, end, mss, lo, hi);
        } else {
            lemma_hole_end(rs, start, end, rs.len() as int, lo, hi);
            lemma_hole_end_stops(rs, start, end, rs.len() as int, lo, hi);
            let next = hole_end(rs, start, end, rs.len() as int);
            if !lost(rs, start, mss) && before(next, end) < before(start, end) {
                law_next_seg_is_filled(rs, next, end, mss, lo, hi);
            }
        }
    }
}

proof fn lemma_hole_end_stops(rs: Seq<Range>, cursor: u32, end: u32, n: int, lo: u32, hi: u32)
    requires
        in_window(rs, lo, hi),
        0 <= n <= rs.len(),
    ensures
        hole_end(rs, cursor, end, n) == end || covered(rs, hole_end(rs, cursor, end, n)),
    decreases n,
{
    if n > 0 {
        lemma_hole_end_stops(rs, cursor, end, n - 1, lo, hi);
        let r = rs[n - 1];
        assert(range_in_window(r, lo, hi));
        lemma_window_order(r.left, r.right, lo);
        assert(range_has(r, r.left));
    }
}

} // verus!
