//! What the scoreboard counts: the bytes of a window that its ranges cover.

use crate::num::{max, min};
use crate::scoreboard::laws::{
    above, apart, in_window, law_absorb_covers_exactly, law_absorb_keeps_window,
    law_repeated_block_is_not_new, lemma_absorb_apart, lemma_clip_in_wider_window,
    lemma_pruned_apart, lemma_window_order, range_in_window,
};
use crate::scoreboard::{
    absorb, bytes_of, bytes_shared, clip_to_window, covered, newly_covered, overlap_or_adjacent,
    pruned, range_has, shared, with_block, Range, ScoreView, SCOREBOARD_CAP,
};
use vstd::prelude::*;

verus! {

/// How many of the numbers in `[a, b)` have the property `p`.
pub open spec fn count(p: spec_fn(int) -> bool, a: int, b: int) -> nat
    decreases b - a,
{
    if a >= b {
        0
    } else {
        count(p, a, b - 1) + if p(b - 1) {
            1nat
        } else {
            0nat
        }
    }
}

/// Says which distances above `lo` the ranges cover.
pub open spec fn covers_at(rs: Seq<Range>, lo: u32) -> spec_fn(int) -> bool {
    |i: int| covered(rs, lo.wrapping_add(i as u32))
}

/// How many sequence numbers of `[lo, hi)` the ranges cover.
pub open spec fn bytes_covered(rs: Seq<Range>, lo: u32, hi: u32) -> nat {
    count(covers_at(rs, lo), 0, above(hi, lo))
}

proof fn lemma_count_same(p: spec_fn(int) -> bool, q: spec_fn(int) -> bool, a: int, b: int)
    requires
        forall|i: int| a <= i < b ==> #[trigger] p(i) == q(i),
    ensures
        count(p, a, b) == count(q, a, b),
    decreases b - a,
{
    if a < b {
        lemma_count_same(p, q, a, b - 1);
        assert(p(b - 1) == q(b - 1));
    }
}

/// Where exactly one of `p` and `q` makes `r` hold, their counts add up.
proof fn lemma_count_sum(
    p: spec_fn(int) -> bool,
    q: spec_fn(int) -> bool,
    r: spec_fn(int) -> bool,
    a: int,
    b: int,
)
    requires
        forall|i: int| a <= i < b ==> #[trigger] r(i) == (p(i) || q(i)) && !(p(i) && q(i)),
    ensures
        count(r, a, b) == count(p, a, b) + count(q, a, b),
    decreases b - a,
{
    if a < b {
        lemma_count_sum(p, q, r, a, b - 1);
        assert(r(b - 1) == (p(b - 1) || q(b - 1)));
    }
}

/// The numbers between `l` and `r` are counted by their distance.
proof fn lemma_count_between(p: spec_fn(int) -> bool, l: int, r: int, a: int, b: int)
    requires
        forall|i: int| a <= i < b ==> #[trigger] p(i) == (l <= i < r),
    ensures
        count(p, a, b) == max(0, min(b, r) - max(a, l)),
    decreases b - a,
{
    if a < b {
        lemma_count_between(p, l, r, a, b - 1);
        assert(p(b - 1) == (l <= b - 1 < r));
    }
}

proof fn lemma_count_split(p: spec_fn(int) -> bool, a: int, b: int, c: int)
    requires
        a <= b <= c,
    ensures
        count(p, a, c) == count(p, a, b) + count(p, b, c),
    decreases c - b,
{
    if b < c {
        lemma_count_split(p, a, b, c - 1);
    }
}

proof fn lemma_count_bound(p: spec_fn(int) -> bool, a: int, b: int)
    ensures
        count(p, a, b) <= max(0, b - a),
    decreases b - a,
{
    if a < b {
        lemma_count_bound(p, a, b - 1);
    }
}

/// Inside the window a range has what lies between its edges.
proof fn lemma_range_at(r: Range, lo: u32, hi: u32, i: int)
    requires
        range_in_window(r, lo, hi),
        0 <= i < above(hi, lo),
    ensures
        range_has(r, lo.wrapping_add(i as u32)) == (above(r.left, lo) <= i < above(r.right, lo)),
{
}

/// The last range adds what it has to what the others cover, and shares nothing with
/// them.
proof fn lemma_last_is_extra(rs: Seq<Range>, lo: u32, hi: u32, x: u32)
    requires
        in_window(rs, lo, hi),
        apart(rs),
        rs.len() > 0,
    ensures
        covered(rs, x) == (covered(rs.drop_last(), x) || range_has(rs.last(), x)),
        !(covered(rs.drop_last(), x) && range_has(rs.last(), x)),
{
    let front = rs.drop_last();
    let last = rs.len() - 1;
    if covered(front, x) {
        let k = choose|k: int| 0 <= k < front.len() && range_has(#[trigger] front[k], x);
        assert(range_has(rs[k], x));
        if range_has(rs.last(), x) {
            assert(range_in_window(rs[k], lo, hi) && range_in_window(rs[last], lo, hi));
            lemma_window_order(rs[k].left, rs[last].right, lo);
            lemma_window_order(rs[last].left, rs[k].right, lo);
            assert(overlap_or_adjacent(rs[k], rs[last]));
        }
    }
    if range_has(rs.last(), x) {
        assert(range_has(rs[last], x));
    }
    if covered(rs, x) {
        let k = choose|k: int| 0 <= k < rs.len() && range_has(#[trigger] rs[k], x);
        if k < last {
            assert(range_has(front[k], x));
        }
    }
}

proof fn lemma_front(rs: Seq<Range>, lo: u32, hi: u32)
    requires
        in_window(rs, lo, hi),
        apart(rs),
        rs.len() > 0,
    ensures
        in_window(rs.drop_last(), lo, hi),
        apart(rs.drop_last()),
        range_in_window(rs.last(), lo, hi),
{
    let front = rs.drop_last();
    assert forall|i: int| 0 <= i < front.len() implies range_in_window(
        #[trigger] front[i],
        lo,
        hi,
    ) by {
        assert(range_in_window(rs[i], lo, hi));
    }
    assert forall|i: int, j: int| 0 <= i < j < front.len() implies !overlap_or_adjacent(
        #[trigger] front[i],
        #[trigger] front[j],
    ) by {
        assert(!overlap_or_adjacent(rs[i], rs[j]));
    }
    assert(range_in_window(rs[rs.len() - 1], lo, hi));
}

/// The bytes that the ranges share with a part of the window are those that they cover
/// of it.
proof fn lemma_shared_is_covered(rs: Seq<Range>, l: u32, r: u32, lo: u32, hi: u32)
    requires
        in_window(rs, lo, hi),
        apart(rs),
        above(l, lo) <= above(r, lo) <= above(hi, lo),
    ensures
        bytes_shared(rs, l, r) == count(covers_at(rs, lo), above(l, lo), above(r, lo)),
    decreases rs.len(),
{
    let a = above(l, lo);
    let b = above(r, lo);
    if rs.len() == 0 {
        assert forall|i: int| a <= i < b implies #[trigger] covers_at(rs, lo)(i) == (0 <= i < 0) by {}
        lemma_count_between(covers_at(rs, lo), 0, 0, a, b);
    } else {
        let front = rs.drop_last();
        let z = rs.last();
        lemma_front(rs, lo, hi);
        lemma_shared_is_covered(front, l, r, lo, hi);
        let own = |i: int| range_has(z, lo.wrapping_add(i as u32));
        assert forall|i: int| a <= i < b implies #[trigger] covers_at(rs, lo)(i) == (covers_at(
            front,
            lo,
        )(i) || own(i)) && !(covers_at(front, lo)(i) && own(i)) by {
            lemma_last_is_extra(rs, lo, hi, lo.wrapping_add(i as u32));
        }
        lemma_count_sum(covers_at(front, lo), own, covers_at(rs, lo), a, b);
        assert forall|i: int| a <= i < b implies #[trigger] own(i) == (above(z.left, lo) <= i
            < above(z.right, lo)) by {
            lemma_range_at(z, lo, hi, i);
        }
        lemma_count_between(own, above(z.left, lo), above(z.right, lo), a, b);
        lemma_window_order(z.left, l, lo);
        lemma_window_order(z.right, r, lo);
        lemma_window_order(l, r, lo);
        lemma_window_order(z.left, r, lo);
        lemma_window_order(l, z.right, lo);
        lemma_window_order(z.left, z.right, lo);
        assert(shared(z, l, r) == max(0, min(b, above(z.right, lo)) - max(a, above(z.left, lo))));
    }
}

/// Ranges that are apart hold each byte once: together they have as many bytes as the
/// window has sequence numbers that they cover.
pub proof fn law_each_byte_is_counted_once(rs: Seq<Range>, lo: u32, hi: u32)
    requires
        in_window(rs, lo, hi),
        apart(rs),
    ensures
        bytes_of(rs) == bytes_covered(rs, lo, hi),
    decreases rs.len(),
{
    let b = above(hi, lo);
    if rs.len() == 0 {
        assert forall|i: int| 0 <= i < b implies #[trigger] covers_at(rs, lo)(i) == (0 <= i < 0) by {}
        lemma_count_between(covers_at(rs, lo), 0, 0, 0, b);
    } else {
        let front = rs.drop_last();
        let z = rs.last();
        lemma_front(rs, lo, hi);
        law_each_byte_is_counted_once(front, lo, hi);
        let own = |i: int| range_has(z, lo.wrapping_add(i as u32));
        assert forall|i: int| 0 <= i < b implies #[trigger] covers_at(rs, lo)(i) == (covers_at(
            front,
            lo,
        )(i) || own(i)) && !(covers_at(front, lo)(i) && own(i)) by {
            lemma_last_is_extra(rs, lo, hi, lo.wrapping_add(i as u32));
        }
        lemma_count_sum(covers_at(front, lo), own, covers_at(rs, lo), 0, b);
        assert forall|i: int| 0 <= i < b implies #[trigger] own(i) == (above(z.left, lo) <= i
            < above(z.right, lo)) by {
            lemma_range_at(z, lo, hi, i);
        }
        lemma_count_between(own, above(z.left, lo), above(z.right, lo), 0, b);
    }
}

/// What the block `r` adds to the count of covered bytes is what was not covered of it.
proof fn lemma_absorb_counts(rs: Seq<Range>, r: Range, una: u32, lo: u32, hi: u32)
    requires
        in_window(rs, lo, hi),
        apart(rs),
        range_in_window(r, lo, hi),
        rs.len() < SCOREBOARD_CAP,
    ensures
        bytes_covered(absorb(rs, una, r), lo, hi) == bytes_covered(rs, lo, hi)
            + r.right.wrapping_sub(r.left) - bytes_shared(rs, r.left, r.right),
        bytes_shared(rs, r.left, r.right) <= r.right.wrapping_sub(r.left),
{
    let a = above(r.left, lo);
    let b = above(r.right, lo);
    let top = above(hi, lo);
    let was = covers_at(rs, lo);
    let now = covers_at(absorb(rs, una, r), lo);
    law_absorb_covers_exactly(rs, una, r, lo, hi);
    assert forall|i: int| 0 <= i < top implies #[trigger] now(i) == (was(i) || a <= i < b) by {
        lemma_range_at(r, lo, hi, i);
        assert(covered(absorb(rs, una, r), lo.wrapping_add(i as u32)) == (covered(
            rs,
            lo.wrapping_add(i as u32),
        ) || range_has(r, lo.wrapping_add(i as u32))));
    }
    lemma_count_split(was, 0, a, b);
    lemma_count_split(was, 0, b, top);
    lemma_count_split(now, 0, a, b);
    lemma_count_split(now, 0, b, top);
    lemma_count_same(now, was, 0, a);
    lemma_count_same(now, was, b, top);
    lemma_count_between(now, a, b, a, b);
    lemma_shared_is_covered(rs, r.left, r.right, lo, hi);
    lemma_count_bound(was, a, b);
}

/// Something done with a scoreboard.
pub enum ScoreStep {
    /// A block arrives.
    Block { left: u32, right: u32, snd_una: u32, snd_max: u32 },
    /// What is below `snd_una` has been acknowledged.
    Prune { snd_una: u32 },
    Clear,
}

/// The scoreboard after one step.
pub open spec fn stepped(v: ScoreView, step: ScoreStep) -> ScoreView {
    match step {
        ScoreStep::Block { left, right, snd_una, snd_max } => with_block(
            v,
            left,
            right,
            snd_una,
            snd_max,
        ),
        ScoreStep::Prune { snd_una } => ScoreView {
            ranges: pruned(v.ranges, snd_una),
            una: snd_una,
        },
        ScoreStep::Clear => ScoreView { ranges: Seq::empty(), ..v },
    }
}

/// A new scoreboard after `steps`, one after the other.
pub open spec fn after_steps(steps: Seq<ScoreStep>) -> ScoreView
    decreases steps.len(),
{
    if steps.len() == 0 {
        ScoreView { ranges: Seq::empty(), una: 0 }
    } else {
        stepped(after_steps(steps.drop_last()), steps.last())
    }
}

/// What is outstanding lies in the window `[lo, hi]`, of less than half the sequence space.
pub open spec fn within(snd_una: u32, snd_max: u32, lo: u32, hi: u32) -> bool {
    above(snd_una, lo) <= above(snd_max, lo) <= above(hi, lo) < 0x8000_0000
}

/// The step is one inside the window `[lo, hi]`. The block itself may be anything.
pub open spec fn step_in_window(step: ScoreStep, lo: u32, hi: u32) -> bool {
    match step {
        ScoreStep::Block { left, right, snd_una, snd_max } => within(snd_una, snd_max, lo, hi),
        ScoreStep::Prune { snd_una } => within(snd_una, hi, lo, hi),
        ScoreStep::Clear => true,
    }
}

/// The scoreboard is valid: its ranges lie in the window, there are not too many of them,
/// and no two overlap or touch.
pub open spec fn valid(v: ScoreView, lo: u32, hi: u32) -> bool {
    in_window(v.ranges, lo, hi) && apart(v.ranges) && v.ranges.len() <= SCOREBOARD_CAP
}

/// Every scoreboard is valid: whatever is done with it inside one window, in whatever
/// order and with whatever blocks.
pub proof fn law_scoreboard_stays_valid(steps: Seq<ScoreStep>, lo: u32, hi: u32)
    requires
        above(hi, lo) < 0x8000_0000,
        forall|i: int| 0 <= i < steps.len() ==> step_in_window(#[trigger] steps[i], lo, hi),
    ensures
        valid(after_steps(steps), lo, hi),
    decreases steps.len(),
{
    if steps.len() > 0 {
        let front = steps.drop_last();
        assert forall|i: int| 0 <= i < front.len() implies step_in_window(
            #[trigger] front[i],
            lo,
            hi,
        ) by {
            assert(step_in_window(steps[i], lo, hi));
        }
        law_scoreboard_stays_valid(front, lo, hi);
        let v = after_steps(front);
        assert(step_in_window(steps[steps.len() - 1], lo, hi));
        match steps.last() {
            ScoreStep::Block { left, right, snd_una, snd_max } => {
                if let Some(r) = clip_to_window(left, right, snd_una, snd_max) {
                    lemma_clip_in_wider_window(left, right, snd_una, snd_max, lo, hi);
                    law_absorb_keeps_window(v.ranges, snd_una, r, lo, hi);
                    lemma_absorb_apart(v.ranges, snd_una, r, lo, hi);
                }
            },
            ScoreStep::Prune { snd_una } => {
                lemma_pruned_apart(v.ranges, lo, hi, snd_una);
            },
            ScoreStep::Clear => {},
        }
    }
}

/// A block adds what it reports: the scoreboard covers as many more bytes as
/// [`newly_covered`] counted before, it stays valid, and the same block then reports
/// nothing.
pub proof fn law_block_adds_what_it_reports(
    v: ScoreView,
    left: u32,
    right: u32,
    snd_una: u32,
    snd_max: u32,
    lo: u32,
    hi: u32,
)
    requires
        valid(v, lo, hi),
        within(snd_una, snd_max, lo, hi),
        v.ranges.len() < SCOREBOARD_CAP,
    ensures
        ({
            let w = with_block(v, left, right, snd_una, snd_max);
            let n = newly_covered(v.ranges, left, right, snd_una, snd_max);
            &&& valid(w, lo, hi)
            &&& bytes_covered(w.ranges, lo, hi) == bytes_covered(v.ranges, lo, hi) + n
            &&& bytes_of(w.ranges) == bytes_of(v.ranges) + n
            &&& newly_covered(w.ranges, left, right, snd_una, snd_max) == 0
        }),
{
    let w = with_block(v, left, right, snd_una, snd_max);
    law_each_byte_is_counted_once(v.ranges, lo, hi);
    if let Some(r) = clip_to_window(left, right, snd_una, snd_max) {
        lemma_clip_in_wider_window(left, right, snd_una, snd_max, lo, hi);
        law_absorb_covers_exactly(v.ranges, snd_una, r, lo, hi);
        law_absorb_keeps_window(v.ranges, snd_una, r, lo, hi);
        lemma_absorb_counts(v.ranges, r, snd_una, lo, hi);
        law_repeated_block_is_not_new(v.ranges, left, right, snd_una, snd_una, snd_max, lo, hi);
        law_each_byte_is_counted_once(w.ranges, lo, hi);
    }
}

/// The same of every scoreboard there is: whatever was done with it before inside the
/// window, a block that it has room for adds what it reports.
pub proof fn law_every_block_adds_what_it_reports(
    steps: Seq<ScoreStep>,
    left: u32,
    right: u32,
    snd_una: u32,
    snd_max: u32,
    lo: u32,
    hi: u32,
)
    requires
        forall|i: int| 0 <= i < steps.len() ==> step_in_window(#[trigger] steps[i], lo, hi),
        within(snd_una, snd_max, lo, hi),
        after_steps(steps).ranges.len() < SCOREBOARD_CAP,
    ensures
        ({
            let v = after_steps(steps);
            let w = with_block(v, left, right, snd_una, snd_max);
            let n = newly_covered(v.ranges, left, right, snd_una, snd_max);
            &&& bytes_covered(w.ranges, lo, hi) == bytes_covered(v.ranges, lo, hi) + n
            &&& bytes_of(w.ranges) == bytes_of(v.ranges) + n
            &&& newly_covered(w.ranges, left, right, snd_una, snd_max) == 0
        }),
{
    law_scoreboard_stays_valid(steps, lo, hi);
    law_block_adds_what_it_reports(after_steps(steps), left, right, snd_una, snd_max, lo, hi);
}

} // verus!
