//! Sender-side scoreboard of selectively acknowledged ranges (RFC 6675).
//!
//! It keeps the disjoint ranges above `snd_una` that the peer holds, lowest
//! first, and answers which hole to retransmit next. Room is bounded: when it
//! runs out the highest ranges go, since the lowest matter most for progress.

use crate::num::{max, min};
use crate::seq::{seq_diff, seq_gt, seq_le, seq_lt};
use vstd::prelude::*;

pub mod counts;
pub mod laws;

verus! {

/// Most disjoint ranges that are tracked.
pub const SCOREBOARD_CAP: usize = 16;

/// Segments' worth of acknowledged data above a hole that make it lost.
pub const DUP_THRESH: u32 = 3;

/// One contiguous range of sequence numbers, `[left, right)`.
#[derive(Copy, Clone, Debug, PartialEq, Eq, Structural)]
pub struct Range {
    pub left: u32,
    pub right: u32,
}

impl Range {
    pub fn len(&self) -> (n: u32)
        ensures
            n == self.right.wrapping_sub(self.left),
    {
        self.right.wrapping_sub(self.left)
    }

    pub fn is_empty(&self) -> (b: bool)
        ensures
            b == (self.left == self.right),
    {
        self.left == self.right
    }

    /// Whether `seq` lies in the range.
    pub fn contains(&self, seq: u32) -> (b: bool)
        ensures
            b == range_has(*self, seq),
    {
        let offset: u32 = seq.wrapping_sub(self.left);
        offset < self.len()
    }
}

/// `seq` lies in `r`.
pub open spec fn range_has(r: Range, seq: u32) -> bool {
    seq.wrapping_sub(r.left) < r.right.wrapping_sub(r.left)
}

/// Some range of `rs` holds `seq`.
pub open spec fn covered(rs: Seq<Range>, seq: u32) -> bool {
    exists|i: int| 0 <= i < rs.len() && range_has(#[trigger] rs[i], seq)
}

/// The two ranges overlap or touch, so that one range can stand for both.
pub open spec fn overlap_or_adjacent(a: Range, b: Range) -> bool {
    seq_le(a.left, b.right) && seq_le(b.left, a.right)
}

/// The range from the lower left edge to the higher right edge.
pub open spec fn union_of(a: Range, b: Range) -> Range {
    Range {
        left: if seq_lt(a.left, b.left) {
            a.left
        } else {
            b.left
        },
        right: if seq_gt(a.right, b.right) {
            a.right
        } else {
            b.right
        },
    }
}

/// What is left of `[left, right)` inside the window `[una, top]`; `None` when
/// the range is ill-formed, starts at the top or above it, or ends at the bottom
/// or below it.
pub open spec fn clip_to_window(left: u32, right: u32, una: u32, top: u32) -> Option<Range> {
    let l = if seq_le(left, una) {
        una
    } else {
        left
    };
    let r = if seq_lt(top, right) {
        top
    } else {
        right
    };
    if seq_le(right, left) || seq_le(top, l) || seq_le(r, l) {
        None
    } else {
        Some(Range { left: l, right: r })
    }
}

/// What is left of `r` at and above `una`.
pub open spec fn clip_below(r: Range, una: u32) -> Option<Range> {
    let l = if seq_lt(r.left, una) {
        una
    } else {
        r.left
    };
    if seq_le(r.right, una) || l == r.right {
        None
    } else {
        Some(Range { left: l, right: r.right })
    }
}

/// The ranges of `rs`, each clipped to `una` and above.
pub open spec fn pruned(rs: Seq<Range>, una: u32) -> Seq<Range>
    decreases rs.len(),
{
    if rs.len() == 0 {
        rs
    } else {
        match clip_below(rs.last(), una) {
            None => pruned(rs.drop_last(), una),
            Some(r) => pruned(rs.drop_last(), una).push(r),
        }
    }
}

/// Index of the first range from `from` on, other than `skip`, that touches `r`;
/// `rs.len()` when there is none.
pub open spec fn first_touching(rs: Seq<Range>, r: Range, skip: int, from: int) -> int
    decreases rs.len() - from,
{
    if from >= rs.len() {
        rs.len() as int
    } else if from != skip && overlap_or_adjacent(r, rs[from]) {
        from
    } else {
        first_touching(rs, r, skip, from + 1)
    }
}

/// `rs` after the range at `i` has absorbed every range that it touches, and
/// those that its growth makes it touch.
pub open spec fn cascade(rs: Seq<Range>, i: int) -> Seq<Range>
    decreases rs.len(),
{
    let j = first_touching(rs, rs[i], i, 0);
    if !(0 <= i < rs.len()) || !(0 <= j < rs.len()) {
        rs
    } else {
        let last = rs.len() - 1;
        let grown = rs.update(i, union_of(rs[i], rs[j]));
        let rest = grown.update(j, grown[last]).drop_last();
        cascade(
            rest,
            if j < last && i == last {
                j
            } else {
                i
            },
        )
    }
}

/// How far `r` starts above `una`.
pub open spec fn offset(r: Range, una: u32) -> u32 {
    r.left.wrapping_sub(una)
}

/// `rs`, sorted by offset, with `r` put behind the last range that does not
/// start above it.
pub open spec fn insert_sorted(rs: Seq<Range>, r: Range, una: u32) -> Seq<Range>
    decreases rs.len(),
{
    if rs.len() == 0 || offset(rs.last(), una) <= offset(r, una) {
        rs.push(r)
    } else {
        insert_sorted(rs.drop_last(), r, una).push(rs.last())
    }
}

/// The ranges of `rs` by rising offset, those of equal offset in their order.
pub open spec fn sorted(rs: Seq<Range>, una: u32) -> Seq<Range>
    decreases rs.len(),
{
    if rs.len() == 0 {
        rs
    } else {
        insert_sorted(sorted(rs.drop_last(), una), rs.last(), una)
    }
}

/// Index of the first of the ranges `rs[0..=n]` that starts highest.
pub open spec fn highest(rs: Seq<Range>, una: u32, n: int) -> int
    decreases n,
{
    if n <= 0 {
        0
    } else {
        let h = highest(rs, una, n - 1);
        if offset(rs[n], una) > offset(rs[h], una) {
            n
        } else {
            h
        }
    }
}

/// The ranges after the clipped block `r` has been absorbed.
pub open spec fn absorb(rs: Seq<Range>, una: u32, r: Range) -> Seq<Range> {
    let i = first_touching(rs, r, -1, 0);
    if i < rs.len() {
        sorted(cascade(rs.update(i, union_of(rs[i], r)), i), una)
    } else if rs.len() < SCOREBOARD_CAP {
        sorted(rs.push(r), una)
    } else {
        let h = highest(rs, una, rs.len() - 1);
        sorted(
            if offset(r, una) < offset(rs[h], una) {
                rs.update(h, r)
            } else {
                rs
            },
            una,
        )
    }
}

/// The scoreboard after a SACK block `[left, right)` has arrived: the ranges are
/// sorted by how far they lie above `snd_una`.
pub open spec fn with_block(
    v: ScoreView,
    left: u32,
    right: u32,
    snd_una: u32,
    snd_max: u32,
) -> ScoreView {
    match clip_to_window(left, right, snd_una, snd_max) {
        None => v,
        Some(r) => ScoreView { ranges: absorb(v.ranges, snd_una, r), una: snd_una },
    }
}

/// Bytes of `r` at and above `seq`.
pub open spec fn part_above(r: Range, seq: u32) -> nat {
    let l = if seq_lt(r.left, seq) {
        seq
    } else {
        r.left
    };
    if seq_le(r.right, seq) || seq_le(r.right, l) {
        0
    } else {
        r.right.wrapping_sub(l) as nat
    }
}

/// Bytes of `rs` at and above `seq`.
pub open spec fn bytes_above(rs: Seq<Range>, seq: u32) -> nat
    decreases rs.len(),
{
    if rs.len() == 0 {
        0
    } else {
        bytes_above(rs.drop_last(), seq) + part_above(rs.last(), seq)
    }
}

/// Bytes of all the ranges of `rs`.
pub open spec fn bytes_of(rs: Seq<Range>) -> nat
    decreases rs.len(),
{
    if rs.len() == 0 {
        0
    } else {
        bytes_of(rs.drop_last()) + rs.last().right.wrapping_sub(rs.last().left) as nat
    }
}

/// The higher of `start` and `una`.
pub open spec fn not_below(start: u32, una: u32) -> u32 {
    if seq_lt(start, una) {
        una
    } else {
        start
    }
}

/// What [`SackScoreboard::next_seg`] answers.
pub open spec fn next_of(v: ScoreView, start: u32, snd_max: u32, mss: u32) -> Option<(u32, u32)> {
    let from = not_below(start, v.una);
    if seq_le(snd_max, from) {
        None
    } else {
        next_lost(v.ranges, from, snd_max, mss)
    }
}

/// Bytes that `r` shares with `[left, right)`.
pub open spec fn shared(r: Range, left: u32, right: u32) -> nat {
    let il = if seq_lt(r.left, left) {
        left
    } else {
        r.left
    };
    let ir = if seq_lt(r.right, right) {
        r.right
    } else {
        right
    };
    if seq_lt(il, ir) {
        ir.wrapping_sub(il) as nat
    } else {
        0
    }
}

/// Bytes that the ranges of `rs` share with `[left, right)`, taken together.
pub open spec fn bytes_shared(rs: Seq<Range>, left: u32, right: u32) -> nat
    decreases rs.len(),
{
    if rs.len() == 0 {
        0
    } else {
        bytes_shared(rs.drop_last(), left, right) + shared(rs.last(), left, right)
    }
}

/// Bytes of the block `[left, right)`, clipped to the window, that no range of
/// `rs` covers yet.
pub open spec fn newly_covered(
    rs: Seq<Range>,
    left: u32,
    right: u32,
    snd_una: u32,
    snd_max: u32,
) -> int {
    match clip_to_window(left, right, snd_una, snd_max) {
        None => 0,
        Some(r) => max(
            0,
            r.right.wrapping_sub(r.left) - bytes_shared(rs, r.left, r.right),
        ),
    }
}

/// At least [`DUP_THRESH`] segments of acknowledged data lie above `seq`.
pub open spec fn lost(rs: Seq<Range>, seq: u32, mss: u32) -> bool {
    min(bytes_above(rs, seq) as int, u32::MAX as int) >= min(mss * DUP_THRESH, u32::MAX as int)
}

/// Index of the first range from `from` on that holds `seq`; `rs.len()` when
/// there is none.
pub open spec fn first_holding(rs: Seq<Range>, seq: u32, from: int) -> int
    decreases rs.len() - from,
{
    if from >= rs.len() {
        rs.len() as int
    } else if range_has(rs[from], seq) {
        from
    } else {
        first_holding(rs, seq, from + 1)
    }
}

/// Where the hole at `cursor` ends: the lowest left edge above it, but not above
/// `end`. Considers the first `n` ranges.
pub open spec fn hole_end(rs: Seq<Range>, cursor: u32, end: u32, n: int) -> u32
    decreases n,
{
    if n <= 0 {
        end
    } else {
        let e = hole_end(rs, cursor, end, n - 1);
        let l = rs[n - 1].left;
        if seq_gt(l, cursor) && seq_lt(l, e) {
            l
        } else {
            e
        }
    }
}

/// How far `cursor` lies before `end`; zero when it does not.
pub open spec fn before(cursor: u32, end: u32) -> nat {
    if seq_lt(cursor, end) {
        -seq_diff(cursor, end) as nat
    } else {
        0
    }
}

/// The first hole in `[cursor, end)`: what is left of the range after skipping
/// the ranges that hold its start, up to the next range.
pub open spec fn first_hole(rs: Seq<Range>, cursor: u32, end: u32) -> Option<(u32, u32)>
    decreases before(cursor, end),
{
    if !seq_lt(cursor, end) {
        None
    } else {
        let i = first_holding(rs, cursor, 0);
        if i < rs.len() {
            if before(rs[i].right, end) < before(cursor, end) {
                first_hole(rs, rs[i].right, end)
            } else {
                None
            }
        } else {
            Some((cursor, hole_end(rs, cursor, end, rs.len() as int)))
        }
    }
}

/// The first lost hole at or above `cursor` and below `end`: where it starts and
/// how much of it, at most `mss` bytes, to send.
pub open spec fn next_lost(rs: Seq<Range>, cursor: u32, end: u32, mss: u32) -> Option<(u32, u32)>
    decreases before(cursor, end),
{
    if !seq_lt(cursor, end) {
        None
    } else {
        let i = first_holding(rs, cursor, 0);
        let next = if i < rs.len() {
            rs[i].right
        } else {
            hole_end(rs, cursor, end, rs.len() as int)
        };
        if i >= rs.len() && lost(rs, cursor, mss) {
            Some((cursor, min(next.wrapping_sub(cursor) as int, mss as int) as u32))
        } else if before(next, end) < before(cursor, end) {
            next_lost(rs, next, end, mss)
        } else {
            None
        }
    }
}

/// The mathematical content of a scoreboard.
#[verifier::ext_equal]
pub struct ScoreView {
    pub ranges: Seq<Range>,
    pub una: u32,
}

/// The scoreboard. Its view holds the ranges, lowest first, and the `snd_una`
/// of the last block or prune, which they are sorted by.
pub struct SackScoreboard {
    ranges: Vec<Range>,
    una: u32,
}

impl View for SackScoreboard {
    type V = ScoreView;

    closed spec fn view(&self) -> ScoreView {
        ScoreView { ranges: self.ranges@, una: self.una }
    }
}

fn touches(a: Range, b: Range) -> (r: bool)
    ensures
        r == overlap_or_adjacent(a, b),
{
    seq_le(a.left, b.right) && seq_le(b.left, a.right)
}

fn join(a: Range, b: Range) -> (r: Range)
    ensures
        r == union_of(a, b),
{
    Range {
        left: if seq_lt(a.left, b.left) {
            a.left
        } else {
            b.left
        },
        right: if seq_gt(a.right, b.right) {
            a.right
        } else {
            b.right
        },
    }
}

fn clip(left: u32, right: u32, una: u32, top: u32) -> (r: Option<Range>)
    ensures
        r == clip_to_window(left, right, una, top),
{
    if seq_le(right, left) {
        return None;
    }
    let l: u32 = if seq_le(left, una) {
        una
    } else {
        left
    };
    if seq_le(top, l) {
        return None;
    }
    let r: u32 = if seq_lt(top, right) {
        top
    } else {
        right
    };
    if seq_le(r, l) {
        return None;
    }
    Some(Range { left: l, right: r })
}

/// Whether `next` lies nearer below `end` than `cursor` does, or no longer below
/// it: a scan that gets no nearer stops.
pub(crate) fn nearer(next: u32, cursor: u32, end: u32) -> (r: bool)
    requires
        seq_lt(cursor, end),
    ensures
        r == (before(next, end) < before(cursor, end)),
{
    !seq_lt(next, end) || end.wrapping_sub(next) < end.wrapping_sub(cursor)
}

impl SackScoreboard {
    pub fn new() -> (sb: Self)
        ensures
            sb@ == (ScoreView { ranges: Seq::empty(), una: 0 }),
    {
        SackScoreboard { ranges: Vec::with_capacity(SCOREBOARD_CAP), una: 0 }
    }

    /// Forgets every range.
    pub fn clear(&mut self)
        ensures
            final(self)@ == (ScoreView { ranges: Seq::empty(), ..old(self)@ }),
    {
        self.ranges.clear();
    }

    pub fn is_empty(&self) -> (b: bool)
        ensures
            b == (self@.ranges.len() == 0),
    {
        self.ranges.len() == 0
    }

    /// The ranges, lowest first.
    pub fn ranges(&self) -> (rs: &[Range])
        ensures
            rs@ == self@.ranges,
    {
        self.ranges.as_slice()
    }

    /// Drops what lies below `snd_una`, the new cumulative acknowledgement.
    pub fn prune_below(&mut self, snd_una: u32)
        ensures
            final(self)@ == (ScoreView { ranges: pruned(old(self)@.ranges, snd_una), una: snd_una }),
    {
        let ghost all = self.ranges@;
        self.una = snd_una;
        let mut kept: usize = 0;
        let mut i: usize = 0;
        assert(all.take(0) =~= Seq::<Range>::empty());
        while i < self.ranges.len()
            invariant
                kept <= i <= self.ranges@.len() == all.len(),
                self.una == snd_una,
                self.ranges@.take(kept as int) == pruned(all.take(i as int), snd_una),
                self.ranges@.skip(i as int) == all.skip(i as int),
            decreases self.ranges@.len() - i,
        {
            let ghost was = self.ranges@;
            let r: Range = self.ranges[i];
            assert(r == self.ranges@.skip(i as int)[0] && r == all.skip(i as int)[0]);
            assert(all.take(i + 1).drop_last() =~= all.take(i as int));
            if !seq_le(r.right, snd_una) {
                let left: u32 = if seq_lt(r.left, snd_una) {
                    snd_una
                } else {
                    r.left
                };
                if left != r.right {
                    self.ranges[kept] = Range { left, right: r.right };
                    kept = kept + 1;
                    assert(self.ranges@.take(kept as int) =~= was.take(kept - 1).push(
                        Range { left, right: r.right },
                    ));
                }
            }
            i = i + 1;
            assert(self.ranges@.skip(i as int) =~= was.skip(i - 1).skip(1));
            assert(all.skip(i as int) =~= all.skip(i - 1).skip(1));
        }
        assert(all.take(i as int) =~= all);
        self.ranges.truncate(kept);
    }

    /// Absorbs a SACK block, clipped to `[snd_una, snd_max]` and merged with the
    /// ranges that it touches. A block that is ill-formed or outside the window
    /// changes nothing. Without room the highest range goes.
    pub fn add_range(&mut self, left: u32, right: u32, snd_una: u32, snd_max: u32)
        ensures
            final(self)@ == with_block(old(self)@, left, right, snd_una, snd_max),
    {
        let new: Range = match clip(left, right, snd_una, snd_max) {
            Some(r) => r,
            None => {
                return;
            },
        };
        self.una = snd_una;
        let mut i: usize = 0;
        while i < self.ranges.len() && !touches(new, self.ranges[i])
            invariant
                i <= self.ranges@.len(),
                self.ranges@ == old(self).ranges@,
                self.una == snd_una,
                first_touching(self.ranges@, new, -1, i as int) == first_touching(
                    self.ranges@,
                    new,
                    -1,
                    0,
                ),
            decreases self.ranges@.len() - i,
        {
            i = i + 1;
        }
        if i < self.ranges.len() {
            let merged: Range = join(self.ranges[i], new);
            self.ranges[i] = merged;
            self.cascade_merge_from(i);
            self.normalize();
            return;
        }
        if self.ranges.len() < SCOREBOARD_CAP {
            self.ranges.push(new);
        } else {
            let mut h: usize = 0;
            let mut k: usize = 1;
            while k < self.ranges.len()
                invariant
                    1 <= k <= self.ranges@.len(),
                    h < k,
                    self.ranges@ == old(self).ranges@,
                    self.una == snd_una,
                    h == highest(self.ranges@, self.una, k - 1),
                decreases self.ranges@.len() - k,
            {
                let cur: u32 = self.ranges[k].left.wrapping_sub(self.una);
                let top: u32 = self.ranges[h].left.wrapping_sub(self.una);
                if cur > top {
                    h = k;
                }
                k = k + 1;
            }
            let top: u32 = self.ranges[h].left.wrapping_sub(self.una);
            if new.left.wrapping_sub(self.una) < top {
                self.ranges[h] = new;
            }
        }
        self.normalize();
    }

    /// Bytes acknowledged above `seq`.
    pub fn sacked_above(&self, seq: u32) -> (n: u32)
        ensures
            n == min(bytes_above(self@.ranges, seq) as int, u32::MAX as int),
    {
        let mut total: u32 = 0;
        let mut i: usize = 0;
        assert(self.ranges@.take(0) =~= Seq::<Range>::empty());
        while i < self.ranges.len()
            invariant
                i <= self.ranges@.len(),
                total == min(
                    bytes_above(self.ranges@.take(i as int), seq) as int,
                    u32::MAX as int,
                ),
            decreases self.ranges@.len() - i,
        {
            let r: Range = self.ranges[i];
            assert(self.ranges@.take(i + 1).drop_last() =~= self.ranges@.take(i as int));
            let left: u32 = if seq_lt(r.left, seq) {
                seq
            } else {
                r.left
            };
            if !seq_le(r.right, seq) && !seq_le(r.right, left) {
                total = total.saturating_add(r.right.wrapping_sub(left));
            }
            i = i + 1;
        }
        assert(self.ranges@.take(i as int) =~= self.ranges@);
        total
    }

    /// How many bytes of a SACK block, clipped to the window, are new. A
    /// repeated block reports none.
    pub fn bytes_newly_covered(&self, left: u32, right: u32, snd_una: u32, snd_max: u32) -> (n: u32)
        ensures
            n == newly_covered(self@.ranges, left, right, snd_una, snd_max),
    {
        let new: Range = match clip(left, right, snd_una, snd_max) {
            Some(r) => r,
            None => {
                return 0;
            },
        };
        let total: u32 = new.right.wrapping_sub(new.left);
        let mut seen: u32 = 0;
        let mut i: usize = 0;
        assert(self.ranges@.take(0) =~= Seq::<Range>::empty());
        while i < self.ranges.len()
            invariant
                i <= self.ranges@.len(),
                seen == min(
                    bytes_shared(self.ranges@.take(i as int), new.left, new.right) as int,
                    u32::MAX as int,
                ),
            decreases self.ranges@.len() - i,
        {
            let r: Range = self.ranges[i];
            assert(self.ranges@.take(i + 1).drop_last() =~= self.ranges@.take(i as int));
            let il: u32 = if seq_lt(r.left, new.left) {
                new.left
            } else {
                r.left
            };
            let ir: u32 = if seq_lt(r.right, new.right) {
                r.right
            } else {
                new.right
            };
            if seq_lt(il, ir) {
                seen = seen.saturating_add(ir.wrapping_sub(il));
            }
            i = i + 1;
        }
        assert(self.ranges@.take(i as int) =~= self.ranges@);
        total.saturating_sub(seen)
    }

    fn first_holding(&self, seq: u32) -> (i: usize)
        ensures
            i == first_holding(self@.ranges, seq, 0),
            i <= self@.ranges.len(),
            i < self@.ranges.len() ==> range_has(self@.ranges[i as int], seq),
    {
        let mut i: usize = 0;
        while i < self.ranges.len() && !self.ranges[i].contains(seq)
            invariant
                i <= self.ranges@.len(),
                first_holding(self.ranges@, seq, i as int) == first_holding(self.ranges@, seq, 0),
            decreases self.ranges@.len() - i,
        {
            i = i + 1;
        }
        i
    }

    fn hole_end(&self, cursor: u32, end: u32) -> (e: u32)
        requires
            seq_lt(cursor, end),
        ensures
            e == hole_end(self@.ranges, cursor, end, self@.ranges.len() as int),
            before(e, end) < before(cursor, end),
    {
        let mut e: u32 = end;
        let mut i: usize = 0;
        while i < self.ranges.len()
            invariant
                i <= self.ranges@.len(),
                seq_lt(cursor, end),
                e == hole_end(self.ranges@, cursor, end, i as int),
                before(e, end) < before(cursor, end),
            decreases self.ranges@.len() - i,
        {
            let l: u32 = self.ranges[i].left;
            if seq_gt(l, cursor) && seq_lt(l, e) {
                e = l;
            }
            i = i + 1;
        }
        e
    }

    /// The first part of `[left, right)` that is not acknowledged, if any.
    pub fn first_unsacked_subrange(&self, left: u32, right: u32) -> (r: Option<(u32, u32)>)
        ensures
            r == (if seq_le(right, left) {
                None
            } else {
                first_hole(self@.ranges, left, right)
            }),
    {
        if seq_le(right, left) {
            return None;
        }
        let mut cursor: u32 = left;
        while seq_lt(cursor, right)
            invariant
                !seq_le(right, left),
                first_hole(self@.ranges, cursor, right) == first_hole(self@.ranges, left, right),
            decreases before(cursor, right),
        {
            let i: usize = self.first_holding(cursor);
            if i < self.ranges.len() {
                assert(self@.ranges[i as int] == self.ranges@[i as int]);
                let next: u32 = self.ranges[i].right;
                if !nearer(next, cursor, right) {
                    return None;
                }
                cursor = next;
            } else {
                return Some((cursor, self.hole_end(cursor, right)));
            }
        }
        None
    }

    /// Bytes acknowledged in all the ranges.
    pub fn sacked_bytes(&self) -> (n: u32)
        ensures
            n == min(bytes_of(self@.ranges) as int, u32::MAX as int),
    {
        let mut total: u32 = 0;
        let mut i: usize = 0;
        assert(self.ranges@.take(0) =~= Seq::<Range>::empty());
        while i < self.ranges.len()
            invariant
                i <= self.ranges@.len(),
                total == min(bytes_of(self.ranges@.take(i as int)) as int, u32::MAX as int),
            decreases self.ranges@.len() - i,
        {
            assert(self.ranges@.take(i + 1).drop_last() =~= self.ranges@.take(i as int));
            total = total.saturating_add(self.ranges[i].len());
            i = i + 1;
        }
        assert(self.ranges@.take(i as int) =~= self.ranges@);
        total
    }

    /// Whether the byte at `seq` counts as lost: at least three segments' worth
    /// of acknowledged data lies above it (RFC 6675 section 4).
    pub fn is_lost(&self, seq: u32, mss: u32) -> (b: bool)
        ensures
            b == lost(self@.ranges, seq, mss),
    {
        let threshold: u32 = if mss > u32::MAX / DUP_THRESH {
            u32::MAX
        } else {
            mss * DUP_THRESH
        };
        self.sacked_above(seq) >= threshold
    }

    /// The first hole at or above `start` and the last `snd_una`, and below `snd_max`,
    /// that is lost: its first sequence number and how much of it, at most `mss`, to
    /// retransmit.
    pub fn next_seg(&self, start: u32, snd_max: u32, mss: u32) -> (r: Option<(u32, u32)>)
        ensures
            r == next_of(self@, start, snd_max, mss),
    {
        let from: u32 = if seq_lt(start, self.una) {
            self.una
        } else {
            start
        };
        if seq_le(snd_max, from) {
            return None;
        }
        let mut cursor: u32 = from;
        while seq_lt(cursor, snd_max)
            invariant
                from == not_below(start, self@.una),
                !seq_le(snd_max, from),
                next_lost(self@.ranges, cursor, snd_max, mss) == next_lost(
                    self@.ranges,
                    from,
                    snd_max,
                    mss,
                ),
            decreases before(cursor, snd_max),
        {
            let i: usize = self.first_holding(cursor);
            if i < self.ranges.len() {
                assert(self@.ranges[i as int] == self.ranges@[i as int]);
                let next: u32 = self.ranges[i].right;
                if !nearer(next, cursor, snd_max) {
                    return None;
                }
                cursor = next;
            } else {
                let end: u32 = self.hole_end(cursor, snd_max);
                if self.is_lost(cursor, mss) {
                    let len: u32 = end.wrapping_sub(cursor);
                    return Some(
                        (
                            cursor,
                            if len <= mss {
                                len
                            } else {
                                mss
                            },
                        ),
                    );
                }
                cursor = end;
            }
        }
        None
    }

    /// Lets the range at `i` absorb every range that it touches.
    fn cascade_merge_from(&mut self, i: usize)
        requires
            i < old(self)@.ranges.len(),
        ensures
            final(self)@ == (ScoreView { ranges: cascade(old(self)@.ranges, i as int), ..old(
                self,
            )@ }),
    {
        let mut at: usize = i;
        loop
            invariant
                at < self.ranges@.len(),
                self.una == old(self).una,
                cascade(self.ranges@, at as int) == cascade(old(self).ranges@, i as int),
            decreases self.ranges@.len(),
        {
            let base: Range = self.ranges[at];
            let mut j: usize = 0;
            while j < self.ranges.len() && (j == at || !touches(base, self.ranges[j]))
                invariant
                    j <= self.ranges@.len(),
                    at < self.ranges@.len(),
                    base == self.ranges@[at as int],
                    first_touching(self.ranges@, base, at as int, j as int) == first_touching(
                        self.ranges@,
                        base,
                        at as int,
                        0,
                    ),
                decreases self.ranges@.len() - j,
            {
                j = j + 1;
            }
            if j >= self.ranges.len() {
                return;
            }
            let merged: Range = join(base, self.ranges[j]);
            self.ranges[at] = merged;
            let last: usize = self.ranges.len() - 1;
            self.ranges.swap_remove(j);
            if j < last && at == last {
                at = j;
            }
        }
    }

    /// Sorts the ranges by how far they start above `una`.
    fn normalize(&mut self)
        ensures
            final(self)@ == (ScoreView { ranges: sorted(old(self)@.ranges, old(self)@.una), ..old(
                self,
            )@ }),
    {
        let ghost all = self.ranges@;
        let una: u32 = self.una;
        let mut i: usize = 0;
        assert(all.take(0) =~= Seq::<Range>::empty());
        assert(all =~= sorted(all.take(0), una) + all.skip(0));
        while i < self.ranges.len()
            invariant
                i <= self.ranges@.len() == all.len(),
                self.una == old(self).una == una,
                all == old(self).ranges@,
                sorted(all.take(i as int), una).len() == i,
                self.ranges@ == sorted(all.take(i as int), una) + all.skip(i as int),
            decreases self.ranges@.len() - i,
        {
            let ghost front = sorted(all.take(i as int), una);
            let ghost cur = all[i as int];
            let mut j: usize = i;
            proof {
                assert(self.ranges@[i as int] == cur);
                assert(self.ranges@.take(i as int) =~= front);
                assert(all.take(i + 1).drop_last() =~= all.take(i as int));
                assert(self.ranges@.subrange(i + 1, i + 1) =~= Seq::<Range>::empty());
                assert(insert_sorted(front, cur, una) + Seq::<Range>::empty() =~= insert_sorted(
                    front,
                    cur,
                    una,
                ));
                assert(self.ranges@.skip(i + 1) =~= all.skip(i + 1));
            }
            while j > 0 && self.ranges[j].left.wrapping_sub(una) < self.ranges[j
                - 1].left.wrapping_sub(una)
                invariant
                    j <= i < self.ranges@.len() == all.len(),
                    self.una == una,
                    self.ranges@[j as int] == cur,
                    insert_sorted(self.ranges@.take(j as int), cur, una) + self.ranges@.subrange(
                        j + 1,
                        i + 1,
                    ) == insert_sorted(front, cur, una),
                    self.ranges@.skip(i + 1) == all.skip(i + 1),
                decreases j,
            {
                let ghost prev = self.ranges@;
                let lower: Range = self.ranges[j];
                let upper: Range = self.ranges[j - 1];
                self.ranges[j - 1] = lower;
                self.ranges[j] = upper;
                proof {
                    let now = self.ranges@;
                    assert(prev.take(j as int).drop_last() =~= now.take(j - 1));
                    assert(prev.take(j as int).last() == upper);
                    assert(insert_sorted(prev.take(j as int), cur, una) == insert_sorted(
                        now.take(j - 1),
                        cur,
                        una,
                    ).push(upper));
                    assert(insert_sorted(now.take(j - 1), cur, una) + now.subrange(j as int, i + 1)
                        =~= insert_sorted(now.take(j - 1), cur, una).push(upper) + prev.subrange(
                        j + 1,
                        i + 1,
                    ));
                    assert(now.skip(i + 1) =~= prev.skip(i + 1));
                }
                j = j - 1;
            }
            proof {
                let now = self.ranges@;
                assert(insert_sorted(now.take(j as int), cur, una) == now.take(j as int).push(cur));
                assert(now.take(i + 1) =~= now.take(j as int).push(cur) + now.subrange(
                    j + 1,
                    i + 1,
                ));
                assert(now.take(i + 1) == sorted(all.take(i + 1), una));
                assert(now =~= now.take(i + 1) + now.skip(i + 1));
            }
            i = i + 1;
        }
        assert(all.take(i as int) =~= all);
        assert(self.ranges@ =~= sorted(all, una));
    }
}

impl Default for SackScoreboard {
    fn default() -> (sb: Self)
        ensures
            sb@ == (ScoreView { ranges: Seq::empty(), una: 0 }),
    {
        SackScoreboard::new()
    }
}

} // verus!
