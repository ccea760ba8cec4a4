//! Ranges that RACK found lost and that wait for retransmission.

use crate::scoreboard::{before, first_hole, nearer, Range, SackScoreboard};
use crate::seq::{seq_gt, seq_le, seq_lt};
use vstd::prelude::*;

verus! {

/// Most ranges that wait.
pub const RACK_LOST_QUEUE_CAP: usize = 32;

/// Some queued range holds all of `[left, right)`.
pub open spec fn queued(q: Seq<(u32, u32)>, left: u32, right: u32) -> bool {
    exists|i: int|
        0 <= i < q.len() && seq_le((#[trigger] q[i]).0, left) && seq_le(right, q[i].1)
}

/// Index of the first queued range from `from` on that starts further above `una`
/// than `left`; `q.len()` if none.
pub open spec fn place(q: Seq<(u32, u32)>, left: u32, una: u32, from: int) -> int
    decreases q.len() - from,
{
    if from >= q.len() {
        q.len() as int
    } else if left.wrapping_sub(una) < q[from].0.wrapping_sub(una) {
        from
    } else {
        place(q, left, una, from + 1)
    }
}

/// The queue after `[left, right)` has been put in its place. An empty range, one
/// that a queued range holds, and one that finds the queue full change nothing.
pub open spec fn with_lost(q: Seq<(u32, u32)>, left: u32, right: u32, una: u32) -> Seq<(u32, u32)> {
    if seq_le(right, left) || queued(q, left, right) || q.len() >= RACK_LOST_QUEUE_CAP {
        q
    } else {
        q.insert(place(q, left, una, 0), (left, right))
    }
}

/// The queue after the holes that `rs` leaves in `[left, right)` have been put in
/// their places.
pub open spec fn with_holes(
    q: Seq<(u32, u32)>,
    rs: Seq<Range>,
    left: u32,
    right: u32,
    una: u32,
) -> Seq<(u32, u32)>
    decreases before(left, right),
{
    if seq_le(right, left) {
        q
    } else {
        match first_hole(rs, left, right) {
            Some((a, b)) => {
                let t = with_lost(q, a, b, una);
                if before(b, right) < before(left, right) {
                    with_holes(t, rs, b, right, una)
                } else {
                    t
                }
            },
            None => q,
        }
    }
}

/// The queue after the loss `r`: what of it lies in `[una, top)`, and is not in
/// `rs`, has been put in its place.
pub open spec fn with_loss(
    q: Seq<(u32, u32)>,
    rs: Seq<Range>,
    r: (u32, u32),
    una: u32,
    top: u32,
) -> Seq<(u32, u32)> {
    let lo = if seq_lt(r.0, una) {
        una
    } else {
        r.0
    };
    let hi = if seq_gt(r.1, top) {
        top
    } else {
        r.1
    };
    with_holes(q, rs, lo, hi, una)
}

/// The queue after the first `n` of the losses `found`.
pub open spec fn with_all_lost(
    q: Seq<(u32, u32)>,
    found: Seq<(u32, u32)>,
    rs: Seq<Range>,
    una: u32,
    top: u32,
    n: int,
) -> Seq<(u32, u32)>
    decreases n,
{
    if n <= 0 {
        q
    } else {
        with_loss(with_all_lost(q, found, rs, una, top, n - 1), rs, found[n - 1], una, top)
    }
}

/// What of the first `n` queued ranges lies above `una`.
pub open spec fn still_lost(q: Seq<(u32, u32)>, una: u32, n: int) -> Seq<(u32, u32)>
    decreases n,
{
    if n <= 0 {
        Seq::empty()
    } else {
        let r = q[n - 1];
        let rest = still_lost(q, una, n - 1);
        if seq_le(r.1, una) {
            rest
        } else {
            with_lost(
                rest,
                if seq_lt(r.0, una) {
                    una
                } else {
                    r.0
                },
                r.1,
                una,
            )
        }
    }
}

/// Puts `[seq_start, seq_end)` in its place by how far it starts above `una`.
fn put(q: &mut Vec<(u32, u32)>, seq_start: u32, seq_end: u32, una: u32)
    ensures
        final(q)@ == with_lost(old(q)@, seq_start, seq_end, una),
{
    if seq_le(seq_end, seq_start) {
        return;
    }
    let mut i: usize = 0;
    while i < q.len()
        invariant
            i <= q@.len(),
            *q == *old(q),
            forall|k: int|
                0 <= k < i ==> !(seq_le((#[trigger] q@[k]).0, seq_start) && seq_le(
                    seq_end,
                    q@[k].1,
                )),
        decreases q@.len() - i,
    {
        if seq_le(q[i].0, seq_start) && seq_le(seq_end, q[i].1) {
            assert(seq_le(q@[i as int].0, seq_start));
            return;
        }
        i = i + 1;
    }
    assert(!queued(q@, seq_start, seq_end));
    if q.len() >= RACK_LOST_QUEUE_CAP {
        return;
    }
    let mut pos: usize = 0;
    while pos < q.len() && !(seq_start.wrapping_sub(una)
        < q[pos].0.wrapping_sub(una))
        invariant
            pos <= q@.len(),
            *q == *old(q),
            place(q@, seq_start, una, pos as int) == place(q@, seq_start, una, 0),
        decreases q@.len() - pos,
    {
        pos = pos + 1;
    }
    q.insert(pos, (seq_start, seq_end));
}

/// Bounded queue of lost ranges, lowest first. Its view is the ranges.
#[derive(Debug)]
pub struct RackLostQueue {
    ranges: Vec<(u32, u32)>,
    /// Room to build the queue anew in.
    spare: Vec<(u32, u32)>,
}

impl View for RackLostQueue {
    type V = Seq<(u32, u32)>;

    closed spec fn view(&self) -> Seq<(u32, u32)> {
        self.ranges@
    }
}

impl RackLostQueue {
    pub fn new() -> (q: Self)
        ensures
            q@ == Seq::<(u32, u32)>::empty(),
    {
        RackLostQueue {
            ranges: Vec::with_capacity(RACK_LOST_QUEUE_CAP),
            spare: Vec::with_capacity(RACK_LOST_QUEUE_CAP),
        }
    }

    pub fn clear(&mut self)
        ensures
            final(self)@ == Seq::<(u32, u32)>::empty(),
    {
        self.ranges.clear();
    }

    pub fn is_empty(&self) -> (b: bool)
        ensures
            b == (self@.len() == 0),
    {
        self.ranges.len() == 0
    }

    /// Puts `[seq_start, seq_end)` in its place by how far it starts above `una`.
    pub fn insert_sorted(&mut self, seq_start: u32, seq_end: u32, una: u32)
        ensures
            final(self)@ == with_lost(old(self)@, seq_start, seq_end, una),
    {
        put(&mut self.ranges, seq_start, seq_end, una);
    }

    /// Queues the holes that `board` leaves in `[left, right)`.
    fn insert_holes(&mut self, board: &SackScoreboard, left: u32, right: u32, una: u32)
        ensures
            final(self)@ == with_holes(old(self)@, board@.ranges, left, right, una),
    {
        let mut cursor: u32 = left;
        while !seq_le(right, cursor)
            invariant
                with_holes(self@, board@.ranges, cursor, right, una) == with_holes(
                    old(self)@,
                    board@.ranges,
                    left,
                    right,
                    una,
                ),
            decreases before(cursor, right),
        {
            match board.first_unsacked_subrange(cursor, right) {
                Some((a, b)) => {
                    self.insert_sorted(a, b, una);
                    if !nearer(b, cursor, right) {
                        return;
                    }
                    cursor = b;
                },
                None => {
                    return;
                },
            }
        }
    }

    /// Queues the losses `found`, one after the other, as far as they lie in
    /// `[una, top)` and `board` does not show them acknowledged.
    pub fn insert_all(&mut self, found: &[(u32, u32)], board: &SackScoreboard, una: u32, top: u32)
        ensures
            final(self)@ == with_all_lost(
                old(self)@,
                found@,
                board@.ranges,
                una,
                top,
                found@.len() as int,
            ),
    {
        let mut i: usize = 0;
        while i < found.len()
            invariant
                i <= found@.len(),
                self@ == with_all_lost(old(self)@, found@, board@.ranges, una, top, i as int),
            decreases found@.len() - i,
        {
            let r = found[i];
            let lo: u32 = if seq_lt(r.0, una) {
                una
            } else {
                r.0
            };
            let hi: u32 = if seq_gt(r.1, top) {
                top
            } else {
                r.1
            };
            self.insert_holes(board, lo, hi, una);
            i = i + 1;
        }
    }

    /// Takes the lowest range.
    pub fn take_lowest(&mut self) -> (r: Option<(u32, u32)>)
        ensures
            old(self)@.len() == 0 ==> r is None && final(self)@ == old(self)@,
            old(self)@.len() > 0 ==> r == Some(old(self)@[0]) && final(self)@ == old(self)@.skip(1),
    {
        if self.ranges.len() == 0 {
            return None;
        }
        let first = self.ranges.remove(0);
        assert(self@ =~= old(self)@.skip(1));
        Some(first)
    }

    /// Drops what lies below `una`.
    pub fn drop_acked(&mut self, una: u32)
        ensures
            final(self)@ == still_lost(old(self)@, una, old(self)@.len() as int),
    {
        std::mem::swap(&mut self.ranges, &mut self.spare);
        self.ranges.clear();
        let mut k: usize = 0;
        while k < self.spare.len()
            invariant
                k <= self.spare@.len(),
                self.spare@ == old(self)@,
                self@ == still_lost(old(self)@, una, k as int),
            decreases self.spare@.len() - k,
        {
            let r = self.spare[k];
            if !seq_le(r.1, una) {
                let lo: u32 = if seq_lt(r.0, una) {
                    una
                } else {
                    r.0
                };
                put(&mut self.ranges, lo, r.1, una);
            }
            k = k + 1;
        }
    }
}

impl Default for RackLostQueue {
    fn default() -> (q: Self)
        ensures
            q@ == Seq::<(u32, u32)>::empty(),
    {
        RackLostQueue::new()
    }
}

/// A queued loss stays queued until it is acknowledged: what of it lies above `una` is still
/// held by a queued range.
pub proof fn law_unacknowledged_loss_stays_queued(q: Seq<(u32, u32)>, una: u32, n: int)
    requires
        0 <= n <= q.len() <= RACK_LOST_QUEUE_CAP,
    ensures
        still_lost(q, una, n).len() <= n,
        forall|i: int|
            0 <= i < n && seq_gt((#[trigger] q[i]).1, una) && seq_lt(q[i].0, q[i].1) ==> queued(
                still_lost(q, una, n),
                if seq_lt(q[i].0, una) {
                    una
                } else {
                    q[i].0
                },
                q[i].1,
            ),
    decreases n,
{
    if n > 0 {
        law_unacknowledged_loss_stays_queued(q, una, n - 1);
        let rest = still_lost(q, una, n - 1);
        let r = q[n - 1];
        let lo = if seq_lt(r.0, una) {
            una
        } else {
            r.0
        };
        let all = still_lost(q, una, n);
        if seq_gt(r.1, una) {
            let k = place(rest, lo, una, 0);
            lemma_place(rest, lo, una, 0);
            if !(seq_le(r.1, lo) || queued(rest, lo, r.1)) {
                assert(all[k] == (lo, r.1));
                assert(queued(all, lo, r.1));
            }
            assert forall|a: u32, b: u32| #[trigger] queued(rest, a, b) implies queued(
                all,
                a,
                b,
            ) by {
                let j = choose|j: int|
                    0 <= j < rest.len() && seq_le((#[trigger] rest[j]).0, a) && seq_le(
                        b,
                        rest[j].1,
                    );
                if all != rest {
                    if j < k {
                        assert(all[j] == rest[j]);
                    } else {
                        assert(all[j + 1] == rest[j]);
                    }
                }
            }
        }
    }
}

proof fn lemma_place(q: Seq<(u32, u32)>, left: u32, una: u32, from: int)
    requires
        0 <= from <= q.len(),
    ensures
        from <= place(q, left, una, from) <= q.len(),
    decreases q.len() - from,
{
    if from < q.len() {
        lemma_place(q, left, una, from + 1);
    }
}

} // verus!
