//! Out-of-order receive buffer.
//!
//! It holds up to [`MAX_HOLES`] disjoint runs of bytes that arrived ahead of the
//! next expected one, so that the receiver can report several SACK blocks and
//! hand the bytes on once the holes fill. What does not fit is dropped; the
//! sender's timeout brings it back.

use crate::num::{min, min_usize};
use crate::seq::{seq_diff, seq_gt, seq_le, seq_lt};
use crate::wire::SackBlocks;
use vstd::prelude::*;

pub mod laws;
pub mod reports;

verus! {

/// Most disjoint runs that are held.
pub const MAX_HOLES: usize = 4;

/// Most bytes of one run: an equal share of [`crate::REASM_CAP`].
pub const SLOT_CAP: usize = 4096;

/// One held run. An empty run marks a free slot.
#[verifier::ext_equal]
pub struct Run {
    /// Sequence number of the first byte.
    pub start: u32,
    pub data: Seq<u8>,
    /// When the run last changed, on the buffer's own count.
    pub tag: u32,
}

/// The mathematical content of a [`Reassembly`].
#[verifier::ext_equal]
pub struct ReasmView {
    pub runs: Seq<Run>,
    pub next_tag: u32,
}

/// A free slot.
pub open spec fn no_run() -> Run {
    Run { start: 0, data: Seq::empty(), tag: 0 }
}

/// A buffer that holds nothing.
pub open spec fn nothing_held() -> ReasmView {
    ReasmView { runs: seq![no_run(), no_run(), no_run(), no_run()], next_tag: 1 }
}

/// The sequence number behind the run's last byte.
pub open spec fn run_end(r: Run) -> u32 {
    r.start.wrapping_add(r.data.len() as u32)
}

pub open spec fn used(r: Run) -> bool {
    r.data.len() > 0
}

/// Bytes held in `runs`.
pub open spec fn held(runs: Seq<Run>) -> nat
    decreases runs.len(),
{
    if runs.len() == 0 {
        0
    } else {
        held(runs.drop_last()) + runs.last().data.len()
    }
}

/// The runs overlap, judged by the serial order.
pub open spec fn runs_overlap(a: Run, b: Run) -> bool {
    seq_lt(a.start, run_end(b)) && seq_lt(b.start, run_end(a))
}

/// No two held runs overlap.
pub open spec fn overlap_free(runs: Seq<Run>) -> bool {
    forall|i: int, j: int|
        0 <= i < j < runs.len() && used(#[trigger] runs[i]) && used(#[trigger] runs[j])
            ==> !runs_overlap(runs[i], runs[j])
}

/// The count behind `tag`; zero, which marks a free slot, is skipped.
pub open spec fn tag_after(tag: u32) -> u32 {
    if tag == u32::MAX {
        1
    } else {
        (tag + 1) as u32
    }
}

/// A range of incoming bytes: where it starts, and the bytes.
#[verifier::ext_equal]
pub struct Incoming {
    pub seq: u32,
    pub data: Seq<u8>,
}

/// What is left of `p` behind its first `n` bytes.
pub open spec fn advance(p: Incoming, n: int) -> Incoming {
    if n >= p.data.len() {
        Incoming { seq: p.seq, data: Seq::empty() }
    } else {
        Incoming { seq: p.seq.wrapping_add(n as u32), data: p.data.skip(n) }
    }
}

/// `p` without the bytes before `rcv_nxt`.
pub open spec fn trim_old(p: Incoming, rcv_nxt: u32) -> Incoming {
    if seq_diff(rcv_nxt, p.seq) > 0 {
        advance(p, seq_diff(rcv_nxt, p.seq))
    } else {
        p
    }
}

/// `seq` lies in the run, judged by the serial order.
pub open spec fn run_has(r: Run, seq: u32) -> bool {
    used(r) && seq_le(r.start, seq) && seq_lt(seq, run_end(r))
}

/// Index of the first run from `from` on that has `seq`; `runs.len()` if none.
pub open spec fn first_having(runs: Seq<Run>, seq: u32, from: int) -> int
    decreases runs.len() - from,
{
    if from >= runs.len() {
        runs.len() as int
    } else if run_has(runs[from], seq) {
        from
    } else {
        first_having(runs, seq, from + 1)
    }
}

/// `p` without the leading bytes that are held already: up to `turns` runs are
/// skipped one after another.
pub open spec fn skip_held(runs: Seq<Run>, p: Incoming, turns: nat) -> Incoming
    decreases turns,
{
    let i = first_having(runs, p.seq, 0);
    if turns == 0 || p.data.len() == 0 || i >= runs.len() {
        p
    } else {
        skip_held(
            runs,
            advance(p, run_end(runs[i]).wrapping_sub(p.seq) as int),
            (turns - 1) as nat,
        )
    }
}

/// Where bytes from `seq` on must stop so as not to run into one of the first
/// `n` runs; `end` if nothing is in the way.
pub open spec fn clear_until(runs: Seq<Run>, seq: u32, end: u32, n: int) -> u32
    decreases n,
{
    if n <= 0 {
        end
    } else {
        let e = clear_until(runs, seq, end, n - 1);
        let r = runs[n - 1];
        if used(r) && seq_lt(seq, r.start) && seq_lt(r.start, e) {
            r.start
        } else {
            e
        }
    }
}

/// `p` cut short before the next held run.
pub open spec fn cut_before_held(runs: Seq<Run>, p: Incoming) -> Incoming {
    let end = p.seq.wrapping_add(p.data.len() as u32);
    let keep = clear_until(runs, p.seq, end, runs.len() as int).wrapping_sub(p.seq);
    Incoming { seq: p.seq, data: p.data.take(min(keep as int, p.data.len() as int)) }
}

/// The part of an incoming segment that is new and fits in front of the next held
/// run.
pub open spec fn new_part(runs: Seq<Run>, p: Incoming, rcv_nxt: u32) -> Incoming {
    let q = skip_held(runs, trim_old(p, rcv_nxt), MAX_HOLES as nat + 1);
    if q.data.len() == 0 {
        q
    } else {
        cut_before_held(runs, q)
    }
}

/// The run joins the front or the back of `p`.
pub open spec fn abuts(r: Run, p: Incoming) -> bool {
    used(r) && (p.seq == run_end(r) || p.seq.wrapping_add(p.data.len() as u32) == r.start)
}

/// Index of the first run from `from` on that `p` abuts; `runs.len()` if none.
pub open spec fn first_abutting(runs: Seq<Run>, p: Incoming, from: int) -> int
    decreases runs.len() - from,
{
    if from >= runs.len() {
        runs.len() as int
    } else if abuts(runs[from], p) {
        from
    } else {
        first_abutting(runs, p, from + 1)
    }
}

/// Index of the first free slot from `from` on; `runs.len()` if none.
pub open spec fn first_free(runs: Seq<Run>, from: int) -> int
    decreases runs.len() - from,
{
    if from >= runs.len() {
        runs.len() as int
    } else if !used(runs[from]) {
        from
    } else {
        first_free(runs, from + 1)
    }
}

/// The run after as much of `p` as fits has joined it, at its back if it can.
pub open spec fn extended(r: Run, p: Incoming, tag: u32) -> Run {
    let n = min(p.data.len() as int, SLOT_CAP - r.data.len());
    if p.seq == run_end(r) {
        Run { start: r.start, data: r.data + p.data.take(n), tag }
    } else {
        let cut = p.data.len() - n;
        Run { start: p.seq.wrapping_add(cut as u32), data: p.data.skip(cut) + r.data, tag }
    }
}

/// Index of the first run from `from` on, other than `i`, that joins the run at
/// `i`; `runs.len()` if none.
pub open spec fn first_neighbour(runs: Seq<Run>, i: int, from: int) -> int
    decreases runs.len() - from,
{
    if from >= runs.len() {
        runs.len() as int
    } else if from != i && used(runs[from]) && (run_end(runs[i]) == runs[from].start || run_end(
        runs[from],
    ) == runs[i].start) {
        from
    } else {
        first_neighbour(runs, i, from + 1)
    }
}

/// `r` without its first `n` bytes; a run that has none left frees its slot.
pub open spec fn without_front(r: Run, n: int) -> Run {
    if n >= r.data.len() {
        no_run()
    } else {
        Run { start: r.start.wrapping_add(n as u32), data: r.data.skip(n), ..r }
    }
}

/// `r` without its last `n` bytes; a run that has none left frees its slot.
pub open spec fn without_back(r: Run, n: int) -> Run {
    if n >= r.data.len() {
        no_run()
    } else {
        Run { data: r.data.take(r.data.len() - n), ..r }
    }
}

/// The runs after the one at `i` has taken as many bytes as it has room for from
/// its neighbour at `j`.
pub open spec fn join_neighbour(runs: Seq<Run>, i: int, j: int) -> Seq<Run> {
    let a = runs[i];
    let b = runs[j];
    let n = min(b.data.len() as int, SLOT_CAP - a.data.len());
    if run_end(a) == b.start {
        runs.update(i, Run { data: a.data + b.data.take(n), ..a }).update(j, without_front(b, n))
    } else {
        runs.update(
            i,
            Run {
                start: run_end(b).wrapping_sub(n as u32),
                data: b.data.skip(b.data.len() - n) + a.data,
                ..a
            },
        ).update(j, without_back(b, n))
    }
}

/// The runs after the one at `i` has joined with its neighbours, while it has
/// room.
pub open spec fn joined(runs: Seq<Run>, i: int) -> Seq<Run>
    decreases SLOT_CAP - runs[i].data.len(),
{
    let j = first_neighbour(runs, i, 0);
    if !(0 <= i < runs.len()) || !(0 <= j < runs.len()) || i == j || runs[i].data.len()
        >= SLOT_CAP || !used(runs[j]) {
        runs
    } else {
        joined(join_neighbour(runs, i, j), i)
    }
}

/// What storing the new part `p` leaves, and how many bytes were stored.
pub open spec fn stored(v: ReasmView, p: Incoming) -> (ReasmView, int) {
    let i = first_abutting(v.runs, p, 0);
    let k = first_free(v.runs, 0);
    if p.data.len() == 0 {
        (v, 0)
    } else if i < v.runs.len() {
        let n = min(p.data.len() as int, SLOT_CAP - v.runs[i].data.len());
        if n <= 0 {
            (v, 0)
        } else {
            (
                ReasmView {
                    runs: joined(v.runs.update(i, extended(v.runs[i], p, v.next_tag)), i),
                    next_tag: tag_after(v.next_tag),
                },
                n,
            )
        }
    } else if k < v.runs.len() {
        let n = min(p.data.len() as int, SLOT_CAP as int);
        (
            ReasmView {
                runs: joined(
                    v.runs.update(
                        k,
                        Run { start: p.seq, data: p.data.take(n), tag: v.next_tag },
                    ),
                    k,
                ),
                next_tag: tag_after(v.next_tag),
            },
            n,
        )
    } else {
        (v, 0)
    }
}

/// What a segment of `data` at `seq` leaves, and how many bytes were stored.
pub open spec fn inserted(v: ReasmView, seq: u32, data: Seq<u8>, rcv_nxt: u32) -> (ReasmView, int) {
    stored(v, new_part(v.runs, Incoming { seq, data }, rcv_nxt))
}

/// Index of the first run from `from` on that starts at `seq`; `runs.len()` if
/// none.
pub open spec fn first_starting(runs: Seq<Run>, seq: u32, from: int) -> int
    decreases runs.len() - from,
{
    if from >= runs.len() {
        runs.len() as int
    } else if used(runs[from]) && runs[from].start == seq {
        from
    } else {
        first_starting(runs, seq, from + 1)
    }
}

/// The start of the held run that comes first from `base` on.
pub open spec fn first_start(runs: Seq<Run>, base: u32) -> Option<u32>
    decreases runs.len(),
{
    if runs.len() == 0 {
        None
    } else {
        let r = runs.last();
        match first_start(runs.drop_last(), base) {
            Some(x) => if used(r) && r.start.wrapping_sub(base) < x.wrapping_sub(base) {
                Some(r.start)
            } else {
                Some(x)
            },
            None => if used(r) {
                Some(r.start)
            } else {
                None
            },
        }
    }
}

/// The buffer after the first `n` bytes of the run at `i` have been handed on.
pub open spec fn drained(v: ReasmView, i: int, n: int) -> ReasmView {
    if 0 <= i < v.runs.len() && used(v.runs[i]) && n > 0 {
        ReasmView { runs: v.runs.update(i, without_front(v.runs[i], n)), ..v }
    } else {
        v
    }
}

/// `runs`, by falling tag, with `r` put behind the last one that is not older.
pub open spec fn insert_by_tag(runs: Seq<Run>, r: Run) -> Seq<Run>
    decreases runs.len(),
{
    if runs.len() == 0 || runs.last().tag >= r.tag {
        runs.push(r)
    } else {
        insert_by_tag(runs.drop_last(), r).push(runs.last())
    }
}

/// The held runs, the most recently changed first.
pub open spec fn by_recency(runs: Seq<Run>) -> Seq<Run>
    decreases runs.len(),
{
    if runs.len() == 0 {
        runs
    } else if used(runs.last()) {
        insert_by_tag(by_recency(runs.drop_last()), runs.last())
    } else {
        by_recency(runs.drop_last())
    }
}

/// The edges of the runs, as SACK blocks.
pub open spec fn edges(runs: Seq<Run>) -> Seq<(u32, u32)> {
    runs.map_values(|r: Run| (r.start, run_end(r)))
}

/// The SACK blocks that report `runs`, most recent first, `max_blocks` at most.
pub open spec fn sack_report(runs: Seq<Run>, max_blocks: int) -> Seq<(u32, u32)> {
    let all = edges(by_recency(runs));
    all.take(min(all.len() as int, max_blocks))
}

/// One slot of storage; `data` is empty in a free one.
struct Slot {
    start: u32,
    data: Vec<u8>,
    inserted_at: u32,
}

impl Slot {
    spec fn run(&self) -> Run {
        Run { start: self.start, data: self.data@, tag: self.inserted_at }
    }

    fn is_used(&self) -> (b: bool)
        ensures
            b == used(self.run()),
    {
        self.data.len() > 0
    }

    fn end(&self) -> (e: u32)
        requires
            self.data@.len() <= SLOT_CAP,
        ensures
            e == run_end(self.run()),
    {
        self.start.wrapping_add(self.data.len() as u32)
    }

    /// Frees the slot.
    fn release(&mut self)
        ensures
            final(self).run() == no_run(),
    {
        self.start = 0;
        self.data.clear();
        self.inserted_at = 0;
    }

    /// Appends `b[lo..hi]`.
    fn append(&mut self, b: &[u8], lo: usize, hi: usize)
        requires
            lo <= hi <= b@.len(),
        ensures
            final(self).run() == (Run {
                data: old(self).data@ + b@.subrange(lo as int, hi as int),
                ..old(self).run()
            }),
    {
        let mut i: usize = lo;
        while i < hi
            invariant
                lo <= i <= hi <= b@.len(),
                self.start == old(self).start,
                self.inserted_at == old(self).inserted_at,
                self.data@ == old(self).data@ + b@.subrange(lo as int, i as int),
            decreases hi - i,
        {
            self.data.push(b[i]);
            i = i + 1;
            assert(self.data@ =~= old(self).data@ + b@.subrange(lo as int, i as int));
        }
    }

    /// Puts `b[lo..hi]` in front and moves the start to `start`.
    fn prepend(&mut self, b: &[u8], lo: usize, hi: usize, start: u32)
        requires
            lo <= hi <= b@.len(),
        ensures
            final(self).run() == (Run {
                start,
                data: b@.subrange(lo as int, hi as int) + old(self).data@,
                ..old(self).run()
            }),
    {
        let ghost was = self.data@;
        let len: usize = self.data.len();
        let n: usize = hi - lo;
        self.append(b, lo, hi);
        let total: usize = self.data.len();
        let mut i: usize = len;
        while i > 0
            invariant
                i <= len == was.len(),
                self.data@.len() == total == len + n,
                self.inserted_at == old(self).inserted_at,
                forall|k: int| 0 <= k < i ==> #[trigger] self.data@[k] == was[k],
                forall|k: int| i + n <= k < len + n ==> #[trigger] self.data@[k] == was[k - n],
            decreases i,
        {
            i = i - 1;
            let byte: u8 = self.data[i];
            self.data[i + n] = byte;
        }
        while i < n
            invariant
                i <= n == hi - lo,
                lo <= hi <= b@.len(),
                len == was.len(),
                self.data@.len() == len + n,
                self.inserted_at == old(self).inserted_at,
                forall|k: int| 0 <= k < i ==> #[trigger] self.data@[k] == b@[lo + k],
                forall|k: int| n <= k < len + n ==> #[trigger] self.data@[k] == was[k - n],
            decreases n - i,
        {
            self.data[i] = b[lo + i];
            i = i + 1;
        }
        assert(self.data@ =~= b@.subrange(lo as int, hi as int) + was);
        self.start = start;
    }

    /// Drops the first `n` bytes, or frees the slot if that is all of them.
    fn drop_front(&mut self, n: usize)
        requires
            old(self).data@.len() <= SLOT_CAP,
        ensures
            final(self).run() == without_front(old(self).run(), n as int),
    {
        if n >= self.data.len() {
            self.release();
            return;
        }
        let ghost was = self.data@;
        let keep: usize = self.data.len() - n;
        let mut i: usize = 0;
        while i < keep
            invariant
                i <= keep == was.len() - n,
                self.data@.len() == was.len() <= SLOT_CAP,
                self.start == old(self).start,
                self.inserted_at == old(self).inserted_at,
                forall|k: int| 0 <= k < i ==> #[trigger] self.data@[k] == was[k + n],
                forall|k: int| i <= k < was.len() ==> #[trigger] self.data@[k] == was[k],
            decreases keep - i,
        {
            let byte: u8 = self.data[i + n];
            self.data[i] = byte;
            i = i + 1;
        }
        self.data.truncate(keep);
        assert(self.data@ =~= was.skip(n as int));
        self.start = self.start.wrapping_add(n as u32);
    }

    /// Drops the last `n` bytes, or frees the slot if that is all of them.
    fn drop_back(&mut self, n: usize)
        ensures
            final(self).run() == without_back(old(self).run(), n as int),
    {
        if n >= self.data.len() {
            self.release();
            return;
        }
        let keep: usize = self.data.len() - n;
        self.data.truncate(keep);
        assert(self.data@ =~= old(self).data@.take(keep as int));
    }
}

/// The out-of-order receive buffer.
pub struct Reassembly {
    slots: Vec<Slot>,
    next_tag: u32,
}

impl View for Reassembly {
    type V = ReasmView;

    closed spec fn view(&self) -> ReasmView {
        ReasmView {
            runs: Seq::new(self.slots@.len(), |i: int| self.slots@[i].run()),
            next_tag: self.next_tag,
        }
    }
}

/// There are [`MAX_HOLES`] slots and no run exceeds its share.
pub open spec fn reasm_ok(v: ReasmView) -> bool {
    &&& v.runs.len() == MAX_HOLES
    &&& forall|i: int| 0 <= i < MAX_HOLES ==> (#[trigger] v.runs[i]).data.len() <= SLOT_CAP
}

impl Reassembly {
    /// The slots are all there and within bounds.
    pub open spec fn wf(&self) -> bool {
        reasm_ok(self@)
    }

    pub fn new() -> (r: Self)
        ensures
            r.wf(),
            r@ == nothing_held(),
    {
        let mut slots: Vec<Slot> = Vec::with_capacity(MAX_HOLES);
        let mut i: usize = 0;
        while i < MAX_HOLES
            invariant
                i <= MAX_HOLES,
                slots@.len() == i,
                forall|k: int| 0 <= k < i ==> (#[trigger] slots@[k]).run() == no_run(),
            decreases MAX_HOLES - i,
        {
            let s = Slot { start: 0, data: Vec::with_capacity(SLOT_CAP), inserted_at: 0 };
            assert(s.run() =~= no_run());
            slots.push(s);
            i = i + 1;
        }
        let r = Reassembly { slots, next_tag: 1 };
        assert(r@ =~= nothing_held());
        r
    }

    /// Drops everything held.
    pub fn clear(&mut self)
        requires
            old(self).wf(),
        ensures
            final(self).wf(),
            final(self)@ == nothing_held(),
    {
        assert(self@.runs.len() == self.slots@.len());
        let mut i: usize = 0;
        while i < MAX_HOLES
            invariant
                i <= MAX_HOLES == self.slots@.len(),
                forall|k: int| 0 <= k < i ==> (#[trigger] self.slots@[k]).run() == no_run(),
            decreases MAX_HOLES - i,
        {
            self.slots[i].release();
            i = i + 1;
        }
        self.next_tag = 1;
        assert(self@ =~= nothing_held());
    }

    /// Bytes held over all runs.
    pub fn held_bytes(&self) -> (n: usize)
        requires
            self.wf(),
        ensures
            n == held(self@.runs),
            n <= MAX_HOLES * SLOT_CAP,
    {
        let mut n: usize = 0;
        let mut i: usize = 0;
        let ghost rs = self@.runs;
        assert(rs.take(0) =~= Seq::<Run>::empty());
        while i < self.slots.len()
            invariant
                self.wf(),
                rs == self@.runs,
                self.slots@.len() == rs.len() == MAX_HOLES,
                i <= rs.len(),
                n == held(rs.take(i as int)),
                n <= i * SLOT_CAP,
            decreases rs.len() - i,
        {
            assert(rs.take(i + 1).drop_last() =~= rs.take(i as int));
            assert(rs[i as int].data.len() <= SLOT_CAP);
            n = n + self.slots[i].data.len();
            i = i + 1;
        }
        assert(rs.take(i as int) =~= rs);
        n
    }

    pub fn is_empty(&self) -> (b: bool)
        requires
            self.wf(),
        ensures
            b == (held(self@.runs) == 0),
    {
        self.held_bytes() == 0
    }

    /// Whether no two held runs overlap.
    pub fn debug_overlap_free(&self) -> (b: bool)
        requires
            self.wf(),
        ensures
            b == overlap_free(self@.runs),
    {
        let ghost rs = self@.runs;
        let mut i: usize = 0;
        while i < MAX_HOLES
            invariant
                self.wf(),
                rs == self@.runs,
                self.slots@.len() == rs.len() == MAX_HOLES,
                i <= MAX_HOLES,
                forall|a: int, b: int|
                    0 <= a < i && a < b < rs.len() && used(#[trigger] rs[a]) && used(
                        #[trigger] rs[b],
                    ) ==> !runs_overlap(rs[a], rs[b]),
            decreases MAX_HOLES - i,
        {
            let mut j: usize = i + 1;
            while j < MAX_HOLES
                invariant
                    self.wf(),
                    rs == self@.runs,
                    self.slots@.len() == rs.len() == MAX_HOLES,
                    i < MAX_HOLES,
                    i < j <= MAX_HOLES,
                    forall|b: int|
                        i < b < j && used(rs[i as int]) && used(#[trigger] rs[b])
                            ==> !runs_overlap(rs[i as int], rs[b]),
                decreases MAX_HOLES - j,
            {
                assert(rs[i as int] == self.slots@[i as int].run());
                assert(rs[j as int] == self.slots@[j as int].run());
                if self.slots[i].is_used() && self.slots[j].is_used() && seq_lt(
                    self.slots[i].start,
                    self.slots[j].end(),
                ) && seq_lt(self.slots[j].start, self.slots[i].end()) {
                    return false;
                }
                j = j + 1;
            }
            i = i + 1;
        }
        true
    }

    /// Holds what is new of a segment that arrived ahead of `rcv_nxt`, and
    /// returns how many bytes that is.
    ///
    /// Bytes before `rcv_nxt` and a leading part that is held already are
    /// skipped, and the rest is cut short before the next held run, so that runs
    /// never overlap. Bytes that join a run extend it; others take a free slot.
    pub fn insert(&mut self, seq: u32, payload: &[u8], rcv_nxt: u32) -> (n: usize)
        requires
            old(self).wf(),
            payload@.len() <= 0x7FFF_FFFF,
        ensures
            final(self).wf(),
            (final(self)@, n as int) == inserted(old(self)@, seq, payload@, rcv_nxt),
    {
        if payload.len() == 0 {
            proof {
                let p = Incoming { seq, data: payload@ };
                assert(trim_old(p, rcv_nxt).data.len() == 0);
            }
            return 0;
        }
        let ghost all = Incoming { seq, data: payload@ };
        let ghost runs = self@.runs;
        let mut at: u32 = seq;
        let mut p: &[u8] = payload;
        if seq_gt(rcv_nxt, seq) {
            let lead: usize = rcv_nxt.wrapping_sub(seq) as usize;
            if lead >= p.len() {
                return 0;
            }
            p = vstd::slice::slice_subrange(p, lead, p.len());
            at = at.wrapping_add(lead as u32);
            assert(p@ =~= payload@.skip(lead as int));
        }
        let ghost trimmed = trim_old(all, rcv_nxt);
        let mut turns: usize = MAX_HOLES + 1;
        assert((Incoming { seq: at, data: p@ }) =~= trimmed);
        let ghost goal = skip_held(runs, trimmed, MAX_HOLES as nat + 1);
        loop
            invariant
                self.wf(),
                *self == *old(self),
                runs == self@.runs,
                0 < p@.len() <= 0x7FFF_FFFF,
                skip_held(runs, Incoming { seq: at, data: p@ }, turns as nat) == goal,
                goal == skip_held(runs, trim_old(all, rcv_nxt), MAX_HOLES as nat + 1),
                all == (Incoming { seq, data: payload@ }),
            ensures
                (Incoming { seq: at, data: p@ }) == goal,
            decreases turns,
        {
            if turns == 0 {
                break;
            }
            let i: usize = self.find_having(at);
            if i >= MAX_HOLES {
                break;
            }
            let skip: usize = self.slots[i].end().wrapping_sub(at) as usize;
            assert(runs[i as int] == self.slots@[i as int].run());
            if skip >= p.len() {
                proof {
                    let q = advance(Incoming { seq: at, data: p@ }, skip as int);
                    assert(skip_held(runs, q, (turns - 1) as nat) == q);
                    assert(goal.data.len() == 0);
                }
                return 0;
            }
            let ghost before = Incoming { seq: at, data: p@ };
            p = vstd::slice::slice_subrange(p, skip, p.len());
            at = at.wrapping_add(skip as u32);
            assert((Incoming { seq: at, data: p@ }) =~= advance(before, skip as int));
            turns = turns - 1;
        }
        let end: u32 = self.find_clear(at, at.wrapping_add(p.len() as u32));
        let keep: usize = end.wrapping_sub(at) as usize;
        let ghost part = cut_before_held(runs, Incoming { seq: at, data: p@ });
        if keep < p.len() {
            p = vstd::slice::slice_subrange(p, 0, keep);
        }
        assert((Incoming { seq: at, data: p@ }) =~= part);
        assert(part == new_part(runs, all, rcv_nxt));
        self.store(at, p)
    }

    /// Stores bytes that are new and clear of the held runs.
    fn store(&mut self, seq: u32, p: &[u8]) -> (n: usize)
        requires
            old(self).wf(),
            p@.len() <= 0x7FFF_FFFF,
        ensures
            final(self).wf(),
            (final(self)@, n as int) == stored(old(self)@, Incoming { seq, data: p@ }),
    {
        let ghost part = Incoming { seq, data: p@ };
        if p.len() == 0 {
            return 0;
        }
        let end: u32 = seq.wrapping_add(p.len() as u32);
        let ghost v = self@;
        let i: usize = self.find_abutting(seq, end, Ghost(part));
        if i < MAX_HOLES {
            assert(v.runs[i as int] == self.slots@[i as int].run());
            let room: usize = SLOT_CAP - self.slots[i].data.len();
            let n: usize = min_usize(p.len(), room);
            if n == 0 {
                return 0;
            }
            let tag: u32 = self.bump_tag();
            if seq == self.slots[i].end() {
                self.slots[i].append(p, 0, n);
                assert(p@.subrange(0, n as int) =~= p@.take(n as int));
            } else {
                let cut: usize = p.len() - n;
                self.slots[i].prepend(p, cut, p.len(), seq.wrapping_add(cut as u32));
                assert(p@.subrange(cut as int, p@.len() as int) =~= p@.skip(cut as int));
            }
            self.slots[i].inserted_at = tag;
            assert(self@.runs =~= v.runs.update(
                i as int,
                extended(v.runs[i as int], part, v.next_tag),
            ));
            self.maybe_merge(i);
            return n;
        }
        let k: usize = self.find_free();
        if k < MAX_HOLES {
            let n: usize = min_usize(p.len(), SLOT_CAP);
            let tag: u32 = self.bump_tag();
            self.slots[k].release();
            self.slots[k].append(p, 0, n);
            self.slots[k].start = seq;
            self.slots[k].inserted_at = tag;
            assert(self.slots@[k as int].data@ =~= p@.take(n as int));
            assert(self@.runs =~= v.runs.update(
                k as int,
                Run { start: seq, data: p@.take(n as int), tag: v.next_tag },
            ));
            self.maybe_merge(k);
            return n;
        }
        0
    }

    fn find_having(&self, seq: u32) -> (i: usize)
        requires
            self.wf(),
        ensures
            i == first_having(self@.runs, seq, 0),
            i <= MAX_HOLES,
    {
        let mut i: usize = 0;
        while i < MAX_HOLES
            invariant
                self.wf(),
                self.slots@.len() == self@.runs.len() == MAX_HOLES,
                i <= MAX_HOLES,
                first_having(self@.runs, seq, i as int) == first_having(self@.runs, seq, 0),
            decreases MAX_HOLES - i,
        {
            assert(self@.runs[i as int] == self.slots@[i as int].run());
            if self.slots[i].is_used() && seq_le(self.slots[i].start, seq) && seq_lt(
                seq,
                self.slots[i].end(),
            ) {
                return i;
            }
            i = i + 1;
        }
        i
    }

    fn find_clear(&self, seq: u32, end: u32) -> (e: u32)
        requires
            self.wf(),
        ensures
            e == clear_until(self@.runs, seq, end, self@.runs.len() as int),
    {
        let mut e: u32 = end;
        let mut i: usize = 0;
        while i < MAX_HOLES
            invariant
                self.wf(),
                self.slots@.len() == self@.runs.len() == MAX_HOLES,
                i <= MAX_HOLES,
                e == clear_until(self@.runs, seq, end, i as int),
            decreases MAX_HOLES - i,
        {
            assert(self@.runs[i as int] == self.slots@[i as int].run());
            let start: u32 = self.slots[i].start;
            if self.slots[i].is_used() && seq_lt(seq, start) && seq_lt(start, e) {
                e = start;
            }
            i = i + 1;
        }
        e
    }

    fn find_abutting(&self, seq: u32, end: u32, Ghost(part): Ghost<Incoming>) -> (i: usize)
        requires
            self.wf(),
            part.seq == seq,
            end == seq.wrapping_add(part.data.len() as u32),
        ensures
            i == first_abutting(self@.runs, part, 0),
            i <= MAX_HOLES,
            i < MAX_HOLES ==> abuts(self@.runs[i as int], part),
    {
        let mut i: usize = 0;
        while i < MAX_HOLES
            invariant
                self.wf(),
                part.seq == seq,
                end == seq.wrapping_add(part.data.len() as u32),
                self.slots@.len() == self@.runs.len() == MAX_HOLES,
                i <= MAX_HOLES,
                first_abutting(self@.runs, part, i as int) == first_abutting(self@.runs, part, 0),
            decreases MAX_HOLES - i,
        {
            assert(self@.runs[i as int] == self.slots@[i as int].run());
            if self.slots[i].is_used() && (seq == self.slots[i].end() || end
                == self.slots[i].start) {
                return i;
            }
            i = i + 1;
        }
        i
    }

    fn find_free(&self) -> (i: usize)
        requires
            self.wf(),
        ensures
            i == first_free(self@.runs, 0),
            i <= MAX_HOLES,
    {
        let mut i: usize = 0;
        while i < MAX_HOLES
            invariant
                self.wf(),
                self.slots@.len() == self@.runs.len() == MAX_HOLES,
                i <= MAX_HOLES,
                first_free(self@.runs, i as int) == first_free(self@.runs, 0),
            decreases MAX_HOLES - i,
        {
            assert(self@.runs[i as int] == self.slots@[i as int].run());
            if !self.slots[i].is_used() {
                return i;
            }
            i = i + 1;
        }
        i
    }

    /// The slot whose run starts at exactly `rcv_nxt`, if there is one: its
    /// index, its start and its length.
    pub fn ready_slot(&self, rcv_nxt: u32) -> (r: Option<(usize, u32, usize)>)
        requires
            self.wf(),
        ensures
            ({
                let i = first_starting(self@.runs, rcv_nxt, 0);
                if i < MAX_HOLES {
                    r == Some((i as usize, rcv_nxt, self@.runs[i].data.len() as usize)) && 0 <= i
                        && used(self@.runs[i]) && self@.runs[i].start == rcv_nxt
                } else {
                    r is None
                }
            }),
    {
        let mut i: usize = 0;
        while i < MAX_HOLES
            invariant
                self.wf(),
                self.slots@.len() == self@.runs.len() == MAX_HOLES,
                i <= MAX_HOLES,
                first_starting(self@.runs, rcv_nxt, i as int) == first_starting(
                    self@.runs,
                    rcv_nxt,
                    0,
                ),
            decreases MAX_HOLES - i,
        {
            assert(self@.runs[i as int] == self.slots@[i as int].run());
            if self.slots[i].is_used() && self.slots[i].start == rcv_nxt {
                return Some((i, self.slots[i].start, self.slots[i].data.len()));
            }
            i = i + 1;
        }
        None
    }

    /// The start of the held run that comes first from `rcv_nxt` on.
    pub(crate) fn first_run(&self, rcv_nxt: u32) -> (r: Option<u32>)
        requires
            self.wf(),
        ensures
            r == first_start(self@.runs, rcv_nxt),
    {
        let mut found: Option<u32> = None;
        let mut i: usize = 0;
        let ghost rs = self@.runs;
        while i < MAX_HOLES
            invariant
                self.wf(),
                rs == self@.runs,
                self.slots@.len() == rs.len() == MAX_HOLES,
                i <= MAX_HOLES,
                found == first_start(rs.take(i as int), rcv_nxt),
            decreases MAX_HOLES - i,
        {
            assert(rs[i as int] == self.slots@[i as int].run());
            assert(rs.take(i + 1).drop_last() =~= rs.take(i as int));
            if self.slots[i].is_used() {
                let start: u32 = self.slots[i].start;
                found = match found {
                    Some(x) => if start.wrapping_sub(rcv_nxt) < x.wrapping_sub(rcv_nxt) {
                        Some(start)
                    } else {
                        Some(x)
                    },
                    None => Some(start),
                };
            }
            i = i + 1;
        }
        assert(rs.take(MAX_HOLES as int) =~= rs);
        found
    }

    /// The bytes held in slot `i`; none if there is no such slot.
    pub fn slot_bytes(&self, i: usize) -> (b: &[u8])
        requires
            self.wf(),
        ensures
            i < MAX_HOLES ==> b@ == self@.runs[i as int].data,
            i >= MAX_HOLES ==> b@.len() == 0,
    {
        if i >= MAX_HOLES {
            return &[];
        }
        assert(self@.runs[i as int] == self.slots@[i as int].run());
        self.slots[i].data.as_slice()
    }

    /// Drops the first `n` bytes of slot `i`, which have been handed on.
    pub fn commit_drain(&mut self, i: usize, n: usize)
        requires
            old(self).wf(),
        ensures
            final(self).wf(),
            final(self)@ == drained(old(self)@, i as int, n as int),
    {
        assert(self@.runs.len() == self.slots@.len());
        if i >= MAX_HOLES || n == 0 {
            return;
        }
        assert(self@.runs[i as int] == self.slots@[i as int].run());
        if !self.slots[i].is_used() {
            return;
        }
        self.slots[i].drop_front(n);
        assert(self@ =~= drained(old(self)@, i as int, n as int));
    }

    /// Appends the edges of the held runs to `sack`, the most recently changed
    /// run first, `max_blocks` at most.
    pub fn fill_sack_blocks(&self, sack: &mut SackBlocks, max_blocks: usize)
        requires
            self.wf(),
            old(sack).wf(),
        ensures
            final(sack).wf(),
            final(sack)@ == {
                let all = old(sack)@ + sack_report(self@.runs, max_blocks as int);
                all.take(min(all.len() as int, 4))
            },
    {
        let ghost rs = self@.runs;
        let mut order: [usize; MAX_HOLES] = [0; MAX_HOLES];
        let mut len: usize = 0;
        let mut i: usize = 0;
        assert(rs.take(0) =~= Seq::<Run>::empty());
        while i < MAX_HOLES
            invariant
                self.wf(),
                rs == self@.runs,
                self.slots@.len() == rs.len() == MAX_HOLES,
                i <= MAX_HOLES,
                len == by_recency(rs.take(i as int)).len() <= i,
                forall|k: int| 0 <= k < len ==> (#[trigger] order@[k]) < MAX_HOLES,
                forall|k: int|
                    0 <= k < len ==> rs[#[trigger] order@[k] as int] == by_recency(
                        rs.take(i as int),
                    )[k],
            decreases MAX_HOLES - i,
        {
            assert(rs.take(i + 1).drop_last() =~= rs.take(i as int));
            assert(rs[i as int] == self.slots@[i as int].run());
            if self.slots[i].is_used() {
                self.insert_in_order(&mut order, len, i, Ghost(by_recency(rs.take(i as int))));
                len = len + 1;
            }
            i = i + 1;
        }
        assert(rs.take(i as int) =~= rs);
        let ghost sorted = by_recency(rs);
        let take: usize = min_usize(len, max_blocks);
        let mut k: usize = 0;
        let ghost start = sack@;
        proof {
            old(sack).lemma_wf_bound();
            assert(start + edges(sorted).take(0) =~= start);
            assert(start.take(start.len() as int) =~= start);
        }
        while k < take
            invariant
                self.wf(),
                rs == self@.runs,
                self.slots@.len() == rs.len() == MAX_HOLES,
                sorted == by_recency(rs),
                k <= take <= len == sorted.len(),
                len <= MAX_HOLES,
                forall|k: int| 0 <= k < len ==> (#[trigger] order@[k]) < MAX_HOLES,
                forall|k: int| 0 <= k < len ==> rs[#[trigger] order@[k] as int] == sorted[k],
                sack.wf(),
                start.len() <= 4,
                sack@ == (start + edges(sorted).take(k as int)).take(min(start.len() + k, 4)),
            decreases take - k,
        {
            let i: usize = order[k];
            assert(rs[i as int] == self.slots@[i as int].run());
            let ghost before = sack@;
            sack.push(self.slots[i].start, self.slots[i].end());
            proof {
                let e = edges(sorted)[k as int];
                assert(e == (rs[i as int].start, run_end(rs[i as int])));
                let longer = start + edges(sorted).take(k + 1);
                assert(longer =~= (start + edges(sorted).take(k as int)).push(e));
                assert(sack@ =~= longer.take(min(start.len() + k + 1, 4)));
            }
            k = k + 1;
        }
        assert(edges(sorted).take(take as int) =~= sack_report(rs, max_blocks as int));
    }

    /// Puts slot `i` behind those of the first `len` slots in `order` that changed no
    /// earlier.
    fn insert_in_order(
        &self,
        order: &mut [usize; MAX_HOLES],
        len: usize,
        i: usize,
        Ghost(sorted): Ghost<Seq<Run>>,
    )
        requires
            self.wf(),
            i < MAX_HOLES,
            len == sorted.len() < MAX_HOLES,
            forall|k: int| 0 <= k < sorted.len() ==> (#[trigger] old(order)@[k]) < MAX_HOLES,
            forall|k: int|
                0 <= k < sorted.len() ==> self@.runs[#[trigger] old(order)@[k] as int]
                    == sorted[k],
        ensures
            insert_by_tag(sorted, self@.runs[i as int]).len() == len + 1,
            forall|k: int| 0 <= k <= len ==> (#[trigger] final(order)@[k]) < MAX_HOLES,
            forall|k: int|
                0 <= k <= len ==> self@.runs[#[trigger] final(order)@[k] as int]
                    == insert_by_tag(sorted, self@.runs[i as int])[k],
    {
        let ghost rs = self@.runs;
        let ghost r = rs[i as int];
        let mut j: usize = len;
        assert(rs[i as int] == self.slots@[i as int].run());
        assert(sorted.take(j as int) =~= sorted);
        assert(sorted.skip(j as int) =~= Seq::<Run>::empty());
        assert(insert_by_tag(sorted, r) + Seq::<Run>::empty() =~= insert_by_tag(sorted, r));
        while j > 0 && self.slots[order[j - 1]].inserted_at < self.slots[i].inserted_at
            invariant
                self.wf(),
                rs == self@.runs,
                self.slots@.len() == rs.len() == MAX_HOLES,
                i < MAX_HOLES,
                r == rs[i as int],
                r == self.slots@[i as int].run(),
                j <= len == sorted.len(),
                len < MAX_HOLES,
                *order == *old(order),
                forall|k: int| 0 <= k < sorted.len() ==> (#[trigger] order@[k]) < MAX_HOLES,
                forall|k: int| 0 <= k < sorted.len() ==> rs[#[trigger] order@[k] as int] == sorted[k],
                insert_by_tag(sorted.take(j as int), r) + sorted.skip(j as int) == insert_by_tag(
                    sorted,
                    r,
                ),
            decreases j,
        {
            proof {
                let s = order@[j - 1] as int;
                assert(rs[s] == self.slots@[s].run());
                assert(sorted.take(j as int).drop_last() =~= sorted.take(j - 1));
                assert(sorted.take(j as int).last() == sorted[j - 1]);
                assert(insert_by_tag(sorted.take(j - 1), r).push(sorted[j - 1]) + sorted.skip(
                    j as int,
                ) =~= insert_by_tag(sorted.take(j - 1), r) + sorted.skip(j - 1));
            }
            j = j - 1;
        }
        proof {
            if j > 0 {
                let s = order@[j - 1] as int;
                assert(rs[s] == self.slots@[s].run());
                assert(sorted.take(j as int).last() == sorted[j - 1]);
            }
            assert(insert_by_tag(sorted.take(j as int), r) == sorted.take(j as int).push(r));
            assert(insert_by_tag(sorted, r) == sorted.take(j as int).push(r) + sorted.skip(
                j as int,
            ));
        }
        let mut m: usize = len;
        while m > j
            invariant
                j <= m <= len < MAX_HOLES,
                forall|k: int| 0 <= k < m ==> #[trigger] order@[k] == old(order)@[k],
                forall|k: int| m < k <= len ==> #[trigger] order@[k] == old(order)@[k - 1],
            decreases m - j,
        {
            order[m] = order[m - 1];
            m = m - 1;
        }
        order[j] = i;
        assert forall|k: int| 0 <= k <= len implies (#[trigger] order@[k]) < MAX_HOLES
            && rs[order@[k] as int] == insert_by_tag(sorted, r)[k] by {
            if k < j {
                assert(order@[k] == old(order)@[k]);
            } else if k > j {
                assert(order@[k] == old(order)@[k - 1]);
            }
        }
    }

    /// Joins the run at `i` with the runs that it touches, while it has room.
    fn maybe_merge(&mut self, i: usize)
        requires
            old(self).wf(),
            i < MAX_HOLES,
        ensures
            final(self).wf(),
            final(self)@ == (ReasmView { runs: joined(old(self)@.runs, i as int), ..old(self)@ }),
    {
        loop
            invariant
                self.wf(),
                i < MAX_HOLES,
                self.next_tag == old(self).next_tag,
                joined(self@.runs, i as int) == joined(old(self)@.runs, i as int),
            decreases SLOT_CAP - self@.runs[i as int].data.len(),
        {
            let ghost rs = self@.runs;
            assert(rs.len() == self.slots@.len());
            assert(rs[i as int] == self.slots@[i as int].run());
            let room: usize = SLOT_CAP - self.slots[i].data.len();
            let j: usize = self.find_neighbour(i);
            if room == 0 || j >= MAX_HOLES {
                return;
            }
            assert(rs[j as int] == self.slots@[j as int].run());
            let len_j: usize = self.slots[j].data.len();
            let n: usize = min_usize(len_j, room);
            let mut other = Slot { start: 0, data: Vec::new(), inserted_at: 0 };
            std::mem::swap(&mut other, &mut self.slots[j]);
            if self.slots[i].end() == other.start {
                self.slots[i].append(other.data.as_slice(), 0, n);
                assert(rs[j as int].data.subrange(0, n as int) =~= rs[j as int].data.take(n as int));
                other.drop_front(n);
            } else {
                let start: u32 = other.end().wrapping_sub(n as u32);
                self.slots[i].prepend(other.data.as_slice(), len_j - n, len_j, start);
                assert(rs[j as int].data.subrange(len_j - n, len_j as int)
                    =~= rs[j as int].data.skip(len_j - n));
                other.drop_back(n);
            }
            std::mem::swap(&mut other, &mut self.slots[j]);
            assert(self@.runs =~= join_neighbour(rs, i as int, j as int));
        }
    }

    fn find_neighbour(&self, i: usize) -> (j: usize)
        requires
            self.wf(),
            i < MAX_HOLES,
        ensures
            j == first_neighbour(self@.runs, i as int, 0),
            j <= MAX_HOLES,
            j < MAX_HOLES ==> j != i && used(self@.runs[j as int]),
            j < MAX_HOLES ==> run_end(self@.runs[i as int]) == self@.runs[j as int].start
                || run_end(self@.runs[j as int]) == self@.runs[i as int].start,
    {
        let mut j: usize = 0;
        assert(self@.runs[i as int] == self.slots@[i as int].run());
        while j < MAX_HOLES
            invariant
                self.wf(),
                self.slots@.len() == self@.runs.len() == MAX_HOLES,
                i < MAX_HOLES,
                self@.runs[i as int] == self.slots@[i as int].run(),
                j <= MAX_HOLES,
                first_neighbour(self@.runs, i as int, j as int) == first_neighbour(
                    self@.runs,
                    i as int,
                    0,
                ),
            decreases MAX_HOLES - j,
        {
            assert(self@.runs[j as int] == self.slots@[j as int].run());
            if j != i && self.slots[j].is_used() && (self.slots[i].end() == self.slots[j].start
                || self.slots[j].end() == self.slots[i].start) {
                return j;
            }
            j = j + 1;
        }
        j
    }

    fn bump_tag(&mut self) -> (tag: u32)
        ensures
            tag == old(self)@.next_tag,
            final(self)@ == (ReasmView { next_tag: tag_after(tag), ..old(self)@ }),
    {
        let t: u32 = self.next_tag;
        self.next_tag =
        if t == u32::MAX {
            1
        } else {
            t + 1
        };
        assert(self@.runs =~= old(self)@.runs);
        t
    }
}

impl Default for Reassembly {
    fn default() -> (r: Self)
        ensures
            r.wf(),
            r@ == nothing_held(),
    {
        Reassembly::new()
    }
}

} // verus!
