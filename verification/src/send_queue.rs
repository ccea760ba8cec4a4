//! Transmission records for RACK and the tail loss probe.
//!
//! Every segment that carries payload is recorded with its send time, be it new
//! data, a retransmission or a probe. Records go when they are acknowledged,
//! cumulatively or selectively; when room runs out the oldest goes.

use crate::scoreboard::{Range, SackScoreboard};
use crate::seq::{seq_gt, seq_le};
use vstd::prelude::*;

verus! {

/// Most transmissions that are tracked.
pub const SEND_QUEUE_CAP: usize = 1024;

/// One transmission of `[seq_start, seq_end)`.
#[derive(Copy, Clone, Debug, PartialEq, Eq, Structural)]
pub struct SendEntry {
    /// First sequence number carried.
    pub seq_start: u32,
    /// One past the last sequence number carried.
    pub seq_end: u32,
    /// Time of transmission.
    pub send_ts_ms: u64,
    /// Whether this was a retransmission or a probe.
    pub is_retx: bool,
}

/// One range of `rs` holds all of `[left, right)`.
pub open spec fn range_covers(rs: Seq<Range>, left: u32, right: u32) -> bool {
    exists|i: int|
        0 <= i < rs.len() && seq_le((#[trigger] rs[i]).left, left) && seq_le(right, rs[i].right)
}

/// The record is still of use: neither fully below `una` nor inside one
/// acknowledged range.
pub open spec fn still_needed(e: SendEntry, una: u32, rs: Seq<Range>) -> bool {
    !seq_le(e.seq_end, una) && !range_covers(rs, e.seq_start, e.seq_end)
}

/// The records that are still of use, in their order.
pub open spec fn needed(q: Seq<SendEntry>, una: u32, rs: Seq<Range>) -> Seq<SendEntry>
    decreases q.len(),
{
    if q.len() == 0 {
        q
    } else if still_needed(q.last(), una, rs) {
        needed(q.drop_last(), una, rs).push(q.last())
    } else {
        needed(q.drop_last(), una, rs)
    }
}

/// The queue after `e` has been recorded.
pub open spec fn recorded(q: Seq<SendEntry>, e: SendEntry) -> Seq<SendEntry> {
    if q.len() >= SEND_QUEUE_CAP {
        q.skip(1).push(e)
    } else {
        q.push(e)
    }
}

/// The queue after the transmission of `[seq, seq + len)`; nothing is recorded
/// for an empty one.
pub open spec fn transmitted(
    q: Seq<SendEntry>,
    seq: u32,
    len: u32,
    now: u64,
    is_retx: bool,
) -> Seq<SendEntry> {
    if len == 0 {
        q
    } else {
        recorded(
            q,
            SendEntry {
                seq_start: seq,
                seq_end: seq.wrapping_add(len),
                send_ts_ms: now,
                is_retx,
            },
        )
    }
}

/// The record carries `seq`.
pub open spec fn carries(e: SendEntry, seq: u32) -> bool {
    seq_le(e.seq_start, seq) && seq_gt(e.seq_end, seq)
}

/// The latest sent of the records that carry `seq`, the first of them when
/// several were sent at once.
pub open spec fn latest_covering(q: Seq<SendEntry>, seq: u32) -> Option<SendEntry>
    decreases q.len(),
{
    if q.len() == 0 {
        None
    } else {
        let best = latest_covering(q.drop_last(), seq);
        let e = q.last();
        if !carries(e, seq) {
            best
        } else {
            match best {
                Some(b) => if b.send_ts_ms >= e.send_ts_ms {
                    best
                } else {
                    Some(e)
                },
                None => Some(e),
            }
        }
    }
}

/// The record with the highest end that is not fully acknowledged, the last of
/// them when several end there.
pub open spec fn highest_open(q: Seq<SendEntry>, rs: Seq<Range>) -> Option<SendEntry>
    decreases q.len(),
{
    if q.len() == 0 {
        None
    } else {
        let best = highest_open(q.drop_last(), rs);
        let e = q.last();
        if range_covers(rs, e.seq_start, e.seq_end) {
            best
        } else {
            match best {
                Some(b) => if seq_gt(b.seq_end, e.seq_end) {
                    best
                } else {
                    Some(e)
                },
                None => Some(e),
            }
        }
    }
}

/// Ring of transmission records. Its view is the records, oldest first.
pub struct SendQueue {
    entries: Vec<SendEntry>,
    head: usize,
    len: usize,
}

impl View for SendQueue {
    type V = Seq<SendEntry>;

    closed spec fn view(&self) -> Seq<SendEntry> {
        Seq::new(self.len as nat, |i: int| self.entries@[self.slot(i)])
    }
}

impl SendQueue {
    /// The storage fills the capacity and the cursors lie within it.
    pub closed spec fn wf(&self) -> bool {
        &&& self.entries@.len() == SEND_QUEUE_CAP
        &&& self.head < SEND_QUEUE_CAP
        &&& self.len <= SEND_QUEUE_CAP
    }

    spec fn slot(&self, i: int) -> int {
        (self.head + i) % (SEND_QUEUE_CAP as int)
    }

    pub fn new() -> (q: Self)
        ensures
            q.wf(),
            q@ == Seq::<SendEntry>::empty(),
    {
        let unused = SendEntry { seq_start: 0, seq_end: 0, send_ts_ms: 0, is_retx: false };
        let mut entries: Vec<SendEntry> = Vec::with_capacity(SEND_QUEUE_CAP);
        let mut i: usize = 0;
        while i < SEND_QUEUE_CAP
            invariant
                i <= SEND_QUEUE_CAP,
                entries@.len() == i,
            decreases SEND_QUEUE_CAP - i,
        {
            entries.push(unused);
            i = i + 1;
        }
        let q = SendQueue { entries, head: 0, len: 0 };
        assert(q@ =~= Seq::<SendEntry>::empty());
        q
    }

    /// A queue holds no more records than its capacity.
    pub proof fn law_queue_is_bounded(&self)
        requires
            self.wf(),
        ensures
            self@.len() <= SEND_QUEUE_CAP,
    {
    }

    /// Forgets every record.
    pub fn clear(&mut self)
        requires
            old(self).wf(),
        ensures
            final(self).wf(),
            final(self)@ == Seq::<SendEntry>::empty(),
    {
        self.head = 0;
        self.len = 0;
        assert(self@ =~= Seq::<SendEntry>::empty());
    }

    pub fn is_empty(&self) -> (b: bool)
        ensures
            b == (self@.len() == 0),
    {
        self.len == 0
    }

    pub fn len(&self) -> (n: usize)
        ensures
            n == self@.len(),
    {
        self.len
    }

    /// The `i`-th oldest record.
    pub fn get(&self, i: usize) -> (e: SendEntry)
        requires
            self.wf(),
            i < self@.len(),
        ensures
            e == self@[i as int],
    {
        self.entries[(self.head + i) % SEND_QUEUE_CAP]
    }

    /// Appends a record; without room the oldest goes.
    pub fn push_entry(&mut self, entry: SendEntry)
        requires
            old(self).wf(),
        ensures
            final(self).wf(),
            final(self)@ == recorded(old(self)@, entry),
    {
        if self.len == SEND_QUEUE_CAP {
            self.head = (self.head + 1) % SEND_QUEUE_CAP;
            self.len = self.len - 1;
        }
        let idx: usize = (self.head + self.len) % SEND_QUEUE_CAP;
        self.entries[idx] = entry;
        self.len = self.len + 1;
        assert(self@ =~= recorded(old(self)@, entry));
    }

    /// Records the transmission of `[seq, seq + len)`.
    pub fn push(&mut self, seq: u32, len: u32, send_ts_ms: u64, is_retx: bool)
        requires
            old(self).wf(),
        ensures
            final(self).wf(),
            final(self)@ == transmitted(old(self)@, seq, len, send_ts_ms, is_retx),
    {
        if len == 0 {
            return;
        }
        self.push_entry(
            SendEntry { seq_start: seq, seq_end: seq.wrapping_add(len), send_ts_ms, is_retx },
        );
    }

    /// Walks the records, oldest first.
    pub fn iter(&self) -> (it: Iter<'_>)
        requires
            self.wf(),
        ensures
            it.wf(),
            it.rest() == self@,
    {
        let it = Iter { queue: self, index: 0 };
        assert(it.rest() =~= self@);
        it
    }

    /// Drops the records that are fully acknowledged, by `snd_una` or by one
    /// range of the scoreboard. Partly acknowledged ones stay whole.
    #[verifier::rlimit(30)]
    pub fn prune(&mut self, snd_una: u32, scoreboard: &SackScoreboard)
        requires
            old(self).wf(),
        ensures
            final(self).wf(),
            final(self)@ == needed(old(self)@, snd_una, scoreboard@.ranges),
    {
        let ghost rs = scoreboard@.ranges;
        let ghost all = self@;
        let mut write: usize = 0;
        let mut read: usize = 0;
        assert(all.take(0) =~= Seq::<SendEntry>::empty());
        while read < self.len
            invariant
                self.wf(),
                self.head == old(self).head,
                self.len == old(self).len == all.len(),
                all == old(self)@,
                rs == scoreboard@.ranges,
                write <= read <= self.len,
                write == needed(all.take(read as int), snd_una, rs).len(),
                forall|i: int|
                    0 <= i < write ==> self.entries@[#[trigger] self.slot(i)] == needed(
                        all.take(read as int),
                        snd_una,
                        rs,
                    )[i],
                forall|i: int|
                    read <= i < self.len ==> self.entries@[#[trigger] self.slot(i)] == all[i],
            decreases self.len - read,
        {
            let ghost before = *self;
            let ghost kept = needed(all.take(read as int), snd_una, rs);
            let entry: SendEntry = self.entries[(self.head + read) % SEND_QUEUE_CAP];
            proof {
                assert(self.entries@[self.slot(read as int)] == all[read as int]);
                assert(all.take(read + 1).drop_last() =~= all.take(read as int));
                assert(all.take(read + 1).last() == entry);
            }
            if !seq_le(entry.seq_end, snd_una) && !scoreboard_covers(
                scoreboard,
                entry.seq_start,
                entry.seq_end,
            ) {
                let at: usize = (self.head + write) % SEND_QUEUE_CAP;
                self.entries[at] = entry;
                write = write + 1;
                proof {
                    assert(needed(all.take(read + 1), snd_una, rs) == kept.push(entry));
                    assert forall|i: int| 0 <= i < write implies self.entries@[#[trigger] self.slot(
                        i,
                    )] == kept.push(entry)[i] by {
                        if i < write - 1 {
                            assert(before.entries@[before.slot(i)] == kept[i]);
                            assert(self.slot(i) != at);
                        }
                    }
                    assert forall|i: int| read < i < self.len implies self.entries@[#[trigger] self.slot(
                        i,
                    )] == all[i] by {
                        assert(before.entries@[before.slot(i)] == all[i]);
                        assert(self.slot(i) != at);
                    }
                }
            }
            read = read + 1;
        }
        let ghost before = *self;
        self.len = write;
        proof {
            assert(all.take(read as int) =~= all);
            let kept = needed(all, snd_una, rs);
            assert forall|i: int| 0 <= i < write implies self@[i] == kept[i] by {
                assert(before.entries@[before.slot(i)] == kept[i]);
                assert(self.slot(i) == before.slot(i));
            }
            assert(self@ =~= kept);
        }
    }

    /// The latest sent record that carries `seq`, if any: the transmission that
    /// an acknowledgement of `seq` most likely reflects.
    pub fn find_latest_covering(&self, seq: u32) -> (r: Option<SendEntry>)
        requires
            self.wf(),
        ensures
            r == latest_covering(self@, seq),
    {
        let mut best: Option<SendEntry> = None;
        let mut i: usize = 0;
        assert(self@.take(0) =~= Seq::<SendEntry>::empty());
        while i < self.len
            invariant
                self.wf(),
                i <= self.len == self@.len(),
                best == latest_covering(self@.take(i as int), seq),
            decreases self.len - i,
        {
            let entry: SendEntry = self.get(i);
            assert(self@.take(i + 1).drop_last() =~= self@.take(i as int));
            if seq_le(entry.seq_start, seq) && seq_gt(entry.seq_end, seq) {
                let newer: bool = match best {
                    Some(b) => b.send_ts_ms < entry.send_ts_ms,
                    None => true,
                };
                if newer {
                    best = Some(entry);
                }
            }
            i = i + 1;
        }
        assert(self@.take(i as int) =~= self@);
        best
    }

    /// The record with the highest end that is not fully acknowledged, if any:
    /// the target of a tail loss probe.
    pub fn highest_unsacked(&self, scoreboard: &SackScoreboard) -> (r: Option<SendEntry>)
        requires
            self.wf(),
        ensures
            r == highest_open(self@, scoreboard@.ranges),
    {
        let mut best: Option<SendEntry> = None;
        let mut i: usize = 0;
        assert(self@.take(0) =~= Seq::<SendEntry>::empty());
        while i < self.len
            invariant
                self.wf(),
                i <= self.len == self@.len(),
                best == highest_open(self@.take(i as int), scoreboard@.ranges),
            decreases self.len - i,
        {
            let entry: SendEntry = self.get(i);
            assert(self@.take(i + 1).drop_last() =~= self@.take(i as int));
            if !scoreboard_covers(scoreboard, entry.seq_start, entry.seq_end) {
                let higher: bool = match best {
                    Some(b) => !seq_gt(b.seq_end, entry.seq_end),
                    None => true,
                };
                if higher {
                    best = Some(entry);
                }
            }
            i = i + 1;
        }
        assert(self@.take(i as int) =~= self@);
        best
    }
}

impl Default for SendQueue {
    fn default() -> (q: Self)
        ensures
            q.wf(),
            q@ == Seq::<SendEntry>::empty(),
    {
        SendQueue::new()
    }
}

/// A walk over a [`SendQueue`], oldest record first.
pub struct Iter<'a> {
    queue: &'a SendQueue,
    index: usize,
}

impl<'a> Iter<'a> {
    pub closed spec fn wf(&self) -> bool {
        self.queue.wf() && self.index <= self.queue@.len()
    }

    /// The records still to come.
    pub closed spec fn rest(&self) -> Seq<SendEntry> {
        self.queue@.skip(self.index as int)
    }

    /// The next record, or `None` at the end.
    pub fn next(&mut self) -> (r: Option<&'a SendEntry>)
        requires
            old(self).wf(),
        ensures
            final(self).wf(),
            old(self).rest().len() == 0 ==> r is None && final(self).rest() == old(self).rest(),
            old(self).rest().len() > 0 ==> r == Some(&old(self).rest()[0]) && final(self).rest()
                == old(self).rest().skip(1),
    {
        if self.index >= self.queue.len {
            return None;
        }
        let idx: usize = (self.queue.head + self.index) % SEND_QUEUE_CAP;
        self.index = self.index + 1;
        assert(self.rest() =~= old(self).rest().skip(1));
        Some(&self.queue.entries[idx])
    }
}

/// Whether one range of the scoreboard holds all of `[seq_start, seq_end)`.
fn scoreboard_covers(scoreboard: &SackScoreboard, seq_start: u32, seq_end: u32) -> (b: bool)
    ensures
        b == range_covers(scoreboard@.ranges, seq_start, seq_end),
{
    let rs = scoreboard.ranges();
    let mut i: usize = 0;
    while i < rs.len()
        invariant
            rs@ == scoreboard@.ranges,
            i <= rs@.len(),
            forall|k: int|
                0 <= k < i ==> !(seq_le((#[trigger] rs@[k]).left, seq_start) && seq_le(
                    seq_end,
                    rs@[k].right,
                )),
        decreases rs@.len() - i,
    {
        let r: Range = rs[i];
        if seq_le(r.left, seq_start) && seq_le(seq_end, r.right) {
            assert(seq_le(rs@[i as int].left, seq_start));
            return true;
        }
        i = i + 1;
    }
    false
}

/// Pruning keeps exactly the records that are still of use, and pruning again
/// changes nothing.
pub proof fn law_prune_keeps_what_is_needed(q: Seq<SendEntry>, una: u32, rs: Seq<Range>)
    ensures
        needed(q, una, rs).len() <= q.len(),
        forall|e: SendEntry| #[trigger]
            needed(q, una, rs).contains(e) <==> q.contains(e) && still_needed(e, una, rs),
        needed(needed(q, una, rs), una, rs) == needed(q, una, rs),
    decreases q.len(),
{
    let out = needed(q, una, rs);
    if q.len() > 0 {
        let front = q.drop_last();
        let pf = needed(front, una, rs);
        law_prune_keeps_what_is_needed(front, una, rs);
        assert forall|e: SendEntry| #[trigger] out.contains(e) <==> q.contains(e) && still_needed(
            e,
            una,
            rs,
        ) by {
            if q.contains(e) {
                let k = choose|k: int| 0 <= k < q.len() && q[k] == e;
                if k < front.len() {
                    assert(front[k] == e);
                    assert(front.contains(e));
                }
            }
            if front.contains(e) {
                let k = choose|k: int| 0 <= k < front.len() && front[k] == e;
                assert(q[k] == e);
            }
            assert(q[q.len() - 1] == q.last());
            assert(pf.contains(e) <==> front.contains(e) && still_needed(e, una, rs));
            if pf.contains(e) {
                let k = choose|k: int| 0 <= k < pf.len() && pf[k] == e;
                assert(out[k] == e);
            }
            if still_needed(q.last(), una, rs) {
                assert(out[pf.len() as int] == q.last());
                if out.contains(e) {
                    let k = choose|k: int| 0 <= k < out.len() && out[k] == e;
                    if k < pf.len() {
                        assert(pf[k] == e);
                    }
                }
            }
        }
        if still_needed(q.last(), una, rs) {
            assert(out.drop_last() =~= pf);
        }
    }
}

/// A transmission is recorded last, with the time that it was sent; the records before it
/// stay, but for the oldest if there is no more room.
pub proof fn law_transmission_is_recorded(
    q: Seq<SendEntry>,
    seq: u32,
    len: u32,
    now: u64,
    is_retx: bool,
)
    requires
        len > 0,
        q.len() <= SEND_QUEUE_CAP,
    ensures
        ({
            let t = transmitted(q, seq, len, now, is_retx);
            let e = t.last();
            &&& t.len() <= SEND_QUEUE_CAP
            &&& e.seq_start == seq && e.seq_end == seq.wrapping_add(len)
            &&& e.send_ts_ms == now && e.is_retx == is_retx
            &&& q.len() < SEND_QUEUE_CAP ==> t.drop_last() == q
            &&& q.len() == SEND_QUEUE_CAP ==> t.drop_last() == q.skip(1)
        }),
{
    let t = transmitted(q, seq, len, now, is_retx);
    if q.len() < SEND_QUEUE_CAP {
        assert(t.drop_last() =~= q);
    } else {
        assert(t.drop_last() =~= q.skip(1));
    }
}

/// The record that is asked for by a sequence number carries it, and no record that carries
/// it was sent later; there is none only if none carries it.
pub proof fn law_latest_record_is_found(q: Seq<SendEntry>, seq: u32)
    ensures
        match latest_covering(q, seq) {
            Some(e) => {
                &&& q.contains(e)
                &&& e.seq_start.wrapping_sub(seq) == 0 || e.seq_start.wrapping_sub(seq)
                    >= 0x8000_0000
                &&& 0 < e.seq_end.wrapping_sub(seq) < 0x8000_0000
                &&& forall|i: int|
                    0 <= i < q.len() && carries(#[trigger] q[i], seq) ==> q[i].send_ts_ms
                        <= e.send_ts_ms
            },
            None => forall|i: int| 0 <= i < q.len() ==> !carries(#[trigger] q[i], seq),
        },
    decreases q.len(),
{
    if q.len() > 0 {
        let p = q.drop_last();
        law_latest_record_is_found(p, seq);
        assert forall|i: int| 0 <= i < p.len() implies p[i] == q[i] by {}
        if let Some(e) = latest_covering(q, seq) {
            if latest_covering(p, seq) == Some(e) {
                let j = choose|j: int| 0 <= j < p.len() && p[j] == e;
                assert(q[j] == e);
            } else {
                assert(q[q.len() - 1] == e);
            }
            assert forall|i: int| 0 <= i < q.len() && carries(
                #[trigger] q[i],
                seq,
            ) implies q[i].send_ts_ms <= e.send_ts_ms by {
                if i < p.len() {
                    assert(carries(p[i], seq));
                }
            }
        } else {
            assert forall|i: int| 0 <= i < q.len() implies !carries(#[trigger] q[i], seq) by {
                if i < p.len() {
                    assert(!carries(p[i], seq));
                }
            }
        }
    }
}

/// The transmission that a tail loss probe repeats is one that the peer does not hold, and
/// none that it does not hold ends higher. Here all records end less than half the sequence
/// space above `base`.
pub proof fn law_highest_record_is_found(q: Seq<SendEntry>, rs: Seq<Range>, base: u32)
    requires
        forall|i: int|
            0 <= i < q.len() ==> (#[trigger] q[i]).seq_end.wrapping_sub(base) < 0x8000_0000,
    ensures
        match highest_open(q, rs) {
            Some(e) => {
                &&& q.contains(e)
                &&& !range_covers(rs, e.seq_start, e.seq_end)
                &&& forall|i: int|
                    0 <= i < q.len() && !range_covers(
                        rs,
                        (#[trigger] q[i]).seq_start,
                        q[i].seq_end,
                    ) ==> q[i].seq_end.wrapping_sub(base) <= e.seq_end.wrapping_sub(base)
            },
            None => forall|i: int|
                0 <= i < q.len() ==> range_covers(rs, (#[trigger] q[i]).seq_start, q[i].seq_end),
        },
    decreases q.len(),
{
    if q.len() > 0 {
        let p = q.drop_last();
        assert forall|i: int| 0 <= i < p.len() implies p[i] == q[i] && (
        #[trigger] p[i]).seq_end.wrapping_sub(base) < 0x8000_0000 by {
            assert(q[i].seq_end.wrapping_sub(base) < 0x8000_0000);
        }
        law_highest_record_is_found(p, rs, base);
        let last = q[q.len() - 1];
        if let Some(e) = highest_open(q, rs) {
            if highest_open(p, rs) == Some(e) {
                let j = choose|j: int| 0 <= j < p.len() && p[j] == e;
                assert(q[j] == e);
            } else {
                assert(q[q.len() - 1] == e);
            }
            if let Some(b) = highest_open(p, rs) {
                let j = choose|j: int| 0 <= j < p.len() && p[j] == b;
                assert(q[j].seq_end.wrapping_sub(base) < 0x8000_0000);
            }
            assert forall|i: int| 0 <= i < q.len() && !range_covers(
                rs,
                (#[trigger] q[i]).seq_start,
                q[i].seq_end,
            ) implies q[i].seq_end.wrapping_sub(base) <= e.seq_end.wrapping_sub(base) by {
                if i < p.len() {
                    assert(!range_covers(rs, p[i].seq_start, p[i].seq_end));
                }
            }
        } else {
            assert forall|i: int| 0 <= i < q.len() implies range_covers(
                rs,
                (#[trigger] q[i]).seq_start,
                q[i].seq_end,
            ) by {
                if i < p.len() {
                    assert(range_covers(rs, p[i].seq_start, p[i].seq_end));
                }
            }
        }
    }
}

} // verus!
