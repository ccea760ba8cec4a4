//! RACK time-based loss detection (RFC 8985).
//!
//! A transmission counts as lost once a later one has been delivered and more
//! than a round trip plus a reordering window has passed since it was sent.

use crate::num::{max, min};
use crate::send_queue::{SendEntry, SendQueue};
use crate::seq::{seq_gt, seq_lt};
use vstd::prelude::*;
use vstd::slice::slice_subrange;

verus! {

/// Most lost ranges that one scan reports.
pub const LOST_RANGES_CAP: usize = 16;

/// The most recently delivered transmission, and how much reordering to bear.
#[derive(Copy, Clone, Debug)]
pub struct Rack {
    /// Send time of the transmission last delivered; zero when there is none.
    pub xmit_ts_ms: u64,
    /// End of the transmission last delivered.
    pub end_seq: u32,
    /// Round-trip time of that delivery, at least one millisecond.
    pub rtt_ms: u32,
    /// Reordering window.
    pub reo_wnd_ms: u32,
}

/// No delivery yet.
pub open spec fn unprimed() -> Rack {
    Rack { xmit_ts_ms: 0, end_seq: 0, rtt_ms: 0, reo_wnd_ms: 0 }
}

/// The delivery is newer than the one on record: sent later, or at the same time
/// and ending higher.
pub open spec fn newer_delivery(k: Rack, send_ts_ms: u64, end_seq: u32) -> bool {
    send_ts_ms > k.xmit_ts_ms || (send_ts_ms == k.xmit_ts_ms && seq_gt(end_seq, k.end_seq))
}

/// The record after a delivery at `now`.
pub open spec fn delivered(k: Rack, send_ts_ms: u64, end_seq: u32, now: u64) -> Rack {
    if newer_delivery(k, send_ts_ms, end_seq) {
        Rack {
            xmit_ts_ms: send_ts_ms,
            end_seq,
            rtt_ms: min(max(now - send_ts_ms, 1), u32::MAX as int) as u32,
            ..k
        }
    } else {
        k
    }
}

/// The record after a retransmission timeout: only the reordering window stays.
pub open spec fn forgotten(k: Rack) -> Rack {
    Rack { reo_wnd_ms: k.reo_wnd_ms, ..unprimed() }
}

/// The reordering window for a smoothed round-trip time.
pub open spec fn reordering_window(srtt_ms: u32) -> u32 {
    max(srtt_ms as int / 4, 1) as u32
}

/// What RACK says of one transmission.
#[derive(Copy, Clone, Debug, PartialEq, Eq, Structural)]
pub enum Verdict {
    /// It is lost.
    Lost,
    /// It will be lost in this many milliseconds unless it is delivered.
    Reorder(u64),
    /// Nothing later has been delivered, so it may be in flight.
    NotEligible,
}

/// The verdict on `e` at `now`. Only a transmission from before the one last delivered
/// can be lost.
pub open spec fn verdict(k: Rack, e: SendEntry, now: u64) -> Verdict {
    let earlier = e.send_ts_ms < k.xmit_ts_ms || (e.send_ts_ms == k.xmit_ts_ms && seq_lt(
        e.seq_end,
        k.end_seq,
    ));
    let elapsed = max(now - e.send_ts_ms, 0);
    let threshold = k.rtt_ms + k.reo_wnd_ms;
    if k.xmit_ts_ms == 0 || !earlier {
        Verdict::NotEligible
    } else if elapsed >= threshold {
        Verdict::Lost
    } else {
        Verdict::Reorder((threshold - elapsed) as u64)
    }
}

/// The first [`LOST_RANGES_CAP`] transmissions of `q` that are lost.
pub open spec fn lost_ranges(k: Rack, q: Seq<SendEntry>, now: u64) -> Seq<(u32, u32)>
    decreases q.len(),
{
    if q.len() == 0 {
        Seq::empty()
    } else {
        let found = lost_ranges(k, q.drop_last(), now);
        let e = q.last();
        if verdict(k, e, now) is Lost && found.len() < LOST_RANGES_CAP {
            found.push((e.seq_start, e.seq_end))
        } else {
            found
        }
    }
}

/// When the first of the transmissions of `q` that are not lost yet will be.
pub open spec fn reorder_deadline(k: Rack, q: Seq<SendEntry>, now: u64) -> Option<u64>
    decreases q.len(),
{
    if q.len() == 0 {
        None
    } else {
        let found = reorder_deadline(k, q.drop_last(), now);
        match verdict(k, q.last(), now) {
            Verdict::Reorder(remaining) => {
                let d = min(now + remaining, u64::MAX as int) as u64;
                match found {
                    Some(prev) => Some(min(prev as int, d as int) as u64),
                    None => Some(d),
                }
            },
            _ => found,
        }
    }
}

impl Rack {
    pub fn new() -> (k: Self)
        ensures
            k == unprimed(),
    {
        Rack { xmit_ts_ms: 0, end_seq: 0, rtt_ms: 0, reo_wnd_ms: 0 }
    }

    /// Forgets the last delivery, as a retransmission timeout calls for.
    pub fn reset(&mut self)
        ensures
            *final(self) == forgotten(*old(self)),
    {
        self.xmit_ts_ms = 0;
        self.end_seq = 0;
        self.rtt_ms = 0;
    }

    /// Whether there has been a delivery to judge by.
    pub fn is_primed(&self) -> (b: bool)
        ensures
            b == (self.xmit_ts_ms > 0),
    {
        self.xmit_ts_ms > 0
    }

    /// Notes a delivery, unless a newer one is on record.
    pub fn update_on_delivery(&mut self, send_ts_ms: u64, end_seq: u32, now_ms: u64)
        ensures
            *final(self) == delivered(*old(self), send_ts_ms, end_seq, now_ms),
    {
        let is_newer: bool = send_ts_ms > self.xmit_ts_ms || (send_ts_ms == self.xmit_ts_ms
            && seq_gt(end_seq, self.end_seq));
        if !is_newer {
            return;
        }
        self.xmit_ts_ms = send_ts_ms;
        self.end_seq = end_seq;
        let rtt: u64 = now_ms.saturating_sub(send_ts_ms);
        self.rtt_ms =
        if rtt > u32::MAX as u64 {
            u32::MAX
        } else if rtt < 1 {
            1
        } else {
            rtt as u32
        };
    }

    /// Sets the reordering window to a quarter of the smoothed round-trip time.
    pub fn set_reo_wnd_from_srtt(&mut self, srtt_ms: u32)
        ensures
            *final(self) == (Rack { reo_wnd_ms: reordering_window(srtt_ms), ..*old(self) }),
    {
        let r: u32 = srtt_ms / 4;
        self.reo_wnd_ms =
        if r >= 1 {
            r
        } else {
            1
        };
    }

    /// Judges one transmission.
    pub fn classify(&self, entry: &SendEntry, now_ms: u64) -> (v: Verdict)
        ensures
            v == verdict(*self, *entry, now_ms),
    {
        if !self.is_primed() {
            return Verdict::NotEligible;
        }
        let earlier: bool = entry.send_ts_ms < self.xmit_ts_ms || (entry.send_ts_ms
            == self.xmit_ts_ms && seq_lt(entry.seq_end, self.end_seq));
        if !earlier {
            return Verdict::NotEligible;
        }
        let elapsed: u64 = now_ms.saturating_sub(entry.send_ts_ms);
        let threshold: u64 = self.rtt_ms as u64 + self.reo_wnd_ms as u64;
        if elapsed >= threshold {
            Verdict::Lost
        } else {
            Verdict::Reorder(threshold - elapsed)
        }
    }
}

impl Default for Rack {
    fn default() -> (k: Self)
        ensures
            k == unprimed(),
    {
        Rack::new()
    }
}

/// Bounded list of lost ranges. Its view is the ranges in order.
pub struct LostRanges {
    data: [(u32, u32); LOST_RANGES_CAP],
    len: usize,
}

impl View for LostRanges {
    type V = Seq<(u32, u32)>;

    closed spec fn view(&self) -> Seq<(u32, u32)> {
        self.data@.take(self.len as int)
    }
}

impl LostRanges {
    /// The ranges fill the front of the storage.
    pub closed spec fn wf(&self) -> bool {
        self.len <= LOST_RANGES_CAP
    }

    pub fn new() -> (l: Self)
        ensures
            l.wf(),
            l@ == Seq::<(u32, u32)>::empty(),
    {
        let l = LostRanges { data: [(0, 0); LOST_RANGES_CAP], len: 0 };
        assert(l@ =~= Seq::<(u32, u32)>::empty());
        l
    }

    /// Appends a range while there is room.
    fn push(&mut self, left: u32, right: u32)
        requires
            old(self).wf(),
        ensures
            final(self).wf(),
            final(self)@ == (if old(self)@.len() < LOST_RANGES_CAP {
                old(self)@.push((left, right))
            } else {
                old(self)@
            }),
    {
        if self.len < LOST_RANGES_CAP {
            let end: usize = self.len;
            self.data[end] = (left, right);
            self.len = end + 1;
            assert(self@ =~= old(self)@.push((left, right)));
        }
    }

    pub fn as_slice(&self) -> (s: &[(u32, u32)])
        requires
            self.wf(),
        ensures
            s@ == self@,
    {
        let s: &[(u32, u32)] = slice_subrange(&self.data, 0, self.len);
        assert(s@ =~= self@);
        s
    }

    pub fn is_empty(&self) -> (b: bool)
        requires
            self.wf(),
        ensures
            b == (self@.len() == 0),
    {
        self.len == 0
    }
}

impl Default for LostRanges {
    fn default() -> (l: Self)
        ensures
            l.wf(),
            l@ == Seq::<(u32, u32)>::empty(),
    {
        LostRanges::new()
    }
}

/// What a scan found.
pub struct ScanResult {
    /// Ranges that are lost.
    pub lost: LostRanges,
    /// When the next range will be, unless it is delivered.
    pub next_deadline: Option<u64>,
}

/// Judges every transmission in `queue`.
pub fn detect_lost(rack: &Rack, queue: &SendQueue, now_ms: u64) -> (r: ScanResult)
    requires
        queue.wf(),
    ensures
        r.lost.wf(),
        r.lost@ == lost_ranges(*rack, queue@, now_ms),
        r.next_deadline == reorder_deadline(*rack, queue@, now_ms),
{
    let mut lost = LostRanges::new();
    let mut next_deadline: Option<u64> = None;
    let mut i: usize = 0;
    assert(queue@.take(0) =~= Seq::<SendEntry>::empty());
    while i < queue.len()
        invariant
            queue.wf(),
            i <= queue@.len(),
            lost.wf(),
            lost@ == lost_ranges(*rack, queue@.take(i as int), now_ms),
            next_deadline == reorder_deadline(*rack, queue@.take(i as int), now_ms),
        decreases queue@.len() - i,
    {
        let entry: SendEntry = queue.get(i);
        assert(queue@.take(i + 1).drop_last() =~= queue@.take(i as int));
        match rack.classify(&entry, now_ms) {
            Verdict::Lost => {
                lost.push(entry.seq_start, entry.seq_end);
            },
            Verdict::Reorder(remaining) => {
                let deadline: u64 = now_ms.saturating_add(remaining);
                next_deadline =
                Some(
                    match next_deadline {
                        Some(prev) => if prev <= deadline {
                            prev
                        } else {
                            deadline
                        },
                        None => deadline,
                    },
                );
            },
            Verdict::NotEligible => {},
        }
        i = i + 1;
    }
    assert(queue@.take(i as int) =~= queue@);
    ScanResult { lost, next_deadline }
}

/// Until something has been delivered nothing is lost and no timer is asked for.
pub proof fn law_unprimed_never_loses(k: Rack, q: Seq<SendEntry>, now: u64)
    requires
        k.xmit_ts_ms == 0,
    ensures
        lost_ranges(k, q, now) == Seq::<(u32, u32)>::empty(),
        reorder_deadline(k, q, now) is None,
    decreases q.len(),
{
    if q.len() > 0 {
        law_unprimed_never_loses(k, q.drop_last(), now);
    }
}

/// A stale delivery changes nothing, and a delivery never makes the record older.
pub proof fn law_deliveries_only_advance(k: Rack, send_ts_ms: u64, end_seq: u32, now: u64)
    ensures
        !newer_delivery(k, send_ts_ms, end_seq) ==> delivered(k, send_ts_ms, end_seq, now) == k,
        delivered(k, send_ts_ms, end_seq, now).xmit_ts_ms >= k.xmit_ts_ms,
        delivered(k, send_ts_ms, end_seq, now).reo_wnd_ms == k.reo_wnd_ms,
{
}

/// A transmission that is lost stays lost as time passes, and one that waits is
/// lost exactly when its time is up.
pub proof fn law_verdicts_ripen(k: Rack, e: SendEntry, now: u64, later: u64)
    requires
        now <= later,
    ensures
        verdict(k, e, now) is Lost ==> verdict(k, e, later) is Lost,
        verdict(k, e, now) is NotEligible ==> verdict(k, e, later) is NotEligible,
        verdict(k, e, now) matches Verdict::Reorder(ms) ==> (e.send_ts_ms <= now ==> (verdict(
            k,
            e,
            later,
        ) is Lost <==> later - now >= ms)),
{
}

/// The reordering window is a quarter of the smoothed round trip, rounded down, but a
/// millisecond at least.
pub proof fn law_reordering_window_is_a_quarter(srtt_ms: u32)
    ensures
        srtt_ms >= 4 ==> 0 <= srtt_ms - 4 * reordering_window(srtt_ms) <= 3,
        srtt_ms < 4 ==> reordering_window(srtt_ms) == 1,
{
}

/// The record follows the latest transmission that was delivered, by send time and then by
/// where it ends, and takes its round trip from the clock, at least a millisecond.
pub proof fn law_latest_delivery_counts(k: Rack, send_ts_ms: u64, end_seq: u32, now: u64)
    requires
        send_ts_ms <= now,
        now - send_ts_ms <= u32::MAX,
    ensures
        ({
            let u = delivered(k, send_ts_ms, end_seq, now);
            let ahead = end_seq.wrapping_sub(k.end_seq);
            &&& send_ts_ms > k.xmit_ts_ms || send_ts_ms == k.xmit_ts_ms && 0 < ahead < 0x8000_0000
                ==> {
                &&& u.xmit_ts_ms == send_ts_ms && u.end_seq == end_seq
                &&& now > send_ts_ms ==> u.rtt_ms == now - send_ts_ms
                &&& now == send_ts_ms ==> u.rtt_ms == 1
            }
            &&& send_ts_ms < k.xmit_ts_ms || send_ts_ms == k.xmit_ts_ms && (ahead == 0 || ahead
                > 0x8000_0000) ==> u == k
        }),
{
}

/// A transmission is lost exactly if one from after it has been delivered and it is overdue:
/// a round trip and the reordering window have passed since it was sent.
pub proof fn law_lost_means_overdue(k: Rack, e: SendEntry, now: u64)
    requires
        e.send_ts_ms <= now,
    ensures
        ({
            let behind = k.end_seq.wrapping_sub(e.seq_end);
            let overtaken = k.xmit_ts_ms > 0 && (e.send_ts_ms < k.xmit_ts_ms || e.send_ts_ms
                == k.xmit_ts_ms && 0 < behind <= 0x8000_0000);
            let deadline = e.send_ts_ms + k.rtt_ms + k.reo_wnd_ms;
            &&& verdict(k, e, now) is Lost <==> overtaken && deadline <= now
            &&& verdict(k, e, now) is Reorder <==> overtaken && now < deadline
            &&& verdict(k, e, now) matches Verdict::Reorder(ms) ==> now + ms == deadline
        }),
{
}

/// A scan reports every transmission that is lost, as far as there is room, and no other; and
/// it asks to be called again when the first of those that wait will be lost.
pub proof fn law_scan_finds_the_lost(k: Rack, q: Seq<SendEntry>, now: u64)
    ensures
        ({
            let found = lost_ranges(k, q, now);
            &&& found.len() <= LOST_RANGES_CAP
            &&& forall|j: int|
                0 <= j < found.len() ==> lost_among(k, q, now, #[trigger] found[j])
            &&& found.len() < LOST_RANGES_CAP ==> forall|i: int|
                0 <= i < q.len() && #[trigger] verdict(k, q[i], now) is Lost ==> found.contains(
                    (q[i].seq_start, q[i].seq_end),
                )
        }),
        match reorder_deadline(k, q, now) {
            Some(d) => forall|i: int|
                0 <= i < q.len() ==> (#[trigger] verdict(k, q[i], now) matches Verdict::Reorder(ms)
                    ==> d <= now + ms),
            None => forall|i: int|
                0 <= i < q.len() ==> !(#[trigger] verdict(k, q[i], now) is Reorder),
        },
        reorder_deadline(k, q, now) matches Some(d) ==> exists|i: int|
            0 <= i < q.len() && waits_until(k, #[trigger] q[i], now, d),
    decreases q.len(),
{
    if q.len() > 0 {
        let p = q.drop_last();
        law_scan_finds_the_lost(k, p, now);
        assert forall|i: int| 0 <= i < p.len() implies p[i] == q[i] by {}
        let before = lost_ranges(k, p, now);
        let found = lost_ranges(k, q, now);
        let e = q[q.len() - 1];
        assert forall|j: int| 0 <= j < found.len() implies lost_among(
            k,
            q,
            now,
            #[trigger] found[j],
        ) by {
            if j < before.len() {
                assert(found[j] == before[j] && lost_among(k, p, now, before[j]));
                let i = choose|i: int|
                    0 <= i < p.len() && #[trigger] verdict(k, p[i], now) is Lost && before[j] == (
                        p[i].seq_start,
                        p[i].seq_end,
                    );
                assert(verdict(k, q[i], now) is Lost);
            } else {
                assert(verdict(k, q[q.len() - 1], now) is Lost);
            }
        }
        if found.len() < LOST_RANGES_CAP {
            assert forall|i: int| 0 <= i < q.len() && #[trigger] verdict(k, q[i], now)
                is Lost implies found.contains((q[i].seq_start, q[i].seq_end)) by {
                let r = (q[i].seq_start, q[i].seq_end);
                if i < p.len() {
                    assert(verdict(k, p[i], now) is Lost);
                    assert(before.contains(r));
                    let j = choose|j: int| 0 <= j < before.len() && before[j] == r;
                    assert(found[j] == r);
                } else {
                    assert(found[found.len() - 1] == r);
                }
            }
        }
        assert forall|i: int| 0 <= i < q.len() implies (#[trigger] verdict(k, q[i], now) matches
            Verdict::Reorder(ms) ==> reorder_deadline(k, q, now) is Some && reorder_deadline(
            k,
            q,
            now,
        )->0 <= now + ms) by {
            if i < p.len() {
                assert(verdict(k, p[i], now) == verdict(k, q[i], now));
            }
        }
        if let Some(d) = reorder_deadline(k, q, now) {
            if reorder_deadline(k, p, now) == Some(d) {
                let i = choose|i: int| 0 <= i < p.len() && waits_until(k, #[trigger] p[i], now, d);
                assert(waits_until(k, q[i], now, d));
            } else {
                assert(waits_until(k, q[q.len() - 1], now, d));
            }
        }
    }
}

/// `r` is a transmission of `q` that is lost.
pub open spec fn lost_among(k: Rack, q: Seq<SendEntry>, now: u64, r: (u32, u32)) -> bool {
    exists|i: int|
        0 <= i < q.len() && #[trigger] verdict(k, q[i], now) is Lost && r == (
            q[i].seq_start,
            q[i].seq_end,
        )
}

/// `e` waits, and will be lost at `d`.
pub open spec fn waits_until(k: Rack, e: SendEntry, now: u64, d: u64) -> bool {
    verdict(k, e, now) matches Verdict::Reorder(ms) && d == min(now + ms, u64::MAX as int)
}

} // verus!
