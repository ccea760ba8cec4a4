//! Losses: what is overdue is found, queued and recovered from, and recovery ends.

use crate::MSS;
use crate::congestion::after_ack;
use crate::num::max;
use crate::rack::{
    law_scan_finds_the_lost, lost_among, lost_ranges, reorder_deadline, verdict, Rack,
};
use crate::scoreboard::{
    bytes_of, bytes_shared, clip_to_window, first_hole, insert_sorted, newly_covered, sorted,
    with_block, Range,
};
use crate::send_queue::{latest_covering, SendEntry};
use crate::seq::{seq_ge, seq_gt, seq_le, seq_lt};
use crate::tcb::laws::round_trips::timed_out;
use crate::tcb::lost_queue::{place, queued, with_all_lost, with_holes, with_lost};
use crate::tcb::model::{
    ack_advance, ack_prune, ack_recovery, arm_rto, begin_recovery, collapse, count_timeout,
    delivery_credited, delivery_noted, lost_queued, note_sacks, nxt_caught_up, pipe, rack_scan,
    records_pruned, recovering, recovery_ended, reo_updated, resend_handshake, rxt_caught_up,
    rxt_noted, sack_sum, sack_total, sacks_noted, tick_rto, tlp_reset, una_moved,
    user_timer_restarted, TcbView,
};
use crate::wire::SegmentView;
use vstd::prelude::*;

verus! {

/// What deliveries are judged by: the reordering window is a quarter of the smoothed round
/// trip, once there is one, and a millisecond at least.
pub open spec fn watching(s: TcbView) -> Rack {
    Rack {
        reo_wnd_ms: if s.srtt_ms >= 4 {
            s.srtt_ms / 4
        } else if s.srtt_ms > 0 {
            1
        } else {
            s.rack.reo_wnd_ms
        },
        ..s.rack
    }
}

/// A transmission of `s` is overdue.
pub open spec fn some_overdue(s: TcbView) -> bool {
    exists|i: int| 0 <= i < s.sent.len() && #[trigger] verdict(watching(s), s.sent[i], s.now_ms) is Lost
}

proof fn lemma_watching(s: TcbView)
    ensures
        reo_updated(s).rack == watching(s),
        same_judged(s, reo_updated(s)),
{
    reveal(reo_updated);
}

/// What a scan looks at, the reordering window aside, is the same.
spec fn same_judged(s: TcbView, t: TcbView) -> bool {
    &&& t.sent == s.sent && t.now_ms == s.now_ms && t.cc == s.cc && t.lost == s.lost
    &&& t.snd_una == s.snd_una && t.snd_max == s.snd_max && t.board == s.board
    &&& t.rto_ms == s.rto_ms && t.rto_deadline == s.rto_deadline && t.snd_nxt == s.snd_nxt
}

/// What is overdue tells of a loss: recovery starts, unless it is under way or nothing is
/// outstanding, with the threshold at half of what was in flight. While nothing is overdue
/// nothing of the kind happens. The reordering timer waits for the next transmission that
/// will be overdue.
pub proof fn law_overdue_tells_of_a_loss(s: TcbView)
    ensures
        ({
            let t = rack_scan(s);
            let out = s.snd_max.wrapping_sub(s.snd_una);
            &&& some_overdue(s) && !s.cc.in_recovery && 0 < out < 0x8000_0000 ==> {
                &&& t.cc.in_recovery && t.cc.recovery_point == s.snd_max
                &&& t.cc.ssthresh == max(out as int / 2, 2 * MSS)
                &&& t.rxt_seq == s.snd_una
                &&& t.rto_deadline == Some(s.now_ms.wrapping_add(s.rto_ms as u64))
            }
            &&& !some_overdue(s) || s.cc.in_recovery || out == 0 ==> t.cc == s.cc && t.rto_deadline
                == s.rto_deadline
            &&& !some_overdue(s) ==> t.lost == s.lost
            &&& t.rack_deadline == reorder_deadline(watching(s), s.sent, s.now_ms)
        }),
{
    lemma_watching(s);
    let u = reo_updated(s);
    law_scan_finds_the_lost(watching(s), s.sent, s.now_ms);
    let found = lost_ranges(watching(s), s.sent, s.now_ms);
    if some_overdue(s) {
        assert(found.len() > 0) by {
            let i = choose|i: int|
                0 <= i < s.sent.len() && #[trigger] verdict(watching(s), s.sent[i], s.now_ms)
                    is Lost;
            if found.len() == 0 {
                assert(found.contains((s.sent[i].seq_start, s.sent[i].seq_end)));
            }
        }
    } else if found.len() > 0 {
        assert(lost_among(watching(s), s.sent, s.now_ms, found[0]));
    }
    reveal(rack_scan);
    reveal(lost_queued);
    reveal(begin_recovery);
    reveal(recovering);
    reveal(arm_rto);
}

proof fn lemma_place(q: Seq<(u32, u32)>, left: u32, una: u32, from: int)
    requires
        0 <= from <= q.len(),
    ensures
        from <= place(q, left, una, from) <= q.len(),
    decreases q.len() - from,
{
    if from < q.len() && !(left.wrapping_sub(una) < q[from].0.wrapping_sub(una)) {
        lemma_place(q, left, una, from + 1);
    }
}

/// Putting a range in its place keeps the others, and the range is there unless the queue is
/// full.
pub proof fn law_loss_is_queued(q: Seq<(u32, u32)>, left: u32, right: u32, una: u32)
    requires
        q.len() <= 32,
    ensures
        ({
            let t = with_lost(q, left, right, una);
            &&& t.len() <= q.len() + 1 && t.len() <= 32
            &&& forall|i: int| 0 <= i < q.len() ==> t.contains(#[trigger] q[i])
            &&& forall|i: int|
                0 <= i < t.len() ==> q.contains(#[trigger] t[i]) || t[i] == (left, right)
            &&& 0 < right.wrapping_sub(left) < 0x8000_0000 && q.len() < 32 ==> queued(t, left, right)
        }),
{
    let t = with_lost(q, left, right, una);
    lemma_place(q, left, una, 0);
    let at = place(q, left, una, 0);
    if t == q {
        assert forall|i: int| 0 <= i < q.len() implies t.contains(#[trigger] q[i]) by {
            assert(t[i] == q[i]);
        }
    } else {
        assert(t == q.insert(at, (left, right)));
        assert forall|i: int| 0 <= i < q.len() implies t.contains(#[trigger] q[i]) by {
            if i < at {
                assert(t[i] == q[i]);
            } else {
                assert(t[i + 1] == q[i]);
            }
        }
        assert forall|i: int| 0 <= i < t.len() implies q.contains(#[trigger] t[i]) || t[i] == (
            left,
            right,
        ) by {
            if i < at {
                assert(t[i] == q[i]);
            } else if i > at {
                assert(t[i] == q[i - 1]);
            }
        }
        assert(t[at] == (left, right));
    }
}

proof fn lemma_queued_stays(q: Seq<(u32, u32)>, left: u32, right: u32, una: u32, a: u32, b: u32)
    requires
        q.len() <= 32,
        queued(q, a, b),
    ensures
        queued(with_lost(q, left, right, una), a, b),
{
    law_loss_is_queued(q, left, right, una);
    let t = with_lost(q, left, right, una);
    let i = choose|i: int|
        0 <= i < q.len() && seq_le((#[trigger] q[i]).0, a) && seq_le(b, q[i].1);
    assert(t.contains(q[i]));
    let j = choose|j: int| 0 <= j < t.len() && t[j] == q[i];
    assert(seq_le(t[j].0, a) && seq_le(b, t[j].1));
}

/// What is found lost is queued to be sent again: while the peer reports nothing and there is
/// room, every loss that is outstanding as a whole waits for its retransmission.
pub proof fn law_losses_are_queued(
    q: Seq<(u32, u32)>,
    found: Seq<(u32, u32)>,
    una: u32,
    top: u32,
    n: int,
)
    requires
        0 <= n <= found.len(),
        q.len() + n <= 32,
        top.wrapping_sub(una) < 0x4000_0000,
        forall|j: int|
            0 <= j < found.len() ==> inside(#[trigger] found[j], una, top),
    ensures
        ({
            let t = with_all_lost(q, found, Seq::empty(), una, top, n);
            &&& t.len() <= q.len() + n
            &&& forall|j: int| 0 <= j < n ==> queued(t, (#[trigger] found[j]).0, found[j].1)
        }),
    decreases n,
{
    if n > 0 {
        law_losses_are_queued(q, found, una, top, n - 1);
        let p = with_all_lost(q, found, Seq::empty(), una, top, n - 1);
        let r = found[n - 1];
        assert(inside(r, una, top));
        let none = Seq::<Range>::empty();
        assert(first_hole(none, r.0, r.1) == Some((r.0, r.1)));
        reveal_with_fuel(with_holes, 3);
        let t = with_lost(p, r.0, r.1, una);
        assert(with_holes(p, none, r.0, r.1, una) == t);
        assert(with_all_lost(q, found, none, una, top, n) == t);
        law_loss_is_queued(p, r.0, r.1, una);
        assert forall|j: int| 0 <= j < n implies queued(t, (#[trigger] found[j]).0, found[j].1) by {
            if j < n - 1 {
                lemma_queued_stays(p, r.0, r.1, una, found[j].0, found[j].1);
            }
        }
    }
}

/// The range `r` is not empty and lies between `una` and `top`.
pub open spec fn inside(r: (u32, u32), una: u32, top: u32) -> bool {
    r.0.wrapping_sub(una) < r.1.wrapping_sub(una) <= top.wrapping_sub(una)
}

/// A cumulative acknowledgement tells of a delivery: the record of what was delivered last is
/// not older than the transmission that carried the last byte acknowledged. And what is
/// acknowledged leaves the scoreboard.
pub proof fn law_acknowledged_is_delivered(s: TcbView, e: SendEntry)
    requires
        latest_covering(s.sent, s.snd_una.wrapping_sub(1)) == Some(e),
    ensures
        delivery_noted(s).rack.xmit_ts_ms >= e.send_ts_ms,
        delivery_noted(s).rack.xmit_ts_ms >= s.rack.xmit_ts_ms,
        delivery_noted(s).board.una == s.snd_una,
{
    reveal(delivery_noted);
}

/// What is taken to be in flight in recovery: what is outstanding, less what the peer holds,
/// and what was sent again.
pub proof fn law_flight_in_recovery(s: TcbView)
    requires
        bytes_of(s.board.ranges) <= s.snd_max.wrapping_sub(s.snd_una),
        s.snd_max.wrapping_sub(s.snd_una) <= 0x4000_0000,
        s.rxt_unacked <= 0x4000_0000,
    ensures
        pipe(s) == s.snd_max.wrapping_sub(s.snd_una) - bytes_of(s.board.ranges) + s.rxt_unacked,
{
    reveal(pipe);
}

/// Recovery ends once everything is acknowledged: with the window at the threshold, and no
/// loss is queued any more.
pub proof fn law_recovery_ends_with_its_flight(s: TcbView, g: SegmentView)
    requires
        s.cc.in_recovery,
        g.ack == s.snd_max,
        s.snd_max.wrapping_sub(s.cc.recovery_point) < 0x8000_0000,
    ensures
        ({
            let t = ack_recovery(ack_prune(ack_advance(s, g.ack)), g.ack.wrapping_sub(s.snd_una));
            &&& !t.cc.in_recovery && t.cc.cwnd == s.cc.ssthresh && t.cc.ssthresh == s.cc.ssthresh
            &&& t.lost.len() == 0 && t.board.ranges.len() == 0 && t.rxt_unacked == 0
            &&& rack_scan(t).cc == t.cc
        }),
{
    let acked = g.ack.wrapping_sub(s.snd_una);
    let a = ack_advance(s, g.ack);
    assert(a.cc == after_ack(s.cc, acked) && a.snd_una == g.ack && a.snd_max == s.snd_max) by {
        reveal(ack_advance);
        reveal(una_moved);
        reveal(user_timer_restarted);
        reveal(nxt_caught_up);
    }
    let t = ack_recovery(ack_prune(a), acked);
    assert(!t.cc.in_recovery && t.cc.cwnd == s.cc.ssthresh && t.cc.ssthresh == s.cc.ssthresh
        && t.lost.len() == 0 && t.board.ranges.len() == 0 && t.rxt_unacked == 0 && t.snd_una
        == t.snd_max) by {
        reveal(ack_prune);
        reveal(delivery_noted);
        reveal(records_pruned);
        reveal(ack_recovery);
        reveal(rxt_caught_up);
        reveal(delivery_credited);
        reveal(recovery_ended);
    }
    reveal(rack_scan);
    reveal(reo_updated);
    reveal(lost_queued);
}

/// What the peer reports is noted: with selective acknowledgement in use, the first report of
/// a range that is outstanding leaves exactly that range on the scoreboard. Without it reports
/// are not looked at.
pub proof fn law_report_is_noted(s: TcbView, g: SegmentView, left: u32, right: u32)
    requires
        g.options.sack == seq![(left, right)],
        s.board.ranges.len() == 0,
        s.snd_max.wrapping_sub(s.snd_una) < 0x4000_0000,
        inside((left, right), s.snd_una, s.snd_max),
    ensures
        ({
            let (t, newly) = note_sacks(s, g);
            &&& s.sack_enabled ==> {
                &&& newly == right.wrapping_sub(left)
                &&& t.board.ranges == seq![Range { left, right }]
                &&& latest_covering(s.sent, right.wrapping_sub(1)) matches Some(e) ==> (e.send_ts_ms
                    > 0 ==> t.rack.xmit_ts_ms >= e.send_ts_ms)
            }
            &&& !s.sack_enabled ==> t == s && newly == 0
        }),
{
    reveal(note_sacks);
    reveal(sack_total);
    reveal(sacks_noted);
    reveal_with_fuel(sack_sum, 3);
    let rs = s.board.ranges;
    assert(rs =~= Seq::<Range>::empty());
    let r = Range { left, right };
    assert(clip_to_window(left, right, s.snd_una, s.snd_max) == Some(r));
    assert(bytes_shared(rs, left, right) == 0);
    assert(newly_covered(rs, left, right, s.snd_una, s.snd_max) == right.wrapping_sub(left));
    let w = with_block(s.board, left, right, s.snd_una, s.snd_max);
    assert(w.ranges =~= seq![r]) by {
        reveal_with_fuel(sorted, 2);
        reveal_with_fuel(insert_sorted, 2);
        assert(rs.push(r).drop_last() =~= rs);
    }
}

/// A timeout forgets what was in flight: what the peer has reported, what was sent when, and
/// which losses were queued. Everything is sent again from the oldest unacknowledged byte.
pub proof fn law_timeout_forgets_the_flight(s: TcbView)
    requires
        timed_out(s),
        !(s.state is SynSent || s.state is SynRcvd),
    ensures
        ({
            let t = tick_rto(s);
            &&& t.snd_nxt == s.snd_una && t.snd_una == s.snd_una && t.snd_max == s.snd_max
            &&& t.board.ranges.len() == 0 && t.sent.len() == 0 && t.lost.len() == 0
            &&& t.rack.xmit_ts_ms == 0 && t.rxt_unacked == 0
            &&& t.tlp_deadline is None && !t.tlp_fired && t.rack_deadline is None
            &&& t.send_ring == s.send_ring
        }),
{
    reveal(tick_rto);
    reveal(count_timeout);
    reveal(collapse);
    reveal(resend_handshake);
}

/// Progress allows another tail loss probe.
pub proof fn law_progress_allows_another_probe(s: TcbView, acked: u32)
    ensures
        acked > 0 ==> !tlp_reset(s, acked).tlp_fired,
        acked == 0 ==> tlp_reset(s, acked).tlp_fired == s.tlp_fired,
        tlp_reset(s, acked).tlp_deadline is None,
{
    reveal(tlp_reset);
}

/// What is sent again counts as in flight until as much is acknowledged, and the position up
/// to which was sent again only moves on.
pub proof fn law_sent_again_is_counted(s: TcbView, seq: u32, n: u32, acked: u32)
    requires
        s.rxt_unacked + n <= u32::MAX,
    ensures
        ({
            let t = rxt_noted(s, seq, n);
            &&& t.rxt_unacked == s.rxt_unacked + n
            &&& seq_ge(seq, s.rxt_seq) ==> t.rxt_seq == seq.wrapping_add(n)
            &&& seq_lt(seq, s.rxt_seq) ==> t.rxt_seq == s.rxt_seq
        }),
        ({
            let t = rxt_caught_up(s, acked);
            &&& acked <= s.rxt_unacked ==> t.rxt_unacked == s.rxt_unacked - acked
            &&& acked >= s.rxt_unacked ==> t.rxt_unacked == 0
            &&& seq_gt(s.snd_una, s.rxt_seq) ==> t.rxt_seq == s.snd_una
            &&& seq_le(s.snd_una, s.rxt_seq) ==> t.rxt_seq == s.rxt_seq
        }),
{
    reveal(rxt_noted);
    reveal(rxt_caught_up);
}

} // verus!
