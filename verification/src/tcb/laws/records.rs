//! The records of transmissions and the queued losses speak of what is outstanding.

use crate::rack::{lost_ranges, Rack};
use crate::scoreboard::{
    before, first_hole, first_holding, hole_end, next_lost, next_of, not_below, Range, ScoreView,
};
use crate::send_queue::{highest_open, SendEntry};
use crate::seq::{seq_gt, seq_le, seq_lt};
use crate::tcb::laws::sending::{lemma_emit_send, lemma_nxt_moved_sound, lemma_send_one_sound};
use crate::tcb::laws::soundness::{outstanding, sound};
use crate::tcb::lost_queue::{place, with_all_lost, with_holes, with_lost};
use crate::tcb::model::{
    ack_sent, arm_persist, arm_rto, arm_rto_if_idle, arm_tlp, begin_recovery, buffered,
    bump_max, can_retransmit, charged, data_opts, emit, emit_again, emit_fin, emit_new, fin_due,
    fin_placed, fire_tlp, flight, lost_queued, lost_taken, lost_target, may_transmit, nxt_moved,
    payload_mss, rack_scan, recovering, recovery_left, recovery_target, reo_updated, retransmit,
    ring_bytes, rto_kept, rxt_noted, send_data, send_fresh, send_lost, send_one, send_recovery, send_some,
    sendable, tlp_disarmed, tlp_spent, tlp_target, tx_full, unsent, TcbView,
};
use crate::tx_ring::TX_RING_CAP;
use crate::wire::flags;
use vstd::prelude::*;

verus! {

/// `x` lies behind `una`, at most `m` bytes.
pub open spec fn within(x: u32, una: u32, m: int) -> bool {
    0 < x.wrapping_sub(una) <= m
}

/// Every record ends within what is outstanding.
pub open spec fn sent_ok(q: Seq<SendEntry>, una: u32, m: int) -> bool {
    forall|i: int| 0 <= i < q.len() ==> within((#[trigger] q[i]).seq_end, una, m)
}

/// Every queued loss ends within what is outstanding.
pub open spec fn lost_ok(q: Seq<(u32, u32)>, una: u32, m: int) -> bool {
    forall|i: int| 0 <= i < q.len() ==> within((#[trigger] q[i]).1, una, m)
}

/// Recovery goes on retransmitting from within what is outstanding.
pub open spec fn cursor_ok(s: TcbView) -> bool {
    s.cc.in_recovery ==> s.rxt_seq.wrapping_sub(s.snd_una) <= outstanding(s)
}

/// The records and the queued losses of a connection that sends speak of what is
/// outstanding, and so does its recovery; one in its handshake has none.
pub open spec fn on_record(s: TcbView) -> bool {
    kept_up(s) && (may_transmit(s.state) ==> cursor_ok(s))
}

/// [`on_record`] but for the recovery.
pub open spec fn kept_up(s: TcbView) -> bool {
    &&& may_transmit(s.state) ==> sent_ok(s.sent, s.snd_una, outstanding(s)) && lost_ok(
        s.lost,
        s.snd_una,
        outstanding(s),
    )
    &&& s.state is SynSent || s.state is SynRcvd ==> s.sent.len() == 0 && s.lost.len() == 0
}

/// What [`on_record`] speaks of is the same, but for more being outstanding and for
/// recovery that has started or ended.
pub open spec fn same_records(s: TcbView, t: TcbView) -> bool {
    &&& t.sent == s.sent
    &&& t.lost == s.lost
    &&& t.cc.in_recovery ==> t.rxt_seq == t.snd_una || s.cc.in_recovery && t.rxt_seq == s.rxt_seq
    &&& t.snd_una == s.snd_una
    &&& outstanding(t) >= outstanding(s)
    &&& t.state == s.state
}

pub proof fn lemma_same_records(s: TcbView, t: TcbView)
    requires
        on_record(s),
        same_records(s, t),
    ensures
        on_record(t),
{
    if may_transmit(s.state) {
        assert forall|i: int| 0 <= i < t.sent.len() implies within(
            (#[trigger] t.sent[i]).seq_end,
            t.snd_una,
            outstanding(t),
        ) by {
            assert(within(s.sent[i].seq_end, s.snd_una, outstanding(s)));
        }
        assert forall|i: int| 0 <= i < t.lost.len() implies within(
            (#[trigger] t.lost[i]).1,
            t.snd_una,
            outstanding(t),
        ) by {
            assert(within(s.lost[i].1, s.snd_una, outstanding(s)));
        }
    }
}

proof fn lemma_charged_recorded(s: TcbView, seq: u32, n: u32, again: bool)
    requires
        on_record(s),
        may_transmit(s.state),
        within(seq.wrapping_add(n), s.snd_una, outstanding(s)),
    ensures
        on_record(charged(s, seq, n, again)),
        charged(s, seq, n, again).state == s.state,
{
    reveal(charged);
    let t = charged(s, seq, n, again);
    let m = outstanding(s);
    assert forall|i: int| 0 <= i < t.sent.len() implies within(
        (#[trigger] t.sent[i]).seq_end,
        t.snd_una,
        m,
    ) by {
        if n > 0 {
            if s.sent.len() >= crate::send_queue::SEND_QUEUE_CAP {
                if i < t.sent.len() - 1 {
                    assert(t.sent[i] == s.sent[i + 1]);
                    assert(within(s.sent[i + 1].seq_end, s.snd_una, m));
                }
            } else if i < s.sent.len() {
                assert(t.sent[i] == s.sent[i]);
                assert(within(s.sent[i].seq_end, s.snd_una, m));
            }
        } else {
            assert(within(s.sent[i].seq_end, s.snd_una, m));
        }
    }
}

proof fn lemma_lost_found(k: Rack, q: Seq<SendEntry>, now: u64, una: u32, m: int)
    requires
        sent_ok(q, una, m),
    ensures
        lost_ok(lost_ranges(k, q, now), una, m),
    decreases q.len(),
{
    if q.len() > 0 {
        assert forall|i: int| 0 <= i < q.drop_last().len() implies within(
            (#[trigger] q.drop_last()[i]).seq_end,
            una,
            m,
        ) by {
            assert(within(q[i].seq_end, una, m));
        }
        lemma_lost_found(k, q.drop_last(), now, una, m);
        assert(within(q[q.len() - 1].seq_end, una, m));
    }
}

proof fn lemma_place(q: Seq<(u32, u32)>, left: u32, una: u32, from: int)
    requires
        0 <= from <= q.len(),
    ensures
        from <= place(q, left, una, from) <= q.len(),
    decreases q.len() - from,
{
    if from < q.len() && !(left.wrapping_sub(una) < q[from].0.wrapping_sub(una)) {
        lemma_place(q, left, una, from + 1);
    }
}

pub proof fn lemma_with_lost_ok(q: Seq<(u32, u32)>, left: u32, right: u32, una: u32, m: int)
    requires
        lost_ok(q, una, m),
        within(right, una, m),
    ensures
        lost_ok(with_lost(q, left, right, una), una, m),
{
    let t = with_lost(q, left, right, una);
    let p = place(q, left, una, 0);
    lemma_place(q, left, una, 0);
    assert forall|i: int| 0 <= i < t.len() implies within((#[trigger] t[i]).1, una, m) by {
        if t.len() > q.len() {
            if i < p {
                assert(t[i] == q[i]);
            } else if i > p {
                assert(t[i] == q[i - 1]);
            }
        }
    }
}

proof fn lemma_with_holes_ok(
    q: Seq<(u32, u32)>,
    rs: Seq<Range>,
    left: u32,
    right: u32,
    una: u32,
    m: int,
)
    requires
        lost_ok(q, una, m),
        within(right, una, m),
        !seq_le(right, left) ==> left.wrapping_sub(una) <= right.wrapping_sub(una),
    ensures
        lost_ok(with_holes(q, rs, left, right, una), una, m),
    decreases before(left, right),
{
    if !seq_le(right, left) {
        lemma_first_hole_between(rs, left, right);
        if let Some((a, b)) = first_hole(rs, left, right) {
            assert(within(b, una, m));
            lemma_with_lost_ok(q, a, b, una, m);
            if before(b, right) < before(left, right) {
                lemma_with_holes_ok(with_lost(q, a, b, una), rs, b, right, una, m);
            }
        }
    }
}

proof fn lemma_with_all_lost_ok(
    q: Seq<(u32, u32)>,
    found: Seq<(u32, u32)>,
    rs: Seq<Range>,
    una: u32,
    top: u32,
    n: int,
)
    requires
        lost_ok(q, una, top.wrapping_sub(una) as int),
        lost_ok(found, una, top.wrapping_sub(una) as int),
        n <= found.len(),
    ensures
        lost_ok(with_all_lost(q, found, rs, una, top, n), una, top.wrapping_sub(una) as int),
    decreases n,
{
    if n > 0 {
        let m = top.wrapping_sub(una) as int;
        lemma_with_all_lost_ok(q, found, rs, una, top, n - 1);
        let r = found[n - 1];
        assert(within(r.1, una, m));
        let lo = if seq_lt(r.0, una) {
            una
        } else {
            r.0
        };
        let hi = if seq_gt(r.1, top) {
            top
        } else {
            r.1
        };
        assert(!seq_le(hi, lo) ==> lo.wrapping_sub(una) <= hi.wrapping_sub(una));
        lemma_with_holes_ok(with_all_lost(q, found, rs, una, top, n - 1), rs, lo, hi, una, m);
    }
}

/// Judging by time queues losses of what is outstanding.
pub proof fn lemma_rack_scan_recorded(s: TcbView)
    requires
        on_record(s),
        !(s.state is SynSent || s.state is SynRcvd),
    ensures
        on_record(rack_scan(s)),
{
    reveal(rack_scan);
    let a = reo_updated(s);
    let found = lost_ranges(a.rack, a.sent, a.now_ms);
    let b = if found.len() > 0 && !a.cc.in_recovery && seq_gt(a.snd_max, a.snd_una) {
        begin_recovery(a)
    } else {
        a
    };
    assert(same_records(s, a) && same_records(s, b)) by {
        reveal(reo_updated);
        reveal(begin_recovery);
        reveal(recovering);
        reveal(arm_rto);
    }
    reveal(lost_queued);
    if may_transmit(s.state) {
        lemma_same_records(s, b);
        lemma_lost_found(a.rack, a.sent, a.now_ms, b.snd_una, outstanding(b));
        lemma_with_all_lost_ok(
            b.lost,
            found,
            b.board.ranges,
            b.snd_una,
            b.snd_max,
            found.len() as int,
        );
    }
}

proof fn lemma_rearm_records(s: TcbView, probe: u32)
    ensures
        same_records(s, arm_rto(s, probe)),
        same_records(s, arm_rto_if_idle(s, probe)),
        same_records(s, arm_tlp(s)),
        same_records(s, ack_sent(s)),
{
    reveal(arm_rto);
    reveal(arm_rto_if_idle);
    reveal(arm_tlp);
    reveal(ack_sent);
}

pub proof fn lemma_emit_records(
    s: TcbView,
    bits: u8,
    seq: u32,
    ack: u32,
    opts: crate::wire::options::OptionsView,
    payload: Seq<u8>,
)
    ensures
        same_records(s, emit(s, bits, seq, ack, opts, payload)),
{
    reveal(emit);
}

proof fn lemma_emit_again_recorded(s: TcbView, seq: u32, n: u32)
    requires
        on_record(s),
        may_transmit(s.state),
        within(seq.wrapping_add(n), s.snd_una, outstanding(s)),
    ensures
        on_record(emit_again(s, seq, n)),
{
    reveal(emit_again);
    let b = ring_bytes(s, seq.wrapping_sub(s.snd_una) as int, n as int);
    let t = emit(s, flags::ACK | flags::PSH, seq, s.rcv_nxt, data_opts(s), b);
    lemma_emit_records(s, flags::ACK | flags::PSH, seq, s.rcv_nxt, data_opts(s), b);
    lemma_same_records(s, t);
    assert(t.snd_max == s.snd_max) by {
        reveal(emit);
    }
    lemma_charged_recorded(t, seq, n, true);
    let u = rxt_noted(charged(t, seq, n, true), seq, n);
    assert(on_record(u)) by {
        reveal(charged);
        reveal(rxt_noted);
    }
    lemma_rearm_records(u, 0);
    let v = ack_sent(u);
    lemma_rearm_records(v, v.snd_max);
    let w = arm_rto_if_idle(v, v.snd_max);
    lemma_rearm_records(w, 0);
    lemma_same_records(u, arm_tlp(w));
}

/// What is retransmitted lies within what is outstanding.
proof fn lemma_retransmit_recorded(s: TcbView, seq: u32, bytes: int)
    requires
        sound(s),
        on_record(s),
        may_transmit(s.state),
        seq.wrapping_sub(s.snd_una) < s.send_ring.len() ==> seq.wrapping_sub(s.snd_una) + bytes
            <= outstanding(s),
    ensures
        on_record(retransmit(s, seq, bytes)),
{
    reveal(retransmit);
    if can_retransmit(s, seq, bytes) {
        let n = buffered(s, seq, bytes) as u32;
        assert(within(seq.wrapping_add(n), s.snd_una, outstanding(s)));
        lemma_emit_again_recorded(s, seq, n);
    }
}

pub proof fn lemma_highest_open(q: Seq<SendEntry>, rs: Seq<Range>, una: u32, m: int)
    requires
        sent_ok(q, una, m),
    ensures
        highest_open(q, rs) matches Some(e) ==> within(e.seq_end, una, m),
    decreases q.len(),
{
    if q.len() > 0 {
        assert forall|i: int| 0 <= i < q.drop_last().len() implies within(
            (#[trigger] q.drop_last()[i]).seq_end,
            una,
            m,
        ) by {
            assert(within(q[i].seq_end, una, m));
        }
        lemma_highest_open(q.drop_last(), rs, una, m);
        assert(within(q[q.len() - 1].seq_end, una, m));
    }
}

pub proof fn lemma_fire_tlp_recorded(s: TcbView)
    requires
        sound(s),
        on_record(s),
        may_transmit(s.state),
        outstanding(s) > 0,
    ensures
        on_record(fire_tlp(s)),
{
    reveal(fire_tlp);
    let t = tlp_disarmed(s);
    assert(same_records(s, t) && sound(t) && same_records(t, tlp_spent(t))) by {
        reveal(tlp_disarmed);
        reveal(tlp_spent);
    }
    lemma_same_records(s, t);
    lemma_same_records(t, tlp_spent(t));
    lemma_highest_open(t.sent, t.board.ranges, t.snd_una, outstanding(t));
    if let Some(e) = highest_open(t.sent, t.board.ranges) {
        reveal(tlp_target);
        reveal(payload_mss);
        let (start, bytes) = tlp_target(t, e);
        if bytes > 0 {
            lemma_retransmit_recorded(t, start, bytes);
            let u = retransmit(t, start, bytes);
            assert(same_records(u, tlp_spent(u))) by {
                reveal(tlp_spent);
            }
            lemma_same_records(u, tlp_spent(u));
        }
    }
}

proof fn lemma_emit_new_recorded(s: TcbView, n: u32)
    requires
        sound(s),
        on_record(s),
        may_transmit(s.state),
        0 < n <= unsent(s),
    ensures
        on_record(emit_new(s, n)),
{
    reveal(emit_new);
    let b = ring_bytes(s, flight(s) as int, n as int);
    let t = emit(s, flags::ACK | flags::PSH, s.snd_nxt, s.rcv_nxt, data_opts(s), b);
    lemma_emit_records(s, flags::ACK | flags::PSH, s.snd_nxt, s.rcv_nxt, data_opts(s), b);
    lemma_emit_send(s, flags::ACK | flags::PSH, s.snd_nxt, s.rcv_nxt, data_opts(s), b);
    lemma_same_records(s, t);
    lemma_nxt_moved_sound(t, n);
    let u = nxt_moved(t, n);
    assert(same_records(t, u) && u.snd_nxt == s.snd_nxt.wrapping_add(n)) by {
        reveal(nxt_moved);
        reveal(bump_max);
    }
    lemma_same_records(t, u);
    lemma_charged_recorded(u, s.snd_nxt, n, false);
    let v = charged(u, s.snd_nxt, n, false);
    lemma_rearm_records(v, 0);
    let w = ack_sent(v);
    lemma_rearm_records(w, w.snd_nxt);
    let x = arm_rto_if_idle(w, w.snd_nxt);
    lemma_rearm_records(x, 0);
    lemma_same_records(v, arm_tlp(x));
}

proof fn lemma_emit_fin_recorded(s: TcbView)
    requires
        sound(s),
        on_record(s),
        fin_due(s),
        !tx_full(s),
    ensures
        on_record(emit_fin(s)),
{
    reveal(emit_fin);
    let t = emit(s, flags::FIN | flags::ACK, s.snd_nxt, s.rcv_nxt, data_opts(s), Seq::empty());
    lemma_emit_send(s, flags::FIN | flags::ACK, s.snd_nxt, s.rcv_nxt, data_opts(s), Seq::empty());
    lemma_emit_records(
        s,
        flags::FIN | flags::ACK,
        s.snd_nxt,
        s.rcv_nxt,
        data_opts(s),
        Seq::empty(),
    );
    let v = nxt_moved(fin_placed(t), 1);
    assert(same_records(t, v)) by {
        reveal(fin_placed);
        reveal(nxt_moved);
        reveal(bump_max);
    }
    lemma_rearm_records(v, 0);
    let w = ack_sent(v);
    lemma_rearm_records(w, w.snd_nxt);
    lemma_same_records(s, arm_rto_if_idle(w, w.snd_nxt));
}

pub proof fn lemma_send_fresh_recorded(s: TcbView)
    requires
        sound(s),
        on_record(s),
        may_transmit(s.state),
    ensures
        on_record(send_fresh(s).0),
{
    reveal(send_fresh);
    if fin_due(s) && !tx_full(s) {
        lemma_emit_fin_recorded(s);
    } else if s.snd_wnd == 0 {
        reveal(arm_persist);
        reveal(rto_kept);
        lemma_same_records(s, arm_persist(s));
    } else if sendable(s) > 0 && !tx_full(s) {
        reveal(sendable);
        lemma_emit_new_recorded(s, sendable(s) as u32);
    }
}

/// A hole ends above its start and not above the end of the search.
proof fn lemma_hole_end_between(rs: Seq<Range>, cursor: u32, end: u32, n: int)
    requires
        0 < end.wrapping_sub(cursor) < 0x8000_0000,
    ensures
        0 < hole_end(rs, cursor, end, n).wrapping_sub(cursor) <= end.wrapping_sub(cursor),
    decreases n,
{
    if n > 0 {
        lemma_hole_end_between(rs, cursor, end, n - 1);
    }
}

/// The first hole lies between the start and the end of the search.
pub proof fn lemma_first_hole_between(rs: Seq<Range>, cursor: u32, end: u32)
    requires
        end.wrapping_sub(cursor) < 0x8000_0000,
    ensures
        first_hole(rs, cursor, end) matches Some((a, b)) ==> {
            &&& 0 < end.wrapping_sub(a) <= end.wrapping_sub(cursor)
            &&& 0 < b.wrapping_sub(a) <= end.wrapping_sub(a)
        },
    decreases before(cursor, end),
{
    if seq_lt(cursor, end) {
        let i = first_holding(rs, cursor, 0);
        if i < rs.len() {
            if before(rs[i].right, end) < before(cursor, end) {
                if seq_lt(rs[i].right, end) {
                    lemma_first_hole_between(rs, rs[i].right, end);
                } else {
                    assert(first_hole(rs, rs[i].right, end) is None);
                }
            }
        } else {
            lemma_hole_end_between(rs, cursor, end, rs.len() as int);
        }
    }
}

/// The next loss lies between the start and the end of the search.
proof fn lemma_next_lost_between(rs: Seq<Range>, cursor: u32, end: u32, mss: u32)
    ensures
        next_lost(rs, cursor, end, mss) matches Some((a, n)) ==> {
            &&& 0 < before(a, end) <= before(cursor, end)
            &&& 0 < end.wrapping_sub(a) <= 0x8000_0000
            &&& end.wrapping_sub(a) < 0x8000_0000 ==> n <= end.wrapping_sub(a)
        },
    decreases before(cursor, end),
{
    if seq_lt(cursor, end) {
        let i = first_holding(rs, cursor, 0);
        let next = if i < rs.len() {
            rs[i].right
        } else {
            hole_end(rs, cursor, end, rs.len() as int)
        };
        if end.wrapping_sub(cursor) < 0x8000_0000 {
            lemma_hole_end_between(rs, cursor, end, rs.len() as int);
        }
        if i >= rs.len() && crate::scoreboard::lost(rs, cursor, mss) {
        } else if before(next, end) < before(cursor, end) {
            lemma_next_lost_between(rs, next, end, mss);
        }
    }
}

/// What [`next_of`] answers lies between the start and the end of the search.
pub proof fn lemma_next_of_between(v: ScoreView, start: u32, end: u32, mss: u32)
    ensures
        next_of(v, start, end, mss) matches Some((a, n)) ==> {
            &&& 0 < end.wrapping_sub(a) <= 0x8000_0000
            &&& end.wrapping_sub(a) < 0x8000_0000 ==> n <= end.wrapping_sub(a)
            &&& end.wrapping_sub(start) < 0x8000_0000 ==> end.wrapping_sub(a) <= end.wrapping_sub(
                start,
            )
        },
{
    lemma_next_lost_between(v.ranges, not_below(start, v.una), end, mss);
}

pub proof fn lemma_send_recovery_recorded(s: TcbView)
    requires
        sound(s),
        on_record(s),
        may_transmit(s.state),
    ensures
        on_record(send_recovery(s).0),
{
    reveal(send_recovery);
    lemma_send_fresh_recorded(s);
    reveal(recovery_target);
    lemma_next_of_between(s.board, s.rxt_seq, s.snd_max, payload_mss(s) as u32);
    if let Some((seq, bytes)) = recovery_target(s) {
        if bytes > 0 {
            lemma_retransmit_recorded(s, seq, bytes);
        }
    }
}

/// What is taken from the queued losses to retransmit lies within what is
/// outstanding.
pub proof fn lemma_lost_target_within(s: TcbView, r: (u32, u32))
    requires
        sound(s),
        may_transmit(s.state),
        within(r.1, s.snd_una, outstanding(s)),
    ensures
        lost_target(s, r) matches Some((seq, bytes)) ==> seq.wrapping_sub(s.snd_una) < outstanding(
            s,
        ) && seq.wrapping_sub(s.snd_una) + bytes <= outstanding(s),
{
    reveal(lost_target);
    let lo = if seq_lt(r.0, s.snd_una) {
        s.snd_una
    } else {
        r.0
    };
    let hi = if seq_gt(r.1, s.snd_max) {
        s.snd_max
    } else {
        r.1
    };
    assert(hi == r.1);
    if seq_lt(lo, hi) {
        assert(0 < hi.wrapping_sub(lo) <= hi.wrapping_sub(s.snd_una));
        lemma_first_hole_between(s.board.ranges, lo, hi);
    }
}

proof fn lemma_send_lost_recorded(s: TcbView)
    requires
        sound(s),
        on_record(s),
        may_transmit(s.state),
    ensures
        on_record(send_lost(s).0),
{
    reveal(send_lost);
    lemma_send_recovery_recorded(s);
    if s.lost.len() > 0 {
        let t = lost_taken(s);
        assert(t.sent == s.sent && t.lost == s.lost.skip(1) && t.snd_una == s.snd_una && t.snd_max
            == s.snd_max && t.state == s.state && t.cc == s.cc && t.rxt_seq == s.rxt_seq && sound(
            t,
        )) by {
            reveal(lost_taken);
        }
        assert(on_record(t)) by {
            assert forall|i: int| 0 <= i < t.lost.len() implies within(
                (#[trigger] t.lost[i]).1,
                t.snd_una,
                outstanding(t),
            ) by {
                assert(t.lost[i] == s.lost[i + 1]);
                assert(within(s.lost[i + 1].1, s.snd_una, outstanding(s)));
            }
        }
        lemma_send_recovery_recorded(t);
        assert(within(s.lost[0].1, s.snd_una, outstanding(s)));
        lemma_lost_target_within(t, s.lost[0]);
        if let Some((seq, bytes)) = lost_target(t, s.lost[0]) {
            if bytes > 0 {
                lemma_retransmit_recorded(t, seq, bytes);
            }
        }
    }
}

pub proof fn lemma_send_one_recorded(s: TcbView)
    requires
        sound(s),
        on_record(s),
        may_transmit(s.state),
    ensures
        on_record(send_one(s).0),
{
    reveal(send_one);
    let t = recovery_left(s);
    assert(same_records(s, t) && sound(t)) by {
        reveal(recovery_left);
    }
    lemma_same_records(s, t);
    lemma_send_lost_recorded(s);
    lemma_send_lost_recorded(t);
}

proof fn lemma_send_some_recorded(s: TcbView, turns: nat)
    requires
        sound(s),
        on_record(s),
        may_transmit(s.state),
    ensures
        on_record(send_some(s, turns)),
    decreases turns,
{
    reveal_with_fuel(send_some, 2);
    if turns > 0 {
        lemma_send_one_sound(s);
        lemma_send_one_recorded(s);
        lemma_send_some_recorded(send_one(s).0, (turns - 1) as nat);
    }
}

pub proof fn lemma_send_data_recorded(s: TcbView)
    requires
        sound(s),
        on_record(s),
    ensures
        on_record(send_data(s)),
{
    reveal(send_data);
    if may_transmit(s.state) {
        lemma_send_some_recorded(s, TX_RING_CAP as nat + 2);
    }
}

} // verus!
