//! What the receive buffer keeps: the bytes it holds, their number, and that no
//! two runs overlap.

use crate::num::min;
use crate::reassembly::{
    abuts, advance, clear_until, cut_before_held, drained, extended, first_abutting, first_free,
    first_having, first_neighbour, held, inserted, join_neighbour, joined, new_part, nothing_held,
    overlap_free, reasm_ok, run_end, run_has, runs_overlap, skip_held, stored, trim_old, used,
    without_front, Incoming, ReasmView, Run, MAX_HOLES, SLOT_CAP,
};
use crate::scoreboard::laws::above;
use crate::seq::seq_diff;
use vstd::prelude::*;

verus! {

/// The run holds the byte `b` at sequence number `x`.
pub open spec fn run_holds(r: Run, x: u32, b: u8) -> bool {
    x.wrapping_sub(r.start) < r.data.len() && r.data[x.wrapping_sub(r.start) as int] == b
}

/// Some run holds the byte `b` at sequence number `x`.
pub open spec fn holds(runs: Seq<Run>, x: u32, b: u8) -> bool {
    exists|i: int| 0 <= i < runs.len() && run_holds(#[trigger] runs[i], x, b)
}

/// Byte `x` of the incoming range is `b`.
pub open spec fn brings(p: Incoming, x: u32, b: u8) -> bool {
    x.wrapping_sub(p.seq) < p.data.len() && p.data[x.wrapping_sub(p.seq) as int] == b
}

/// No run exceeds its share.
pub open spec fn runs_ok(runs: Seq<Run>) -> bool {
    forall|i: int| 0 <= i < runs.len() ==> (#[trigger] runs[i]).data.len() <= SLOT_CAP
}

pub proof fn lemma_held_update(runs: Seq<Run>, i: int, r: Run)
    requires
        0 <= i < runs.len(),
    ensures
        held(runs.update(i, r)) == held(runs) - runs[i].data.len() + r.data.len(),
    decreases runs.len(),
{
    let out = runs.update(i, r);
    if i == runs.len() - 1 {
        assert(out.drop_last() =~= runs.drop_last());
    } else {
        assert(out.drop_last() =~= runs.drop_last().update(i, r));
        lemma_held_update(runs.drop_last(), i, r);
    }
}

pub proof fn lemma_first_neighbour(runs: Seq<Run>, i: int, from: int)
    requires
        0 <= from <= runs.len(),
    ensures
        ({
            let j = first_neighbour(runs, i, from);
            &&& from <= j <= runs.len()
            &&& j < runs.len() ==> j != i && used(runs[j]) && (run_end(runs[i]) == runs[j].start
                || run_end(runs[j]) == runs[i].start)
        }),
    decreases runs.len() - from,
{
    if from < runs.len() {
        lemma_first_neighbour(runs, i, from + 1);
    }
}

/// Two neighbours, before and after bytes have moved from one to the other, hold
/// the same bytes.
proof fn lemma_join_holds(runs: Seq<Run>, i: int, j: int)
    requires
        runs_ok(runs),
        0 <= i < runs.len(),
        0 <= j < runs.len(),
        i != j,
        used(runs[j]),
        runs[i].data.len() < SLOT_CAP,
        run_end(runs[i]) == runs[j].start || run_end(runs[j]) == runs[i].start,
    ensures
        runs_ok(join_neighbour(runs, i, j)),
        join_neighbour(runs, i, j).len() == runs.len(),
        join_neighbour(runs, i, j)[i].data.len() > runs[i].data.len(),
        held(join_neighbour(runs, i, j)) == held(runs),
        forall|x: u32, b: u8| #[trigger]
            holds(join_neighbour(runs, i, j), x, b) == holds(runs, x, b),
{
    let out = join_neighbour(runs, i, j);
    let a = runs[i];
    let c = runs[j];
    let n = min(c.data.len() as int, SLOT_CAP - a.data.len());
    assert(out[i].data.len() == a.data.len() + n);
    assert(out[j].data.len() == c.data.len() - n);
    assert(held(out) == held(runs)) by {
        lemma_held_update(runs, i, out[i]);
        lemma_held_update(runs.update(i, out[i]), j, out[j]);
        assert(out =~= runs.update(i, out[i]).update(j, out[j]));
    }
    assert forall|k: int| 0 <= k < out.len() implies (#[trigger] out[k]).data.len() <= SLOT_CAP by {
        if k != i && k != j {
            assert(out[k] == runs[k]);
        }
    }
    assert forall|x: u32, b: u8| #[trigger] holds(out, x, b) == holds(runs, x, b) by {
        assert((run_holds(out[i], x, b) || run_holds(out[j], x, b)) == (run_holds(a, x, b)
            || run_holds(c, x, b)));
        if holds(out, x, b) {
            let k = choose|k: int| 0 <= k < out.len() && run_holds(#[trigger] out[k], x, b);
            if k != i && k != j {
                assert(run_holds(runs[k], x, b));
            } else {
                assert(run_holds(runs[i], x, b) || run_holds(runs[j], x, b));
            }
        }
        if holds(runs, x, b) {
            let k = choose|k: int| 0 <= k < runs.len() && run_holds(#[trigger] runs[k], x, b);
            if k != i && k != j {
                assert(run_holds(out[k], x, b));
            } else {
                assert(run_holds(out[i], x, b) || run_holds(out[j], x, b));
            }
        }
    }
}

/// Joining neighbours moves bytes between slots and changes nothing else.
pub proof fn lemma_joined_holds(runs: Seq<Run>, i: int)
    requires
        runs_ok(runs),
        0 <= i < runs.len(),
    ensures
        runs_ok(joined(runs, i)),
        joined(runs, i).len() == runs.len(),
        held(joined(runs, i)) == held(runs),
        forall|x: u32, b: u8| #[trigger] holds(joined(runs, i), x, b) == holds(runs, x, b),
    decreases SLOT_CAP - runs[i].data.len(),
{
    let j = first_neighbour(runs, i, 0);
    lemma_first_neighbour(runs, i, 0);
    if j < runs.len() && runs[i].data.len() < SLOT_CAP {
        lemma_join_holds(runs, i, j);
        let next = join_neighbour(runs, i, j);
        lemma_joined_holds(next, i);
        assert(joined(runs, i) == joined(next, i));
        assert forall|x: u32, b: u8| #[trigger] holds(joined(runs, i), x, b) == holds(
            runs,
            x,
            b,
        ) by {
            assert(holds(next, x, b) == holds(runs, x, b));
        }
    }
}

pub proof fn lemma_first_abutting(runs: Seq<Run>, p: Incoming, from: int)
    requires
        0 <= from <= runs.len(),
    ensures
        ({
            let i = first_abutting(runs, p, from);
            &&& from <= i <= runs.len()
            &&& i < runs.len() ==> abuts(runs[i], p)
        }),
    decreases runs.len() - from,
{
    if from < runs.len() {
        lemma_first_abutting(runs, p, from + 1);
    }
}

pub proof fn lemma_first_free(runs: Seq<Run>, from: int)
    requires
        0 <= from <= runs.len(),
    ensures
        ({
            let i = first_free(runs, from);
            &&& from <= i <= runs.len()
            &&& i < runs.len() ==> !used(runs[i])
        }),
    decreases runs.len() - from,
{
    if from < runs.len() {
        lemma_first_free(runs, from + 1);
    }
}

proof fn lemma_slot_holds(runs: Seq<Run>, i: int, r: Run, p: Incoming)
    requires
        0 <= i < runs.len(),
        forall|x: u32, b: u8| #[trigger] run_holds(runs[i], x, b) ==> run_holds(r, x, b),
        forall|x: u32, b: u8| #[trigger]
            run_holds(r, x, b) ==> run_holds(runs[i], x, b) || brings(p, x, b),
    ensures
        forall|x: u32, b: u8| #[trigger] holds(runs, x, b) ==> holds(runs.update(i, r), x, b),
        forall|x: u32, b: u8| #[trigger]
            holds(runs.update(i, r), x, b) ==> holds(runs, x, b) || brings(p, x, b),
{
    let out = runs.update(i, r);
    assert forall|x: u32, b: u8| #[trigger] holds(runs, x, b) implies holds(out, x, b) by {
        let k = choose|k: int| 0 <= k < runs.len() && run_holds(#[trigger] runs[k], x, b);
        if k == i {
            assert(run_holds(out[i], x, b));
        } else {
            assert(run_holds(out[k], x, b));
        }
    }
    assert forall|x: u32, b: u8| #[trigger] holds(out, x, b) implies holds(runs, x, b) || brings(
        p,
        x,
        b,
    ) by {
        let k = choose|k: int| 0 <= k < out.len() && run_holds(#[trigger] out[k], x, b);
        if k == i {
            if run_holds(runs[i], x, b) {
            } else {
                assert(brings(p, x, b));
            }
        } else {
            assert(run_holds(runs[k], x, b));
        }
    }
}

proof fn lemma_extended_holds(r: Run, p: Incoming, tag: u32)
    requires
        r.data.len() <= SLOT_CAP,
        p.data.len() <= 0x7FFF_FFFF,
        abuts(r, p),
    ensures
        forall|x: u32, b: u8| #[trigger]
            run_holds(r, x, b) ==> run_holds(extended(r, p, tag), x, b),
        forall|x: u32, b: u8| #[trigger]
            run_holds(extended(r, p, tag), x, b) ==> run_holds(r, x, b) || brings(p, x, b),
        extended(r, p, tag).data.len() == r.data.len() + min(
            p.data.len() as int,
            SLOT_CAP - r.data.len(),
        ),
{
}

/// Storing keeps every byte that was held, adds only bytes of the incoming range,
/// and reports how many it added.
pub proof fn lemma_stored_holds(v: ReasmView, p: Incoming)
    requires
        reasm_ok(v),
        p.data.len() <= 0x7FFF_FFFF,
    ensures
        ({
            let (w, n) = stored(v, p);
            &&& reasm_ok(w)
            &&& 0 <= n <= p.data.len()
            &&& held(w.runs) == held(v.runs) + n
            &&& forall|x: u32, b: u8| #[trigger] holds(v.runs, x, b) ==> holds(w.runs, x, b)
            &&& forall|x: u32, b: u8| #[trigger]
                holds(w.runs, x, b) ==> holds(v.runs, x, b) || brings(p, x, b)
        }),
{
    let i = first_abutting(v.runs, p, 0);
    let k = first_free(v.runs, 0);
    lemma_first_abutting(v.runs, p, 0);
    lemma_first_free(v.runs, 0);
    if p.data.len() == 0 {
    } else if i < v.runs.len() {
        let n = min(p.data.len() as int, SLOT_CAP - v.runs[i].data.len());
        if n > 0 {
            let r = extended(v.runs[i], p, v.next_tag);
            let mid = v.runs.update(i, r);
            lemma_extended_holds(v.runs[i], p, v.next_tag);
            lemma_slot_holds(v.runs, i, r, p);
            lemma_held_update(v.runs, i, r);
            lemma_joined_holds(mid, i);
            let (w, m) = stored(v, p);
            assert forall|x: u32, b: u8| #[trigger] holds(v.runs, x, b) implies holds(
                w.runs,
                x,
                b,
            ) by {
                assert(holds(mid, x, b));
            }
            assert forall|x: u32, b: u8| #[trigger] holds(w.runs, x, b) implies holds(v.runs, x, b)
                || brings(p, x, b) by {
                assert(holds(mid, x, b));
            }
        }
    } else if k < v.runs.len() {
        let n = min(p.data.len() as int, SLOT_CAP as int);
        let r = Run { start: p.seq, data: p.data.take(n), tag: v.next_tag };
        let mid = v.runs.update(k, r);
        lemma_slot_holds(v.runs, k, r, p);
        lemma_held_update(v.runs, k, r);
        lemma_joined_holds(mid, k);
        let (w, m) = stored(v, p);
        assert forall|x: u32, b: u8| #[trigger] holds(v.runs, x, b) implies holds(w.runs, x, b) by {
            assert(holds(mid, x, b));
        }
        assert forall|x: u32, b: u8| #[trigger] holds(w.runs, x, b) implies holds(v.runs, x, b)
            || brings(p, x, b) by {
            assert(holds(mid, x, b));
        }
    }
}

/// `q` brings no byte that `p` does not bring.
pub open spec fn part_of(q: Incoming, p: Incoming) -> bool {
    &&& q.data.len() <= p.data.len()
    &&& forall|x: u32, b: u8| #[trigger] brings(q, x, b) ==> brings(p, x, b)
}

proof fn lemma_advance_part(p: Incoming, n: int)
    requires
        0 <= n,
        p.data.len() <= 0x7FFF_FFFF,
    ensures
        part_of(advance(p, n), p),
{
    let q = advance(p, n);
    assert forall|x: u32, b: u8| #[trigger] brings(q, x, b) implies brings(p, x, b) by {
        assert(x.wrapping_sub(p.seq) == x.wrapping_sub(q.seq) + n);
    }
}

proof fn lemma_skip_part(runs: Seq<Run>, p: Incoming, turns: nat)
    requires
        p.data.len() <= 0x7FFF_FFFF,
    ensures
        part_of(skip_held(runs, p, turns), p),
    decreases turns,
{
    let i = first_having(runs, p.seq, 0);
    if !(turns == 0 || p.data.len() == 0 || i >= runs.len()) {
        let n = run_end(runs[i]).wrapping_sub(p.seq) as int;
        lemma_advance_part(p, n);
        lemma_skip_part(runs, advance(p, n), (turns - 1) as nat);
    }
}

/// The new part of a segment is part of it.
pub proof fn lemma_new_part(runs: Seq<Run>, p: Incoming, rcv_nxt: u32)
    requires
        p.data.len() <= 0x7FFF_FFFF,
    ensures
        part_of(new_part(runs, p, rcv_nxt), p),
{
    let t = trim_old(p, rcv_nxt);
    if seq_diff(rcv_nxt, p.seq) > 0 {
        lemma_advance_part(p, seq_diff(rcv_nxt, p.seq));
    }
    assert(part_of(t, p));
    lemma_skip_part(runs, t, MAX_HOLES as nat + 1);
    let q = skip_held(runs, t, MAX_HOLES as nat + 1);
    let c = new_part(runs, p, rcv_nxt);
    assert forall|x: u32, b: u8| #[trigger] brings(c, x, b) implies brings(p, x, b) by {
        assert(brings(q, x, b));
        assert(brings(t, x, b));
    }
}

/// Inserting a segment keeps every byte that was held, adds only bytes of the
/// segment, each at its own sequence number, and reports how many bytes it added.
pub proof fn law_insert_keeps_and_adds(v: ReasmView, seq: u32, data: Seq<u8>, rcv_nxt: u32)
    requires
        reasm_ok(v),
        data.len() <= 0x7FFF_FFFF,
    ensures
        ({
            let (w, n) = inserted(v, seq, data, rcv_nxt);
            &&& reasm_ok(w)
            &&& 0 <= n <= data.len()
            &&& held(w.runs) == held(v.runs) + n
            &&& forall|x: u32, b: u8| #[trigger] holds(v.runs, x, b) ==> holds(w.runs, x, b)
            &&& forall|x: u32, b: u8| #[trigger]
                holds(w.runs, x, b) ==> holds(v.runs, x, b) || brings(Incoming { seq, data }, x, b)
        }),
{
    let p = Incoming { seq, data };
    let q = new_part(v.runs, p, rcv_nxt);
    lemma_new_part(v.runs, p, rcv_nxt);
    lemma_stored_holds(v, q);
    let (w, n) = inserted(v, seq, data, rcv_nxt);
    assert forall|x: u32, b: u8| #[trigger] holds(w.runs, x, b) implies holds(v.runs, x, b)
        || brings(p, x, b) by {
        if !holds(v.runs, x, b) {
            assert(brings(q, x, b));
        }
    }
}

/// Draining keeps the slots within bounds and drops exactly the bytes handed on.
pub proof fn law_drain_drops_the_front(v: ReasmView, i: int, n: int)
    requires
        reasm_ok(v),
        0 <= i < MAX_HOLES,
        0 <= n <= v.runs[i].data.len(),
    ensures
        reasm_ok(drained(v, i, n)),
        held(drained(v, i, n).runs) == held(v.runs) - n,
        forall|k: int| 0 <= k < MAX_HOLES && k != i ==> drained(v, i, n).runs[k] == v.runs[k],
        drained(v, i, n).runs[i].data == v.runs[i].data.skip(n),
{
    let r = drained(v, i, n).runs[i];
    if used(v.runs[i]) && n > 0 {
        lemma_held_update(v.runs, i, without_front(v.runs[i], n));
    }
    assert(r.data =~= v.runs[i].data.skip(n));
    assert forall|k: int| 0 <= k < MAX_HOLES implies (#[trigger] drained(v, i, n).runs[k]).data.len()
        <= SLOT_CAP by {
        assert(v.runs[k].data.len() <= SLOT_CAP);
    }
}

/// The run is free or lies in the window of less than half the sequence space
/// that starts at `base`.
pub open spec fn run_ahead(r: Run, base: u32) -> bool {
    used(r) ==> above(r.start, base) + r.data.len() < 0x8000_0000
}

/// Every held run lies in the window that starts at `base`.
pub open spec fn all_ahead(runs: Seq<Run>, base: u32) -> bool {
    forall|i: int| 0 <= i < runs.len() ==> run_ahead(#[trigger] runs[i], base)
}

/// One of the two runs is free, or one ends before the other starts.
pub open spec fn separate(a: Run, b: Run, base: u32) -> bool {
    used(a) && used(b) ==> above(a.start, base) + a.data.len() <= above(b.start, base) || above(
        b.start,
        base,
    ) + b.data.len() <= above(a.start, base)
}

/// No two runs share a sequence number.
pub open spec fn all_separate(runs: Seq<Run>, base: u32) -> bool {
    forall|i: int, j: int|
        0 <= i < j < runs.len() ==> separate(#[trigger] runs[i], #[trigger] runs[j], base)
}

/// Inside the window the serial order sees an overlap exactly where there is one.
pub proof fn lemma_overlap_free(runs: Seq<Run>, base: u32)
    requires
        runs_ok(runs),
        all_ahead(runs, base),
    ensures
        overlap_free(runs) == all_separate(runs, base),
{
    assert forall|i: int, j: int|
        0 <= i < j < runs.len() && used(#[trigger] runs[i]) && used(
            #[trigger] runs[j],
        ) implies runs_overlap(runs[i], runs[j]) == !separate(runs[i], runs[j], base) by {
        assert(run_ahead(runs[i], base) && run_ahead(runs[j], base));
    }
    if all_separate(runs, base) {
        assert forall|i: int, j: int|
            0 <= i < j < runs.len() && used(#[trigger] runs[i]) && used(
                #[trigger] runs[j],
            ) implies !runs_overlap(runs[i], runs[j]) by {
            assert(separate(runs[i], runs[j], base));
        }
    }
}

/// The incoming range lies in the window and shares nothing with the run.
pub open spec fn clear_of(p: Incoming, r: Run, base: u32) -> bool {
    used(r) ==> above(p.seq, base) + p.data.len() <= above(r.start, base) || above(r.start, base)
        + r.data.len() <= above(p.seq, base)
}

pub open spec fn clear_of_all(p: Incoming, runs: Seq<Run>, base: u32) -> bool {
    &&& above(p.seq, base) + p.data.len() < 0x8000_0000
    &&& forall|i: int| 0 <= i < runs.len() ==> clear_of(p, #[trigger] runs[i], base)
}

proof fn lemma_join_separate(runs: Seq<Run>, i: int, j: int, base: u32)
    requires
        runs_ok(runs),
        all_ahead(runs, base),
        all_separate(runs, base),
        0 <= i < runs.len(),
        0 <= j < runs.len(),
        i != j,
        used(runs[i]),
        used(runs[j]),
        runs[i].data.len() < SLOT_CAP,
        run_end(runs[i]) == runs[j].start || run_end(runs[j]) == runs[i].start,
    ensures
        all_ahead(join_neighbour(runs, i, j), base),
        all_separate(join_neighbour(runs, i, j), base),
        used(join_neighbour(runs, i, j)[i]),
{
    let out = join_neighbour(runs, i, j);
    let a = runs[i];
    let c = runs[j];
    let n = min(c.data.len() as int, SLOT_CAP - a.data.len());
    assert(run_ahead(a, base) && run_ahead(c, base));
    assert(run_ahead(out[i], base) && run_ahead(out[j], base));
    assert forall|k: int| 0 <= k < out.len() implies run_ahead(#[trigger] out[k], base) by {
        if k != i && k != j {
            assert(run_ahead(runs[k], base));
        }
    }
    assert(separate(out[i], out[j], base) && separate(out[j], out[i], base));
    assert forall|k: int| 0 <= k < runs.len() && k != i && k != j implies separate(
        out[i],
        #[trigger] runs[k],
        base,
    ) && separate(out[j], runs[k], base) by {
        assert(run_ahead(runs[k], base));
        if i < k {
            assert(separate(runs[i], runs[k], base));
        } else {
            assert(separate(runs[k], runs[i], base));
        }
        if j < k {
            assert(separate(runs[j], runs[k], base));
        } else {
            assert(separate(runs[k], runs[j], base));
        }
    }
    assert forall|p: int, q: int| 0 <= p < q < out.len() implies separate(
        #[trigger] out[p],
        #[trigger] out[q],
        base,
    ) by {
        if p != i && p != j && q != i && q != j {
            assert(separate(runs[p], runs[q], base));
        } else if p != i && p != j {
            assert(out[p] == runs[p]);
        } else if q != i && q != j {
            assert(out[q] == runs[q]);
        }
    }
}

proof fn lemma_joined_separate(runs: Seq<Run>, i: int, base: u32)
    requires
        runs_ok(runs),
        all_ahead(runs, base),
        all_separate(runs, base),
        0 <= i < runs.len(),
        used(runs[i]),
    ensures
        all_ahead(joined(runs, i), base),
        all_separate(joined(runs, i), base),
    decreases SLOT_CAP - runs[i].data.len(),
{
    let j = first_neighbour(runs, i, 0);
    lemma_first_neighbour(runs, i, 0);
    if j < runs.len() && runs[i].data.len() < SLOT_CAP {
        lemma_join_holds(runs, i, j);
        lemma_join_separate(runs, i, j, base);
        lemma_joined_separate(join_neighbour(runs, i, j), i, base);
    }
}

proof fn lemma_stored_separate(v: ReasmView, p: Incoming, base: u32)
    requires
        reasm_ok(v),
        all_ahead(v.runs, base),
        all_separate(v.runs, base),
        clear_of_all(p, v.runs, base),
    ensures
        all_ahead(stored(v, p).0.runs, base),
        all_separate(stored(v, p).0.runs, base),
{
    let i = first_abutting(v.runs, p, 0);
    let k = first_free(v.runs, 0);
    lemma_first_abutting(v.runs, p, 0);
    lemma_first_free(v.runs, 0);
    if p.data.len() > 0 && i < v.runs.len() && v.runs[i].data.len() < SLOT_CAP {
        let r = extended(v.runs[i], p, v.next_tag);
        let mid = v.runs.update(i, r);
        assert(run_ahead(v.runs[i], base) && clear_of(p, v.runs[i], base));
        lemma_extended_holds(v.runs[i], p, v.next_tag);
        assert(run_ahead(r, base));
        assert forall|m: int| 0 <= m < v.runs.len() && m != i implies separate(
            r,
            #[trigger] v.runs[m],
            base,
        ) && separate(v.runs[m], r, base) by {
            assert(run_ahead(v.runs[m], base) && clear_of(p, v.runs[m], base));
            if i < m {
                assert(separate(v.runs[i], v.runs[m], base));
            } else {
                assert(separate(v.runs[m], v.runs[i], base));
            }
        }
        assert(all_ahead(mid, base));
        assert(all_separate(mid, base));
        lemma_joined_separate(mid, i, base);
    } else if p.data.len() > 0 && i >= v.runs.len() && k < v.runs.len() {
        let n = min(p.data.len() as int, SLOT_CAP as int);
        let r = Run { start: p.seq, data: p.data.take(n), tag: v.next_tag };
        let mid = v.runs.update(k, r);
        assert forall|m: int| 0 <= m < v.runs.len() && m != k implies separate(
            r,
            #[trigger] v.runs[m],
            base,
        ) && separate(v.runs[m], r, base) by {
            assert(clear_of(p, v.runs[m], base));
        }
        assert(all_ahead(mid, base));
        assert(all_separate(mid, base));
        lemma_joined_separate(mid, k, base);
    }
}

/// How many of the first `n` runs end after `seq`.
spec fn ending_after(runs: Seq<Run>, seq: u32, base: u32, n: int) -> nat
    decreases n,
{
    if n <= 0 {
        0
    } else {
        let r = runs[n - 1];
        ending_after(runs, seq, base, n - 1) + if used(r) && above(r.start, base) + r.data.len()
            > above(seq, base) {
            1nat
        } else {
            0nat
        }
    }
}

proof fn lemma_ending_after_falls(runs: Seq<Run>, x: u32, y: u32, base: u32, n: int, i: int)
    requires
        above(x, base) <= above(y, base),
        0 <= n <= runs.len(),
        0 <= i < runs.len(),
        used(runs[i]),
        above(runs[i].start, base) + runs[i].data.len() > above(x, base),
        above(runs[i].start, base) + runs[i].data.len() <= above(y, base),
    ensures
        ending_after(runs, y, base, n) <= ending_after(runs, x, base, n) <= n,
        i < n ==> ending_after(runs, y, base, n) < ending_after(runs, x, base, n),
    decreases n,
{
    if n > 0 {
        lemma_ending_after_falls(runs, x, y, base, n - 1, i);
    }
}

proof fn lemma_first_having(runs: Seq<Run>, seq: u32, from: int)
    requires
        0 <= from <= runs.len(),
    ensures
        ({
            let i = first_having(runs, seq, from);
            &&& from <= i <= runs.len()
            &&& i < runs.len() ==> run_has(runs[i], seq)
            &&& forall|k: int| from <= k < i ==> !run_has(#[trigger] runs[k], seq)
        }),
    decreases runs.len() - from,
{
    if from < runs.len() && !run_has(runs[from], seq) {
        lemma_first_having(runs, seq, from + 1);
    }
}

proof fn lemma_ending_after_bound(runs: Seq<Run>, x: u32, base: u32, n: int)
    requires
        0 <= n,
    ensures
        ending_after(runs, x, base, n) <= n,
    decreases n,
{
    if n > 0 {
        lemma_ending_after_bound(runs, x, base, n - 1);
    }
}

/// With a turn to spare for each run ahead, skipping ends clear of every run.
proof fn lemma_skip_ends_clear(runs: Seq<Run>, p: Incoming, turns: nat, base: u32)
    requires
        runs_ok(runs),
        all_ahead(runs, base),
        above(p.seq, base) + p.data.len() < 0x8000_0000,
        turns > ending_after(runs, p.seq, base, runs.len() as int),
    ensures
        ({
            let q = skip_held(runs, p, turns);
            &&& above(q.seq, base) + q.data.len() < 0x8000_0000
            &&& q.data.len() > 0 ==> first_having(runs, q.seq, 0) == runs.len()
        }),
    decreases turns,
{
    let i = first_having(runs, p.seq, 0);
    lemma_first_having(runs, p.seq, 0);
    if p.data.len() > 0 && i < runs.len() {
        assert(run_ahead(runs[i], base));
        let n = run_end(runs[i]).wrapping_sub(p.seq) as int;
        let q = advance(p, n);
        assert(n > 0);
        assert(above(runs[i].start, base) + runs[i].data.len() == above(p.seq, base) + n);
        if n < p.data.len() {
            assert(above(q.seq, base) == above(p.seq, base) + n);
            lemma_ending_after_falls(runs, p.seq, q.seq, base, runs.len() as int, i);
            lemma_skip_ends_clear(runs, q, (turns - 1) as nat, base);
        } else {
            assert(skip_held(runs, q, (turns - 1) as nat) == q);
        }
    }
}

proof fn lemma_clear_until(runs: Seq<Run>, seq: u32, end: u32, n: int, base: u32)
    requires
        runs_ok(runs),
        all_ahead(runs, base),
        above(seq, base) < above(end, base) < 0x8000_0000,
        0 <= n <= runs.len(),
    ensures
        ({
            let e = clear_until(runs, seq, end, n);
            &&& above(seq, base) < above(e, base) <= above(end, base)
            &&& forall|k: int|
                0 <= k < n && used(#[trigger] runs[k]) ==> above(runs[k].start, base) <= above(
                    seq,
                    base,
                ) || above(e, base) <= above(runs[k].start, base)
        }),
    decreases n,
{
    if n > 0 {
        lemma_clear_until(runs, seq, end, n - 1, base);
        assert(run_ahead(runs[n - 1], base));
    }
}

/// The new part of a segment in the window shares nothing with a held run.
proof fn lemma_new_part_is_clear(runs: Seq<Run>, p: Incoming, rcv_nxt: u32, base: u32)
    requires
        runs.len() == MAX_HOLES,
        runs_ok(runs),
        all_ahead(runs, base),
        ({
            let t = trim_old(p, rcv_nxt);
            above(t.seq, base) + t.data.len() < 0x8000_0000
        }),
    ensures
        new_part(runs, p, rcv_nxt).data.len() > 0 ==> clear_of_all(
            new_part(runs, p, rcv_nxt),
            runs,
            base,
        ),
{
    let t = trim_old(p, rcv_nxt);
    lemma_ending_after_bound(runs, t.seq, base, runs.len() as int);
    lemma_skip_ends_clear(runs, t, MAX_HOLES as nat + 1, base);
    let q = skip_held(runs, t, MAX_HOLES as nat + 1);
    if q.data.len() > 0 {
        let end = q.seq.wrapping_add(q.data.len() as u32);
        lemma_first_having(runs, q.seq, 0);
        assert(above(end, base) == above(q.seq, base) + q.data.len());
        lemma_clear_until(runs, q.seq, end, runs.len() as int, base);
        let c = cut_before_held(runs, q);
        let e = clear_until(runs, q.seq, end, runs.len() as int);
        assert(above(c.seq, base) + c.data.len() <= above(e, base));
        assert forall|i: int| 0 <= i < runs.len() implies clear_of(c, #[trigger] runs[i], base) by {
            assert(run_ahead(runs[i], base));
            assert(!run_has(runs[i], q.seq));
        }
    }
}

/// Runs never overlap: a segment that lies in the window ahead of `rcv_nxt`
/// leaves every run in that window and no two of them sharing a byte.
pub proof fn law_insert_keeps_runs_disjoint(v: ReasmView, seq: u32, data: Seq<u8>, rcv_nxt: u32)
    requires
        reasm_ok(v),
        all_ahead(v.runs, rcv_nxt),
        overlap_free(v.runs),
        data.len() <= 0x7FFF_FFFF,
        ({
            let t = trim_old(Incoming { seq, data }, rcv_nxt);
            above(t.seq, rcv_nxt) + t.data.len() < 0x8000_0000
        }),
    ensures
        all_ahead(inserted(v, seq, data, rcv_nxt).0.runs, rcv_nxt),
        overlap_free(inserted(v, seq, data, rcv_nxt).0.runs),
{
    lemma_insert_separate(v, seq, data, rcv_nxt, rcv_nxt);
}

/// A segment in the window that starts at `base` leaves every run in it and no two of
/// them sharing a byte.
proof fn lemma_insert_separate(v: ReasmView, seq: u32, data: Seq<u8>, rcv_nxt: u32, base: u32)
    requires
        reasm_ok(v),
        all_ahead(v.runs, base),
        overlap_free(v.runs),
        data.len() <= 0x7FFF_FFFF,
        ({
            let t = trim_old(Incoming { seq, data }, rcv_nxt);
            above(t.seq, base) + t.data.len() < 0x8000_0000
        }),
    ensures
        all_ahead(inserted(v, seq, data, rcv_nxt).0.runs, base),
        overlap_free(inserted(v, seq, data, rcv_nxt).0.runs),
{
    let p = Incoming { seq, data };
    let q = new_part(v.runs, p, rcv_nxt);
    lemma_overlap_free(v.runs, base);
    lemma_new_part(v.runs, p, rcv_nxt);
    lemma_new_part_is_clear(v.runs, p, rcv_nxt, base);
    if q.data.len() > 0 {
        lemma_stored_separate(v, q, base);
        lemma_stored_holds(v, q);
        lemma_overlap_free(stored(v, q).0.runs, base);
    }
}

/// Dropping the front of a run leaves every run in the window and no two of them
/// sharing a byte.
proof fn lemma_drain_separate(v: ReasmView, i: int, n: int, base: u32)
    requires
        reasm_ok(v),
        all_ahead(v.runs, base),
        overlap_free(v.runs),
        0 <= n,
    ensures
        reasm_ok(drained(v, i, n)),
        all_ahead(drained(v, i, n).runs, base),
        overlap_free(drained(v, i, n).runs),
{
    let out = drained(v, i, n).runs;
    lemma_overlap_free(v.runs, base);
    assert forall|k: int| 0 <= k < out.len() implies run_ahead(#[trigger] out[k], base)
        && out[k].data.len() <= SLOT_CAP by {
        assert(run_ahead(v.runs[k], base));
        assert(v.runs[k].data.len() <= SLOT_CAP);
    }
    assert forall|p: int, q: int| 0 <= p < q < out.len() implies separate(
        #[trigger] out[p],
        #[trigger] out[q],
        base,
    ) by {
        assert(run_ahead(v.runs[p], base) && run_ahead(v.runs[q], base));
        assert(separate(v.runs[p], v.runs[q], base));
    }
    lemma_overlap_free(out, base);
}

/// Something done with a receive buffer.
pub enum ReasmStep {
    /// A segment is inserted while `rcv_nxt` is the next byte expected.
    Insert { seq: u32, data: Seq<u8>, rcv_nxt: u32 },
    /// The first `n` bytes of a slot have been handed on.
    Drain { slot: usize, n: usize },
    Clear,
}

/// The buffer after one step.
pub open spec fn stepped(v: ReasmView, step: ReasmStep) -> ReasmView {
    match step {
        ReasmStep::Insert { seq, data, rcv_nxt } => inserted(v, seq, data, rcv_nxt).0,
        ReasmStep::Drain { slot, n } => drained(v, slot as int, n as int),
        ReasmStep::Clear => nothing_held(),
    }
}

/// A new buffer after `steps`, one after the other.
pub open spec fn after_steps(steps: Seq<ReasmStep>) -> ReasmView
    decreases steps.len(),
{
    if steps.len() == 0 {
        nothing_held()
    } else {
        stepped(after_steps(steps.drop_last()), steps.last())
    }
}

/// What is inserted lies in the window of less than half the sequence space that
/// starts at `base`, and so does the next byte expected.
pub open spec fn step_in_window(step: ReasmStep, base: u32) -> bool {
    match step {
        ReasmStep::Insert { seq, data, rcv_nxt } => above(seq, base) + data.len() < 0x8000_0000
            && above(rcv_nxt, base) < 0x8000_0000,
        _ => true,
    }
}

/// Runs stay apart: whatever is done with a buffer inside one window, in whatever
/// order, no two runs ever overlap.
pub proof fn law_runs_stay_apart(steps: Seq<ReasmStep>, base: u32)
    requires
        forall|i: int| 0 <= i < steps.len() ==> step_in_window(#[trigger] steps[i], base),
    ensures
        reasm_ok(after_steps(steps)),
        all_ahead(after_steps(steps).runs, base),
        overlap_free(after_steps(steps).runs),
    decreases steps.len(),
{
    if steps.len() > 0 {
        let front = steps.drop_last();
        assert forall|i: int| 0 <= i < front.len() implies step_in_window(
            #[trigger] front[i],
            base,
        ) by {
            assert(step_in_window(steps[i], base));
        }
        law_runs_stay_apart(front, base);
        let v = after_steps(front);
        assert(step_in_window(steps[steps.len() - 1], base));
        match steps.last() {
            ReasmStep::Insert { seq, data, rcv_nxt } => {
                lemma_insert_separate(v, seq, data, rcv_nxt, base);
                law_insert_keeps_and_adds(v, seq, data, rcv_nxt);
            },
            ReasmStep::Drain { slot, n } => {
                lemma_drain_separate(v, slot as int, n as int, base);
            },
            ReasmStep::Clear => {},
        }
    }
}

/// A segment that one held run covers brings nothing new and changes nothing.
pub proof fn law_covered_segment_is_dropped(
    v: ReasmView,
    seq: u32,
    data: Seq<u8>,
    rcv_nxt: u32,
    i: int,
)
    requires
        reasm_ok(v),
        all_ahead(v.runs, rcv_nxt),
        overlap_free(v.runs),
        0 <= i < MAX_HOLES,
        used(v.runs[i]),
        data.len() > 0,
        above(v.runs[i].start, rcv_nxt) <= above(seq, rcv_nxt),
        above(seq, rcv_nxt) + data.len() <= above(v.runs[i].start, rcv_nxt)
            + v.runs[i].data.len(),
    ensures
        inserted(v, seq, data, rcv_nxt) == (v, 0int),
{
    let base = rcv_nxt;
    let p = Incoming { seq, data };
    assert(run_ahead(v.runs[i], base));
    assert(trim_old(p, rcv_nxt) == p);
    lemma_first_having(v.runs, seq, 0);
    assert(run_has(v.runs[i], seq));
    let k = first_having(v.runs, seq, 0);
    assert(k <= i);
    assert(run_ahead(v.runs[k], base));
    lemma_overlap_free(v.runs, base);
    if k != i {
        if k < i {
            assert(separate(v.runs[k], v.runs[i], base));
        }
    }
    let n = run_end(v.runs[k]).wrapping_sub(seq) as int;
    assert(n >= data.len());
    let q = advance(p, n);
    assert(skip_held(v.runs, q, MAX_HOLES as nat) == q);
    assert(skip_held(v.runs, p, MAX_HOLES as nat + 1) == q);
}

/// Draining the run at the front of the window keeps the runs disjoint and ahead
/// of the new front.
pub proof fn law_drain_keeps_runs_disjoint(v: ReasmView, i: int, n: u32)
    requires
        reasm_ok(v),
        0 <= i < MAX_HOLES,
        used(v.runs[i]),
        n <= v.runs[i].data.len(),
        all_ahead(v.runs, v.runs[i].start),
        overlap_free(v.runs),
    ensures
        all_ahead(drained(v, i, n as int).runs, v.runs[i].start.wrapping_add(n)),
        overlap_free(drained(v, i, n as int).runs),
{
    let base = v.runs[i].start;
    let next = base.wrapping_add(n);
    let out = drained(v, i, n as int).runs;
    lemma_overlap_free(v.runs, base);
    law_drain_drops_the_front(v, i, n as int);
    assert forall|k: int| 0 <= k < out.len() implies run_ahead(#[trigger] out[k], next) by {
        assert(run_ahead(v.runs[k], base) && run_ahead(v.runs[i], base));
        if k < i {
            assert(separate(v.runs[k], v.runs[i], base));
        } else if k > i {
            assert(separate(v.runs[i], v.runs[k], base));
        }
    }
    assert forall|p: int, q: int| 0 <= p < q < out.len() implies separate(
        #[trigger] out[p],
        #[trigger] out[q],
        next,
    ) by {
        assert(run_ahead(v.runs[p], base) && run_ahead(v.runs[q], base));
        assert(separate(v.runs[p], v.runs[q], base));
        assert(run_ahead(out[p], next) && run_ahead(out[q], next));
        if p != i && q != i {
            if p < i {
                assert(separate(v.runs[p], v.runs[i], base));
            } else {
                assert(separate(v.runs[i], v.runs[p], base));
            }
            if q < i {
                assert(separate(v.runs[q], v.runs[i], base));
            } else {
                assert(separate(v.runs[i], v.runs[q], base));
            }
        }
    }
    lemma_overlap_free(out, next);
}

} // verus!
