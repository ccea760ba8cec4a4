//! What the receive buffer takes, and what it reports to the peer.

use crate::reassembly::{
    by_recency, clear_until, first_abutting, first_free, first_having, first_neighbour,
    insert_by_tag, inserted, new_part, reasm_ok, run_end, sack_report, skip_held, trim_old, used,
    Incoming, ReasmView, Run, MAX_HOLES, SLOT_CAP,
};
use crate::reassembly::laws::{all_ahead, brings, holds, run_ahead, run_holds};
use crate::scoreboard::laws::above;
use vstd::prelude::*;

verus! {

/// `p` is ahead of `base`, and neither overlaps nor touches a run that is held.
pub open spec fn free_standing(runs: Seq<Run>, p: Incoming, base: u32) -> bool {
    &&& above(p.seq, base) + p.data.len() < 0x8000_0000
    &&& forall|i: int|
        0 <= i < runs.len() && used(#[trigger] runs[i]) ==> above(p.seq, base) + p.data.len()
            < above(runs[i].start, base) || above(runs[i].start, base) + runs[i].data.len() < above(
            p.seq,
            base,
        )
}

proof fn lemma_nothing_near(runs: Seq<Run>, p: Incoming, base: u32, from: int)
    requires
        all_ahead(runs, base),
        free_standing(runs, p, base),
        p.data.len() > 0,
        0 <= from <= runs.len(),
    ensures
        first_having(runs, p.seq, from) == runs.len(),
        first_abutting(runs, p, from) == runs.len(),
    decreases runs.len() - from,
{
    if from < runs.len() {
        assert(run_ahead(runs[from], base));
        lemma_nothing_near(runs, p, base, from + 1);
    }
}

proof fn lemma_nothing_ahead(runs: Seq<Run>, p: Incoming, base: u32, n: int)
    requires
        all_ahead(runs, base),
        free_standing(runs, p, base),
        p.data.len() > 0,
        0 <= n <= runs.len(),
    ensures
        clear_until(runs, p.seq, p.seq.wrapping_add(p.data.len() as u32), n) == p.seq.wrapping_add(
            p.data.len() as u32,
        ),
    decreases n,
{
    if n > 0 {
        assert(run_ahead(runs[n - 1], base));
        lemma_nothing_ahead(runs, p, base, n - 1);
    }
}

proof fn lemma_first_free(runs: Seq<Run>, from: int, k: int)
    requires
        0 <= from <= k < runs.len(),
        !used(runs[k]),
    ensures
        from <= first_free(runs, from) < runs.len(),
        !used(runs[first_free(runs, from)]),
    decreases runs.len() - from,
{
    if used(runs[from]) {
        lemma_first_free(runs, from + 1, k);
    }
}

proof fn lemma_no_neighbour(runs: Seq<Run>, i: int, base: u32, from: int)
    requires
        all_ahead(runs, base),
        0 <= i < runs.len(),
        used(runs[i]),
        0 <= from <= runs.len(),
        forall|j: int|
            0 <= j < runs.len() && j != i && used(#[trigger] runs[j]) ==> above(runs[i].start, base)
                + runs[i].data.len() < above(runs[j].start, base) || above(runs[j].start, base)
                + runs[j].data.len() < above(runs[i].start, base),
    ensures
        first_neighbour(runs, i, from) == runs.len(),
    decreases runs.len() - from,
{
    if from < runs.len() {
        assert(run_ahead(runs[from], base) && run_ahead(runs[i], base));
        lemma_no_neighbour(runs, i, base, from + 1);
    }
}

/// A segment ahead of order that stands free of what is held, and finds a free slot, is held
/// whole: each of its bytes at its own sequence number.
pub proof fn law_free_segment_is_held(
    v: ReasmView,
    seq: u32,
    data: Seq<u8>,
    rcv_nxt: u32,
    slot: int,
)
    requires
        reasm_ok(v),
        all_ahead(v.runs, rcv_nxt),
        free_standing(v.runs, Incoming { seq, data }, rcv_nxt),
        0 < data.len() <= SLOT_CAP,
        0 <= slot < MAX_HOLES && !used(v.runs[slot]),
    ensures
        ({
            let (w, n) = inserted(v, seq, data, rcv_nxt);
            &&& n == data.len()
            &&& forall|x: u32, b: u8| #[trigger]
                brings(Incoming { seq, data }, x, b) ==> holds(w.runs, x, b)
            &&& exists|i: int|
                0 <= i < MAX_HOLES && (#[trigger] w.runs[i]).start == seq && w.runs[i].data == data
                    && w.runs[i].tag == v.next_tag
        }),
{
    let p = Incoming { seq, data };
    assert(trim_old(p, rcv_nxt) == p);
    lemma_nothing_near(v.runs, p, rcv_nxt, 0);
    assert(skip_held(v.runs, p, MAX_HOLES as nat + 1) == p);
    lemma_nothing_ahead(v.runs, p, rcv_nxt, v.runs.len() as int);
    assert(p.data.take(p.data.len() as int) =~= p.data);
    assert(new_part(v.runs, p, rcv_nxt) == p);
    lemma_first_free(v.runs, 0, slot);
    let k = first_free(v.runs, 0);
    let r = Run { start: seq, data: data.take(data.len() as int), tag: v.next_tag };
    assert(data.take(data.len() as int) =~= data);
    let runs = v.runs.update(k, r);
    assert forall|i: int| 0 <= i < runs.len() implies run_ahead(#[trigger] runs[i], rcv_nxt) by {
        assert(run_ahead(v.runs[i], rcv_nxt));
    }
    assert forall|j: int| 0 <= j < runs.len() && j != k && used(#[trigger] runs[j]) implies above(
        runs[k].start,
        rcv_nxt,
    ) + runs[k].data.len() < above(runs[j].start, rcv_nxt) || above(runs[j].start, rcv_nxt)
        + runs[j].data.len() < above(runs[k].start, rcv_nxt) by {
        assert(runs[j] == v.runs[j]);
    }
    lemma_no_neighbour(runs, k, rcv_nxt, 0);
    let w = inserted(v, seq, data, rcv_nxt).0;
    assert(w.runs == runs && w.runs[k] == r);
    assert forall|x: u32, b: u8| #[trigger] brings(p, x, b) implies holds(w.runs, x, b) by {
        assert(run_holds(w.runs[k], x, b));
    }
}

/// `rs` holds the used runs of `runs`, by falling tag.
spec fn sorts(runs: Seq<Run>, rs: Seq<Run>) -> bool {
    &&& forall|k: int| 0 <= k < rs.len() ==> used(#[trigger] rs[k]) && runs.contains(rs[k])
    &&& forall|i: int| 0 <= i < runs.len() && used(#[trigger] runs[i]) ==> rs.contains(runs[i])
    &&& forall|a: int, b: int| 0 <= a < b < rs.len() ==> (#[trigger] rs[a]).tag >= (
    #[trigger] rs[b]).tag
}

proof fn lemma_insert_by_tag(rs: Seq<Run>, r: Run)
    requires
        forall|a: int, b: int| 0 <= a < b < rs.len() ==> (#[trigger] rs[a]).tag >= (
        #[trigger] rs[b]).tag,
    ensures
        ({
            let t = insert_by_tag(rs, r);
            &&& t.len() == rs.len() + 1
            &&& t.contains(r)
            &&& forall|k: int| 0 <= k < rs.len() ==> t.contains(#[trigger] rs[k])
            &&& forall|k: int| 0 <= k < t.len() ==> #[trigger] t[k] == r || rs.contains(t[k])
            &&& forall|a: int, b: int| 0 <= a < b < t.len() ==> (#[trigger] t[a]).tag >= (
            #[trigger] t[b]).tag
        }),
    decreases rs.len(),
{
    let t = insert_by_tag(rs, r);
    if rs.len() == 0 || rs.last().tag >= r.tag {
        assert(t[rs.len() as int] == r);
        assert forall|k: int| 0 <= k < rs.len() implies t.contains(#[trigger] rs[k]) by {
            assert(t[k] == rs[k]);
        }
        assert forall|k: int| 0 <= k < t.len() implies #[trigger] t[k] == r || rs.contains(t[k]) by {
            if k < rs.len() {
                assert(t[k] == rs[k]);
            }
        }
        assert forall|a: int, b: int| 0 <= a < b < t.len() implies (#[trigger] t[a]).tag >= (
        #[trigger] t[b]).tag by {
            if b == rs.len() && rs.len() > 0 {
                if a < rs.len() - 1 {
                    assert(rs[a].tag >= rs[rs.len() - 1].tag);
                }
            }
        }
    } else {
        let p = rs.drop_last();
        lemma_insert_by_tag(p, r);
        let u = insert_by_tag(p, r);
        assert(t == u.push(rs.last()));
        let at = choose|j: int| 0 <= j < u.len() && u[j] == r;
        assert(t[at] == r);
        assert forall|k: int| 0 <= k < rs.len() implies t.contains(#[trigger] rs[k]) by {
            if k < p.len() {
                assert(p[k] == rs[k] && u.contains(p[k]));
                let j = choose|j: int| 0 <= j < u.len() && u[j] == p[k];
                assert(t[j] == rs[k]);
            } else {
                assert(t[u.len() as int] == rs[k]);
            }
        }
        assert forall|k: int| 0 <= k < t.len() implies #[trigger] t[k] == r || rs.contains(t[k]) by {
            if k < u.len() {
                assert(u[k] == r || p.contains(u[k]));
                if u[k] != r {
                    let j = choose|j: int| 0 <= j < p.len() && p[j] == u[k];
                    assert(rs[j] == t[k]);
                }
            } else {
                assert(rs[rs.len() - 1] == t[k]);
            }
        }
        assert forall|a: int, b: int| 0 <= a < b < t.len() implies (#[trigger] t[a]).tag >= (
        #[trigger] t[b]).tag by {
            if b == u.len() {
                assert(u[a] == r || p.contains(u[a]));
                if u[a] != r {
                    let j = choose|j: int| 0 <= j < p.len() && p[j] == u[a];
                    assert(rs[j].tag >= rs[rs.len() - 1].tag);
                }
            }
        }
    }
}

proof fn lemma_by_recency(runs: Seq<Run>)
    ensures
        sorts(runs, by_recency(runs)),
    decreases runs.len(),
{
    if runs.len() > 0 {
        let p = runs.drop_last();
        lemma_by_recency(p);
        let rs = by_recency(p);
        let t = by_recency(runs);
        let r = runs[runs.len() - 1];
        assert forall|i: int| 0 <= i < p.len() implies p[i] == runs[i] by {}
        if used(r) {
            lemma_insert_by_tag(rs, r);
        }
        assert forall|k: int| 0 <= k < t.len() implies used(#[trigger] t[k]) && runs.contains(
            t[k],
        ) by {
            if used(r) && t[k] == r {
            } else {
                assert(rs.contains(t[k]));
                let j = choose|j: int| 0 <= j < rs.len() && rs[j] == t[k];
                assert(used(rs[j]) && p.contains(rs[j]));
                let i = choose|i: int| 0 <= i < p.len() && p[i] == rs[j];
                assert(runs[i] == t[k]);
            }
        }
        assert forall|i: int| 0 <= i < runs.len() && used(#[trigger] runs[i]) implies t.contains(
            runs[i],
        ) by {
            if i < p.len() {
                assert(used(p[i]));
                assert(rs.contains(p[i]));
                let j = choose|j: int| 0 <= j < rs.len() && rs[j] == p[i];
                if used(r) {
                    assert(t.contains(rs[j]));
                }
            }
        }
    }
}

/// `block` is the range of a run that is held.
pub open spec fn is_held(runs: Seq<Run>, block: (u32, u32)) -> bool {
    exists|i: int|
        0 <= i < runs.len() && used(#[trigger] runs[i]) && block.0 == runs[i].start && block.1
            == runs[i].start.wrapping_add(runs[i].data.len() as u32)
}

/// What is reported to the peer is what is held: each block is a run, from its first byte to
/// behind its last; the run that changed last comes first; and if there is room for more
/// blocks, every run is reported.
pub proof fn law_report_tells_what_is_held(runs: Seq<Run>, room: int)
    requires
        room >= 0,
    ensures
        ({
            let rep = sack_report(runs, room);
            &&& rep.len() <= room
            &&& forall|k: int| 0 <= k < rep.len() ==> is_held(runs, #[trigger] rep[k])
            &&& rep.len() < room ==> forall|i: int|
                0 <= i < runs.len() && used(#[trigger] runs[i]) ==> rep.contains(
                    (runs[i].start, runs[i].start.wrapping_add(runs[i].data.len() as u32)),
                )
            &&& room > 0 && (exists|i: int| 0 <= i < runs.len() && used(#[trigger] runs[i]))
                ==> rep.len() > 0 && exists|i: int|
                0 <= i < runs.len() && used(#[trigger] runs[i]) && rep[0].0 == runs[i].start
                    && newest(runs, i)
        }),
{
    lemma_by_recency(runs);
    let rs = by_recency(runs);
    let rep = sack_report(runs, room);
    assert forall|k: int| 0 <= k < rep.len() implies is_held(runs, #[trigger] rep[k]) by {
        assert(used(rs[k]) && runs.contains(rs[k]));
        let i = choose|i: int| 0 <= i < runs.len() && runs[i] == rs[k];
        assert(used(runs[i]));
    }
    if rep.len() < room {
        assert forall|i: int| 0 <= i < runs.len() && used(#[trigger] runs[i]) implies rep.contains(
            (runs[i].start, runs[i].start.wrapping_add(runs[i].data.len() as u32)),
        ) by {
            assert(rs.contains(runs[i]));
            let k = choose|k: int| 0 <= k < rs.len() && rs[k] == runs[i];
            assert(rep[k] == (runs[i].start, run_end(runs[i])));
        }
    }
    if room > 0 && (exists|i: int| 0 <= i < runs.len() && used(#[trigger] runs[i])) {
        let i = choose|i: int| 0 <= i < runs.len() && used(#[trigger] runs[i]);
        assert(rs.contains(runs[i]));
        assert(used(rs[0]) && runs.contains(rs[0]));
        let j = choose|j: int| 0 <= j < runs.len() && runs[j] == rs[0];
        assert(used(runs[j]) && rep[0].0 == runs[j].start);
        assert forall|n: int| 0 <= n < runs.len() && used(#[trigger] runs[n]) implies runs[n].tag
            <= runs[j].tag by {
            assert(rs.contains(runs[n]));
            let k = choose|k: int| 0 <= k < rs.len() && rs[k] == runs[n];
            if k > 0 {
                assert(rs[0].tag >= rs[k].tag);
            }
        }
    }
}

/// No run that is held changed later than the one at `i`.
pub open spec fn newest(runs: Seq<Run>, i: int) -> bool {
    forall|n: int| 0 <= n < runs.len() && used(#[trigger] runs[n]) ==> runs[n].tag <= runs[i].tag
}

} // verus!
