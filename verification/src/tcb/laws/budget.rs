//! The budgets of the internal loops are never spent: more turns would change
//! nothing.

use crate::num::min;
use crate::reassembly::{first_starting, used, without_front, Run, MAX_HOLES};
use crate::tcb::laws::delivery::{lemma_first_starting, lemma_run_drained, rx_ok};
use crate::tcb::model::{
    ack_sent, arm_persist, arm_rto, arm_rto_if_idle, arm_tlp, bump_max, can_retransmit, charged,
    drain_runs, emit, emit_again, emit_fin, emit_new, fin_placed, lost_taken, lost_target,
    may_transmit, nxt_moved, recovery_left, recovery_target, retransmit, rto_kept, run_drained,
    rxt_noted, send_data, send_fresh, send_lost, send_one, send_recovery, send_some, tx_full,
    TcbView,
};
use crate::tx_ring::TX_RING_CAP;
use vstd::prelude::*;

verus! {

proof fn lemma_retransmit_stages(s: TcbView, seq: u32, bytes: int)
    ensures
        can_retransmit(s, seq, bytes) ==> retransmit(s, seq, bytes).tx.len() == s.tx.len() + 1,
{
    reveal(retransmit);
    reveal(emit_again);
    reveal(emit);
    reveal(charged);
    reveal(rxt_noted);
    reveal(ack_sent);
    reveal(arm_rto_if_idle);
    reveal(arm_rto);
    reveal(arm_tlp);
}

proof fn lemma_fresh_stages(s: TcbView)
    ensures
        send_fresh(s).1 ==> send_fresh(s).0.tx.len() == s.tx.len() + 1,
{
    reveal(send_fresh);
    reveal(emit_fin);
    reveal(emit_new);
    reveal(emit);
    reveal(fin_placed);
    reveal(nxt_moved);
    reveal(bump_max);
    reveal(charged);
    reveal(ack_sent);
    reveal(arm_rto_if_idle);
    reveal(arm_rto);
    reveal(arm_tlp);
}

/// Each turn of sending that goes on has staged exactly one packet.
proof fn lemma_one_stages(s: TcbView)
    ensures
        send_one(s).1 ==> send_one(s).0.tx.len() == s.tx.len() + 1,
{
    let a = recovery_left(s);
    assert(a.tx == s.tx) by {
        reveal(recovery_left);
    }
    lemma_lost_stages(s);
    lemma_lost_stages(a);
    reveal(send_one);
}

proof fn lemma_lost_stages(s: TcbView)
    ensures
        send_lost(s).1 ==> send_lost(s).0.tx.len() == s.tx.len() + 1,
{
    let t = lost_taken(s);
    assert(t.tx == s.tx) by {
        reveal(lost_taken);
    }
    lemma_recovery_stages(s);
    lemma_recovery_stages(t);
    reveal(send_lost);
    if let Some((seq, bytes)) = lost_target(t, s.lost[0]) {
        lemma_retransmit_stages(t, seq, bytes);
    }
}

proof fn lemma_recovery_stages(s: TcbView)
    ensures
        send_recovery(s).1 ==> send_recovery(s).0.tx.len() == s.tx.len() + 1,
{
    lemma_fresh_stages(s);
    reveal(send_recovery);
    if let Some((seq, bytes)) = recovery_target(s) {
        lemma_retransmit_stages(s, seq, bytes);
    }
}

proof fn lemma_more_turns(s: TcbView, a: nat, b: nat)
    requires
        s.tx.len() + a > TX_RING_CAP,
        s.tx.len() + b > TX_RING_CAP,
        a > 0 && b > 0,
    ensures
        send_some(s, a) == send_some(s, b),
    decreases a,
{
    reveal_with_fuel(send_some, 2);
    if !tx_full(s) {
        lemma_one_stages(s);
        if send_one(s).1 {
            lemma_more_turns(send_one(s).0, (a - 1) as nat, (b - 1) as nat);
        }
    }
}

/// Sending never spends its budget: it stops because there is nothing to send or no
/// room, and with more turns it would stop at the same place.
pub proof fn law_send_budget_is_never_spent(s: TcbView, more: nat)
    requires
        may_transmit(s.state),
    ensures
        send_some(s, TX_RING_CAP as nat + 2 + more) == send_data(s),
{
    reveal(send_data);
    lemma_more_turns(s, TX_RING_CAP as nat + 2 + more, TX_RING_CAP as nat + 2);
}

/// One sending stages at most as many packets as there is room for.
pub proof fn law_output_is_bounded(s: TcbView)
    requires
        s.tx.len() <= TX_RING_CAP,
    ensures
        send_data(s).tx.len() <= TX_RING_CAP,
{
    reveal(send_data);
    if may_transmit(s.state) {
        lemma_some_bounded(s, TX_RING_CAP as nat + 2);
    }
}

proof fn lemma_some_bounded(s: TcbView, turns: nat)
    requires
        s.tx.len() <= TX_RING_CAP,
    ensures
        send_some(s, turns).tx.len() <= TX_RING_CAP,
    decreases turns,
{
    reveal_with_fuel(send_some, 2);
    if turns > 0 && !tx_full(s) {
        lemma_one_stages(s);
        if send_one(s).1 {
            lemma_some_bounded(send_one(s).0, (turns - 1) as nat);
        } else {
            lemma_stop_stages_nothing(s);
        }
    }
}

/// Where sending stops, nothing has been staged.
proof fn lemma_stop_stages_nothing(s: TcbView)
    ensures
        !send_one(s).1 ==> send_one(s).0.tx == s.tx,
{
    reveal(send_one);
    reveal(recovery_left);
    reveal(send_lost);
    reveal(lost_taken);
    reveal(send_recovery);
    reveal(send_fresh);
    reveal(arm_persist);
    reveal(rto_kept);
    reveal(retransmit);
}

/// How many of the first `n` runs hold something.
pub open spec fn used_runs(runs: Seq<Run>, n: int) -> nat
    decreases n,
{
    if n <= 0 {
        0
    } else {
        used_runs(runs, n - 1) + if used(runs[n - 1]) {
            1nat
        } else {
            0nat
        }
    }
}

proof fn lemma_one_less(runs: Seq<Run>, i: int, r: Run, n: int)
    requires
        0 <= i < runs.len(),
        n <= runs.len(),
        used(runs[i]),
        !used(r),
    ensures
        used_runs(runs.update(i, r), n) == used_runs(runs, n) - if i < n {
            1int
        } else {
            0int
        },
    decreases n,
{
    if n > 0 {
        lemma_one_less(runs, i, r, n - 1);
    }
}

proof fn lemma_used_bounded(runs: Seq<Run>, n: int)
    ensures
        n >= 0 ==> used_runs(runs, n) <= n,
    decreases n,
{
    if n > 0 {
        lemma_used_bounded(runs, n - 1);
    }
}

proof fn lemma_some_used(runs: Seq<Run>, i: int, n: int)
    requires
        0 <= i < n <= runs.len(),
        used(runs[i]),
    ensures
        used_runs(runs, n) > 0,
    decreases n,
{
    if i < n - 1 {
        lemma_some_used(runs, i, n - 1);
    }
}

proof fn lemma_more_drains(s: TcbView, a: nat, b: nat)
    requires
        rx_ok(s),
        a > used_runs(s.reasm.runs, MAX_HOLES as int),
        b > used_runs(s.reasm.runs, MAX_HOLES as int),
    ensures
        drain_runs(s, a) == drain_runs(s, b),
    decreases a,
{
    reveal_with_fuel(drain_runs, 2);
    let runs = s.reasm.runs;
    let i = first_starting(runs, s.rcv_nxt, 0);
    lemma_first_starting(runs, s.rcv_nxt, 0);
    if i < runs.len() {
        let len = runs[i].data.len();
        let n = min(len as int, s.cap - s.recv_ring.len());
        if n >= len {
            let t = run_drained(s, i, n);
            lemma_run_drained(s, i, n);
            assert(t.reasm.runs == runs.update(i, without_front(runs[i], n))) by {
                reveal(run_drained);
            }
            lemma_one_less(runs, i, without_front(runs[i], n), MAX_HOLES as int);
            lemma_some_used(runs, i, MAX_HOLES as int);
            lemma_more_drains(t, (a - 1) as nat, (b - 1) as nat);
        }
    }
}

/// Handing held runs on never spends its budget: it stops because no held run is
/// contiguous or the ring is full, and with more turns it would stop at the same
/// place.
pub proof fn law_drain_budget_is_never_spent(s: TcbView, more: nat)
    requires
        rx_ok(s),
    ensures
        drain_runs(s, MAX_HOLES as nat + 2 + more) == drain_runs(s, MAX_HOLES as nat + 2),
{
    lemma_used_bounded(s.reasm.runs, MAX_HOLES as int);
    lemma_more_drains(s, MAX_HOLES as nat + 2 + more, MAX_HOLES as nat + 2);
}

} // verus!
