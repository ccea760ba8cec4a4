//! A transfer of nothing: no packet carries data, and there is nothing to read.

use crate::reassembly::used;
use crate::sim::link::{due, kept};
use crate::sim::net::{
    all_arrived, arrived, cli_emptied, cli_served, emptied, exchanged, let_out, srv_emptied,
    srv_served, NetView, OutletView,
};
use crate::sim::pair::{
    cli_inspected, driven, inspected, srv_inspected, supplied, wound_up, PairView,
};
use crate::sim::stream::{at_time, new_client, new_server};
use crate::tcb::laws::dry::{
    dry, lemma_closed_dry, lemma_injected_dry, lemma_ticked_dry, no_data,
};
use vstd::prelude::*;

verus! {

/// No packet on the link carries data.
pub open spec fn link_dry(q: Seq<(u64, Seq<u8>)>) -> bool {
    forall|i: int| 0 <= i < q.len() ==> no_data((#[trigger] q[i]).1)
}

/// None of the packets carries data.
pub open spec fn packets_dry(pkts: Seq<Seq<u8>>) -> bool {
    forall|i: int| 0 <= i < pkts.len() ==> no_data(#[trigger] pkts[i])
}

/// Neither the connections nor the links hold data.
pub open spec fn net_dry(w: NetView) -> bool {
    dry(w.pair.cli) && dry(w.pair.srv) && link_dry(w.c2s) && link_dry(w.s2c)
}

proof fn lemma_link_parts_dry(q: Seq<(u64, Seq<u8>)>, iter: u64)
    requires
        link_dry(q),
    ensures
        packets_dry(due(q, iter)),
        link_dry(kept(q, iter)),
    decreases q.len(),
{
    if q.len() > 0 {
        let p = q.drop_last();
        assert forall|i: int| 0 <= i < p.len() implies no_data((#[trigger] p[i]).1) by {
            assert(p[i] == q[i]);
        }
        lemma_link_parts_dry(p, iter);
        assert(no_data(q[q.len() - 1].1));
    }
}

proof fn lemma_emptied_dry(o: OutletView, iter: u64, lossy: bool)
    requires
        dry(o.tcb),
        link_dry(o.link),
    ensures
        dry(emptied(o, iter, lossy).tcb),
        link_dry(emptied(o, iter, lossy).link),
    decreases o.tcb.tx.len(),
{
    if o.tcb.tx.len() > 0 {
        let p = let_out(o, iter, lossy);
        assert(dry(p.tcb) && link_dry(p.link) && p.tcb.tx.len() < o.tcb.tx.len()) by {
            reveal(let_out);
            assert(no_data(o.tcb.tx[0]));
            assert forall|k: int| 0 <= k < p.tcb.tx.len() implies no_data(#[trigger] p.tcb.tx[k]) by {
                assert(p.tcb.tx[k] == o.tcb.tx[k + 1]);
            }
        }
        lemma_emptied_dry(p, iter, lossy);
    }
}

proof fn lemma_all_arrived_dry(
    o: OutletView,
    pkts: Seq<Seq<u8>>,
    n: int,
    iter: u64,
    lossy: bool,
)
    requires
        dry(o.tcb),
        link_dry(o.link),
        packets_dry(pkts),
        n <= pkts.len(),
    ensures
        dry(all_arrived(o, pkts, n, iter, lossy).tcb),
        link_dry(all_arrived(o, pkts, n, iter, lossy).link),
    decreases n,
{
    if n > 0 {
        lemma_all_arrived_dry(o, pkts, n - 1, iter, lossy);
        let a = all_arrived(o, pkts, n - 1, iter, lossy);
        reveal(arrived);
        assert(no_data(pkts[n - 1]));
        lemma_injected_dry(a.tcb, pkts[n - 1]);
        let b = OutletView {
            tcb: crate::tcb::model::injected(a.tcb, pkts[n - 1]).0,
            ..a
        };
        lemma_emptied_dry(b, iter, lossy);
    }
}

/// The links carry nothing but packets without data.
pub proof fn lemma_exchanged_dry(w: NetView, iter: u64, lossy: bool)
    requires
        net_dry(w),
    ensures
        net_dry(exchanged(w, iter, lossy)),
{
    let a = cli_emptied(w, iter, lossy);
    assert(net_dry(a)) by {
        reveal(cli_emptied);
        let o = OutletView { tcb: w.pair.cli, link: w.c2s, dice: w.dice };
        lemma_emptied_dry(o, iter, lossy);
    }
    let b = srv_emptied(a, iter, lossy);
    assert(net_dry(b)) by {
        reveal(srv_emptied);
        let o = OutletView { tcb: a.pair.srv, link: a.s2c, dice: a.dice };
        lemma_emptied_dry(o, iter, lossy);
    }
    let c = srv_served(b, iter, lossy);
    assert(net_dry(c)) by {
        reveal(srv_served);
        lemma_link_parts_dry(b.c2s, iter);
        let pkts = due(b.c2s, iter);
        let o = OutletView { tcb: b.pair.srv, link: b.s2c, dice: b.dice };
        lemma_all_arrived_dry(o, pkts, pkts.len() as int, iter, lossy);
    }
    let d = cli_served(c, iter, lossy);
    assert(net_dry(d)) by {
        reveal(cli_served);
        lemma_link_parts_dry(c.s2c, iter);
        let pkts = due(c.s2c, iter);
        let o = OutletView { tcb: c.pair.cli, link: c.c2s, dice: c.dice };
        lemma_all_arrived_dry(o, pkts, pkts.len() as int, iter, lossy);
    }
}

/// The clock and the timers.
pub proof fn lemma_driven_dry(w: PairView, now: u64)
    requires
        dry(w.cli),
        dry(w.srv),
    ensures
        dry(driven(w, now).cli),
        dry(driven(w, now).srv),
{
    reveal(driven);
    lemma_ticked_dry(at_time(w.cli, now));
    lemma_ticked_dry(at_time(w.srv, now));
}

/// What is left of a turn: nothing is handed over, nothing is read, and both may close.
pub proof fn lemma_turn_dry(w: PairView, chunk: u32, room: u32)
    requires
        dry(w.cli),
        dry(w.srv),
    ensures
        inspected(supplied(w, 0, chunk), room) matches Ok(u) && dry(wound_up(u, 0).cli) && dry(
            wound_up(u, 0).srv,
        ),
{
    reveal(supplied);
    let a = supplied(w, 0, chunk);
    assert(a == w);
    reveal(inspected);
    reveal(cli_inspected);
    reveal(srv_inspected);
    let e = Seq::<u8>::empty();
    assert(w.cli.recv_ring.take(0) =~= e && w.srv.recv_ring.take(0) =~= e);
    let u = inspected(a, room)->Ok_0;
    assert(inspected(a, room) is Ok);
    assert(u.cli == w.cli && u.srv == w.srv);
    reveal(wound_up);
    lemma_closed_dry(u.cli);
    lemma_closed_dry(u.srv);
}

/// The client and the server before they open are dry.
pub proof fn lemma_new_dry(buf: usize)
    ensures
        dry(new_client(buf)),
        dry(new_server(buf)),
{
    let (c, v) = (new_client(buf), new_server(buf));
    assert forall|i: int| 0 <= i < c.reasm.runs.len() implies !used(#[trigger] c.reasm.runs[i]) by {}
    assert forall|i: int| 0 <= i < v.reasm.runs.len() implies !used(#[trigger] v.reasm.runs[i]) by {}
}

} // verus!
