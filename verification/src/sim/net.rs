//! A pair of connections joined by two links.

use crate::sim::chaos::{after, byte_at, chaos_decide, decided, next_byte, spent};
use crate::sim::link::{carried, due, kept, Fate, Link};
use crate::sim::pair::{Pair, PairView};
use crate::sim::rng::{drawn, Chaos, Rng};
use crate::tcb::model::{injected, TcbView};
use crate::tcb::Tcb;
use crate::MAX_PACKET;
use vstd::prelude::*;

verus! {

/// What decides the fate of packets.
pub struct DiceView {
    /// Random numbers decide, and otherwise input bytes.
    pub random: bool,
    pub data: Seq<u8>,
    pub fi: int,
    pub budget: u32,
    pub rng: u64,
    pub chaos: Chaos,
}

/// The fate of the next packet, and what decides on those after it.
#[verifier::opaque]
pub open spec fn rolled(d: DiceView, lossy: bool) -> (Fate, DiceView) {
    if d.random {
        let (fate, rng) = drawn(d.rng, d.chaos);
        (fate, DiceView { rng, ..d })
    } else {
        let fate = decided(byte_at(d.data, d.fi), lossy, d.budget);
        (fate, DiceView { fi: after(d.data, d.fi), budget: spent(d.budget, fate), ..d })
    }
}

/// A connection, the link that it sends into, and what decides.
pub struct OutletView {
    pub tcb: TcbView,
    pub link: Seq<(u64, Seq<u8>)>,
    pub dice: DiceView,
}

/// The first packet that waits enters the link in turn `iter`.
#[verifier::opaque]
pub open spec fn let_out(o: OutletView, iter: u64, lossy: bool) -> OutletView {
    let (fate, dice) = rolled(o.dice, lossy);
    OutletView {
        tcb: TcbView { tx: o.tcb.tx.skip(1), ..o.tcb },
        link: carried(o.link, iter, o.tcb.tx[0], fate),
        dice,
    }
}

/// Every packet that waits enters the link in turn `iter`.
pub open spec fn emptied(o: OutletView, iter: u64, lossy: bool) -> OutletView
    decreases o.tcb.tx.len(),
{
    if o.tcb.tx.len() == 0 {
        o
    } else {
        proof {
            reveal(let_out);
        }
        emptied(let_out(o, iter, lossy), iter, lossy)
    }
}

/// One packet arrives, and what the connection answers enters its link.
#[verifier::opaque]
pub open spec fn arrived(o: OutletView, pkt: Seq<u8>, iter: u64, lossy: bool) -> OutletView {
    emptied(OutletView { tcb: injected(o.tcb, pkt).0, ..o }, iter, lossy)
}

/// The first `n` of the packets arrive, one after the other.
pub open spec fn all_arrived(
    o: OutletView,
    pkts: Seq<Seq<u8>>,
    n: int,
    iter: u64,
    lossy: bool,
) -> OutletView
    decreases n,
{
    if n <= 0 {
        o
    } else {
        arrived(all_arrived(o, pkts, n - 1, iter, lossy), pkts[n - 1], iter, lossy)
    }
}

/// A pair of connections and the links between them.
pub struct NetView {
    pub pair: PairView,
    pub c2s: Seq<(u64, Seq<u8>)>,
    pub s2c: Seq<(u64, Seq<u8>)>,
    pub dice: DiceView,
}

/// What the client has staged enters its link.
#[verifier::opaque]
pub open spec fn cli_emptied(w: NetView, iter: u64, lossy: bool) -> NetView {
    let o = emptied(OutletView { tcb: w.pair.cli, link: w.c2s, dice: w.dice }, iter, lossy);
    NetView { pair: PairView { cli: o.tcb, ..w.pair }, c2s: o.link, dice: o.dice, ..w }
}

/// What the server has staged enters its link.
#[verifier::opaque]
pub open spec fn srv_emptied(w: NetView, iter: u64, lossy: bool) -> NetView {
    let o = emptied(OutletView { tcb: w.pair.srv, link: w.s2c, dice: w.dice }, iter, lossy);
    NetView { pair: PairView { srv: o.tcb, ..w.pair }, s2c: o.link, dice: o.dice, ..w }
}

/// What is due for the server arrives.
#[verifier::opaque]
pub open spec fn srv_served(w: NetView, iter: u64, lossy: bool) -> NetView {
    let pkts = due(w.c2s, iter);
    let o = all_arrived(
        OutletView { tcb: w.pair.srv, link: w.s2c, dice: w.dice },
        pkts,
        pkts.len() as int,
        iter,
        lossy,
    );
    NetView {
        pair: PairView { srv: o.tcb, ..w.pair },
        c2s: kept(w.c2s, iter),
        s2c: o.link,
        dice: o.dice,
    }
}

/// What is due for the client arrives.
#[verifier::opaque]
pub open spec fn cli_served(w: NetView, iter: u64, lossy: bool) -> NetView {
    let pkts = due(w.s2c, iter);
    let o = all_arrived(
        OutletView { tcb: w.pair.cli, link: w.c2s, dice: w.dice },
        pkts,
        pkts.len() as int,
        iter,
        lossy,
    );
    NetView {
        pair: PairView { cli: o.tcb, ..w.pair },
        c2s: o.link,
        s2c: kept(w.s2c, iter),
        dice: o.dice,
    }
}

/// One turn of the links: both sides are emptied, then the server and then the
/// client take what is due for them.
pub open spec fn exchanged(w: NetView, iter: u64, lossy: bool) -> NetView {
    let a = srv_emptied(cli_emptied(w, iter, lossy), iter, lossy);
    cli_served(srv_served(a, iter, lossy), iter, lossy)
}

/// Nothing is on its way.
pub open spec fn silent(w: NetView) -> bool {
    w.c2s.len() == 0 && w.s2c.len() == 0
}

/// What decides the fate of packets.
pub struct Dice<'a> {
    pub random: bool,
    pub data: &'a [u8],
    pub fi: usize,
    pub budget: u32,
    pub rng: Rng,
    pub chaos: Chaos,
}

impl<'a> View for Dice<'a> {
    type V = DiceView;

    open spec fn view(&self) -> DiceView {
        DiceView {
            random: self.random,
            data: self.data@,
            fi: self.fi as int,
            budget: self.budget,
            rng: self.rng.state,
            chaos: self.chaos,
        }
    }
}

impl<'a> Dice<'a> {
    /// Decides the fate of the next packet.
    fn roll(&mut self, lossy: bool) -> (fate: Fate)
        ensures
            (fate, final(self)@) == rolled(old(self)@, lossy),
            fate.delay <= 4,
    {
        proof {
            reveal(rolled);
        }
        if self.random {
            self.rng.draw(self.chaos)
        } else {
            let b: u8 = next_byte(self.data, &mut self.fi);
            chaos_decide(b, lossy, &mut self.budget)
        }
    }
}

/// Lets the first packet that waits into the link, and says whether there was one.
fn let_one_out<const BUF: usize>(
    tcb: &mut Tcb<BUF>,
    link: &mut Link,
    dice: &mut Dice<'_>,
    buf: &mut Vec<u8>,
    iter: u64,
    lossy: bool,
) -> (more: bool)
    requires
        old(tcb).wf(),
        old(buf)@.len() == MAX_PACKET,
        iter < 0x8000_0000_0000_0000,
    ensures
        final(tcb).wf(),
        final(buf)@.len() == MAX_PACKET,
        more == (old(tcb)@.tx.len() > 0),
        !more ==> final(tcb)@ == old(tcb)@ && final(link)@ == old(link)@ && final(dice)@ == old(
            dice,
        )@,
        more ==> (OutletView { tcb: final(tcb)@, link: final(link)@, dice: final(dice)@ })
            == let_out(
            OutletView { tcb: old(tcb)@, link: old(link)@, dice: old(dice)@ },
            iter,
            lossy,
        ),
{
    proof {
        reveal(let_out);
        tcb.tx_ring.lemma_packet_lens();
    }
    let ghost first = tcb@.tx[0];
    let n: usize = match tcb.extract_packet(buf.as_mut_slice()) {
        Ok(n) => n,
        Err(_) => 0,
    };
    if n == 0 {
        return false;
    }
    assert(buf@.subrange(0, n as int) =~= first);
    let fate = dice.roll(lossy);
    link.offer(iter, vstd::slice::slice_subrange(buf.as_slice(), 0, n), fate);
    true
}

/// Lets every packet that waits into the link.
fn empty<const BUF: usize>(
    tcb: &mut Tcb<BUF>,
    link: &mut Link,
    dice: &mut Dice<'_>,
    iter: u64,
    lossy: bool,
)
    requires
        old(tcb).wf(),
        iter < 0x8000_0000_0000_0000,
    ensures
        final(tcb).wf(),
        (OutletView { tcb: final(tcb)@, link: final(link)@, dice: final(dice)@ }) == emptied(
            OutletView { tcb: old(tcb)@, link: old(link)@, dice: old(dice)@ },
            iter,
            lossy,
        ),
{
    let mut buf: Vec<u8> = vec![0u8; MAX_PACKET];
    let ghost goal = emptied(
        OutletView { tcb: tcb@, link: link@, dice: dice@ },
        iter,
        lossy,
    );
    loop
        invariant_except_break
            emptied(OutletView { tcb: tcb@, link: link@, dice: dice@ }, iter, lossy) == goal,
        invariant
            tcb.wf(),
            buf@.len() == MAX_PACKET,
            iter < 0x8000_0000_0000_0000,
        ensures
            (OutletView { tcb: tcb@, link: link@, dice: dice@ }) == goal,
        decreases tcb@.tx.len(),
    {
        let ghost o = OutletView { tcb: tcb@, link: link@, dice: dice@ };
        proof {
            reveal(let_out);
        }
        if !let_one_out(tcb, link, dice, &mut buf, iter, lossy) {
            break;
        }
    }
}

/// Hands the connection one packet, and lets its answers into its link.
fn arrive<const BUF: usize>(
    tcb: &mut Tcb<BUF>,
    link: &mut Link,
    dice: &mut Dice<'_>,
    pkt: &Vec<u8>,
    iter: u64,
    lossy: bool,
)
    requires
        old(tcb).wf(),
        iter < 0x8000_0000_0000_0000,
    ensures
        final(tcb).wf(),
        (OutletView { tcb: final(tcb)@, link: final(link)@, dice: final(dice)@ }) == arrived(
            OutletView { tcb: old(tcb)@, link: old(link)@, dice: old(dice)@ },
            pkt@,
            iter,
            lossy,
        ),
{
    proof {
        reveal(arrived);
    }
    let _ = tcb.inject_packet(pkt.as_slice());
    empty(tcb, link, dice, iter, lossy);
}

/// Hands the connection the packets one after the other.
fn arrive_all<const BUF: usize>(
    tcb: &mut Tcb<BUF>,
    link: &mut Link,
    dice: &mut Dice<'_>,
    pkts: &Vec<Vec<u8>>,
    Ghost(seqs): Ghost<Seq<Seq<u8>>>,
    iter: u64,
    lossy: bool,
)
    requires
        old(tcb).wf(),
        iter < 0x8000_0000_0000_0000,
        pkts@.len() == seqs.len(),
        forall|i: int| 0 <= i < pkts@.len() ==> (#[trigger] pkts@[i])@ == seqs[i],
    ensures
        final(tcb).wf(),
        (OutletView { tcb: final(tcb)@, link: final(link)@, dice: final(dice)@ }) == all_arrived(
            OutletView { tcb: old(tcb)@, link: old(link)@, dice: old(dice)@ },
            seqs,
            seqs.len() as int,
            iter,
            lossy,
        ),
{
    let ghost start = OutletView { tcb: tcb@, link: link@, dice: dice@ };
    let mut i: usize = 0;
    while i < pkts.len()
        invariant
            tcb.wf(),
            iter < 0x8000_0000_0000_0000,
            i <= pkts@.len() == seqs.len(),
            forall|k: int| 0 <= k < pkts@.len() ==> (#[trigger] pkts@[k])@ == seqs[k],
            (OutletView { tcb: tcb@, link: link@, dice: dice@ }) == all_arrived(
                start,
                seqs,
                i as int,
                iter,
                lossy,
            ),
        decreases pkts@.len() - i,
    {
        arrive(tcb, link, dice, &pkts[i], iter, lossy);
        i = i + 1;
    }
}

/// A pair of connections and the links between them.
pub struct Net<'a, const BUF: usize> {
    pub pair: Pair<BUF>,
    pub c2s: Link,
    pub s2c: Link,
    pub dice: Dice<'a>,
}

impl<'a, const BUF: usize> View for Net<'a, BUF> {
    type V = NetView;

    open spec fn view(&self) -> NetView {
        NetView { pair: self.pair@, c2s: self.c2s@, s2c: self.s2c@, dice: self.dice@ }
    }
}

impl<'a, const BUF: usize> Net<'a, BUF> {
    pub open spec fn wf(&self) -> bool {
        self.pair.wf()
    }

    fn empty_cli(&mut self, iter: u64, lossy: bool)
        requires
            old(self).wf(),
            iter < 0x8000_0000_0000_0000,
        ensures
            final(self).wf(),
            final(self)@ == cli_emptied(old(self)@, iter, lossy),
    {
        proof {
            reveal(cli_emptied);
        }
        empty(&mut self.pair.cli, &mut self.c2s, &mut self.dice, iter, lossy);
    }

    fn empty_srv(&mut self, iter: u64, lossy: bool)
        requires
            old(self).wf(),
            iter < 0x8000_0000_0000_0000,
        ensures
            final(self).wf(),
            final(self)@ == srv_emptied(old(self)@, iter, lossy),
    {
        proof {
            reveal(srv_emptied);
        }
        empty(&mut self.pair.srv, &mut self.s2c, &mut self.dice, iter, lossy);
    }

    fn serve_srv(&mut self, iter: u64, lossy: bool)
        requires
            old(self).wf(),
            iter < 0x8000_0000_0000_0000,
        ensures
            final(self).wf(),
            final(self)@ == srv_served(old(self)@, iter, lossy),
    {
        proof {
            reveal(srv_served);
        }
        let ghost seqs = due(self.c2s@, iter);
        let pkts = self.c2s.drain_ready(iter);
        arrive_all(
            &mut self.pair.srv,
            &mut self.s2c,
            &mut self.dice,
            &pkts,
            Ghost(seqs),
            iter,
            lossy,
        );
    }

    fn serve_cli(&mut self, iter: u64, lossy: bool)
        requires
            old(self).wf(),
            iter < 0x8000_0000_0000_0000,
        ensures
            final(self).wf(),
            final(self)@ == cli_served(old(self)@, iter, lossy),
    {
        proof {
            reveal(cli_served);
        }
        let ghost seqs = due(self.s2c@, iter);
        let pkts = self.s2c.drain_ready(iter);
        arrive_all(
            &mut self.pair.cli,
            &mut self.c2s,
            &mut self.dice,
            &pkts,
            Ghost(seqs),
            iter,
            lossy,
        );
    }

    /// One turn of the links.
    pub fn exchange(&mut self, iter: u64, lossy: bool)
        requires
            old(self).wf(),
            iter < 0x8000_0000_0000_0000,
        ensures
            final(self).wf(),
            final(self)@ == exchanged(old(self)@, iter, lossy),
    {
        self.empty_cli(iter, lossy);
        self.empty_srv(iter, lossy);
        self.serve_srv(iter, lossy);
        self.serve_cli(iter, lossy);
    }

    /// Nothing is on its way.
    pub fn is_silent(&self) -> (b: bool)
        ensures
            b == silent(self@),
    {
        !self.c2s.pending() && !self.s2c.pending()
    }
}

} // verus!
