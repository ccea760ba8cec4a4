//! One direction of a link between two connections.

use vstd::prelude::*;

verus! {

/// The packets that `q` releases up to turn `iter`, in order.
pub open spec fn due(q: Seq<(u64, Seq<u8>)>, iter: u64) -> Seq<Seq<u8>>
    decreases q.len(),
{
    if q.len() == 0 {
        Seq::empty()
    } else if q.last().0 <= iter {
        due(q.drop_last(), iter).push(q.last().1)
    } else {
        due(q.drop_last(), iter)
    }
}

/// The packets that `q` still holds after turn `iter`, in order.
pub open spec fn kept(q: Seq<(u64, Seq<u8>)>, iter: u64) -> Seq<(u64, Seq<u8>)>
    decreases q.len(),
{
    if q.len() == 0 {
        Seq::empty()
    } else if q.last().0 <= iter {
        kept(q.drop_last(), iter)
    } else {
        kept(q.drop_last(), iter).push(q.last())
    }
}

/// What a link does to one packet.
#[derive(Copy, Clone, Debug, PartialEq, Eq, Structural)]
pub struct Fate {
    /// The packet is lost.
    pub drop: bool,
    /// The packet arrives a second time, one turn later.
    pub dup: bool,
    /// How many turns the packet takes.
    pub delay: u64,
}

/// The link after it took `pkt` in turn `iter`.
pub open spec fn carried(
    q: Seq<(u64, Seq<u8>)>,
    iter: u64,
    pkt: Seq<u8>,
    fate: Fate,
) -> Seq<(u64, Seq<u8>)> {
    if fate.drop {
        q
    } else if fate.dup {
        q.push(((iter + fate.delay) as u64, pkt)).push(((iter + fate.delay + 1) as u64, pkt))
    } else {
        q.push(((iter + fate.delay) as u64, pkt))
    }
}

/// Packets on their way, each with the turn in which it is released.
pub struct Link {
    queue: Vec<(u64, Vec<u8>)>,
}

impl View for Link {
    type V = Seq<(u64, Seq<u8>)>;

    closed spec fn view(&self) -> Seq<(u64, Seq<u8>)> {
        Seq::new(self.queue@.len(), |i: int| (self.queue@[i].0, self.queue@[i].1@))
    }
}

/// A copy of the bytes.
fn copied(pkt: &[u8]) -> (v: Vec<u8>)
    ensures
        v@ == pkt@,
{
    let mut v: Vec<u8> = Vec::with_capacity(pkt.len());
    let mut i: usize = 0;
    while i < pkt.len()
        invariant
            i <= pkt@.len(),
            v@ == pkt@.take(i as int),
        decreases pkt@.len() - i,
    {
        v.push(pkt[i]);
        i = i + 1;
        assert(v@ =~= pkt@.take(i as int));
    }
    assert(v@ =~= pkt@);
    v
}

impl Link {
    /// An empty link.
    pub fn new() -> (l: Self)
        ensures
            l@ == Seq::<(u64, Seq<u8>)>::empty(),
    {
        let l = Link { queue: Vec::new() };
        assert(l@ =~= Seq::<(u64, Seq<u8>)>::empty());
        l
    }

    fn push(&mut self, at: u64, pkt: Vec<u8>)
        ensures
            final(self)@ == old(self)@.push((at, pkt@)),
    {
        self.queue.push((at, pkt));
        assert(self@ =~= old(self)@.push((at, pkt@)));
    }

    fn remove_first(&mut self) -> (r: (u64, Vec<u8>))
        requires
            old(self)@.len() > 0,
        ensures
            (r.0, r.1@) == old(self)@[0],
            final(self)@ == old(self)@.skip(1),
    {
        let r = self.queue.remove(0);
        assert(self@ =~= old(self)@.skip(1));
        r
    }

    fn len(&self) -> (n: usize)
        ensures
            n == self@.len(),
    {
        self.queue.len()
    }

    /// Takes a packet in turn `iter`.
    pub fn offer(&mut self, iter: u64, pkt: &[u8], fate: Fate)
        requires
            iter + fate.delay < u64::MAX,
        ensures
            final(self)@ == carried(old(self)@, iter, pkt@, fate),
    {
        if fate.drop {
            return;
        }
        self.push(iter + fate.delay, copied(pkt));
        if fate.dup {
            self.push(iter + fate.delay + 1, copied(pkt));
        }
    }

    /// Releases the packets that are due in turn `iter`.
    pub fn drain_ready(&mut self, iter: u64) -> (out: Vec<Vec<u8>>)
        ensures
            out@.len() == due(old(self)@, iter).len(),
            forall|i: int| 0 <= i < out@.len() ==> (#[trigger] out@[i])@ == due(
                old(self)@,
                iter,
            )[i],
            final(self)@ == kept(old(self)@, iter),
    {
        let n: usize = self.len();
        let mut out: Vec<Vec<u8>> = Vec::new();
        let mut i: usize = 0;
        let ghost q = self@;
        assert(q.skip(0) + kept(q.take(0), iter) =~= q);
        while i < n
            invariant
                i <= n,
                n == q.len(),
                q == old(self)@,
                self@ == q.skip(i as int) + kept(q.take(i as int), iter),
                out@.len() == due(q.take(i as int), iter).len(),
                forall|k: int|
                    0 <= k < out@.len() ==> (#[trigger] out@[k])@ == due(
                        q.take(i as int),
                        iter,
                    )[k],
            decreases n - i,
        {
            let ghost before = self@;
            let (rel, pkt): (u64, Vec<u8>) = self.remove_first();
            assert(q.take(i + 1).drop_last() =~= q.take(i as int));
            assert(q.take(i + 1).last() == q[i as int]);
            assert(before[0] == q[i as int]);
            assert(before.skip(1) =~= q.skip(i + 1) + kept(q.take(i as int), iter));
            if rel <= iter {
                out.push(pkt);
            } else {
                self.push(rel, pkt);
                assert(self@ =~= q.skip(i + 1) + kept(q.take(i + 1), iter));
            }
            i = i + 1;
        }
        assert(q.take(n as int) =~= q);
        assert(q.skip(n as int) + kept(q, iter) =~= kept(q, iter));
        out
    }

    /// Packets are on their way.
    pub fn pending(&self) -> (b: bool)
        ensures
            b == (self@.len() > 0),
    {
        self.queue.len() > 0
    }
}

/// A link loses nothing that it did not drop: every packet it took is released or
/// still on its way.
pub proof fn law_link_loses_nothing(q: Seq<(u64, Seq<u8>)>, iter: u64)
    ensures
        due(q, iter).len() + kept(q, iter).len() == q.len(),
        forall|i: int| 0 <= i < kept(q, iter).len() ==> (#[trigger] kept(q, iter)[i]).0 > iter,
    decreases q.len(),
{
    if q.len() > 0 {
        law_link_loses_nothing(q.drop_last(), iter);
    }
}

/// A packet that a link takes arrives in its turn, once or twice, and what is on its way stays
/// there; a packet that it drops does not arrive.
pub proof fn law_link_carries(q: Seq<(u64, Seq<u8>)>, iter: u64, pkt: Seq<u8>, fate: Fate)
    requires
        iter + fate.delay < u64::MAX,
    ensures
        ({
            let t = carried(q, iter, pkt, fate);
            &&& fate.drop ==> t == q
            &&& !fate.drop && !fate.dup ==> t.len() == q.len() + 1
            &&& !fate.drop && fate.dup ==> t.len() == q.len() + 2
            &&& forall|i: int| 0 <= i < q.len() ==> #[trigger] t[i] == q[i]
            &&& !fate.drop ==> t[q.len() as int] == ((iter + fate.delay) as u64, pkt)
            &&& !fate.drop && fate.dup ==> t.last() == ((iter + fate.delay + 1) as u64, pkt)
        }),
{
}

} // verus!
