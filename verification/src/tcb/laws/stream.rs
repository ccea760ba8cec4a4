//! The peer's stream reaches the application unchanged: as long as what arrives
//! agrees with the stream, so does what is read, byte for byte and in order.

use crate::num::min;
use crate::reassembly::laws::{
    brings, holds, law_drain_drops_the_front, law_insert_keeps_and_adds, run_holds,
};
use crate::reassembly::{first_starting, inserted, used, without_front, Incoming, Run, MAX_HOLES};
use crate::state::{synchronized, State};
use crate::tcb::laws::acking::lemma_take_ack_sound;
use crate::tcb::laws::delivery::{lemma_first_starting, lemma_run_drained, rx_ok};
use crate::tcb::laws::frame::{lemma_pure_ack, lemma_send_data};
use crate::tcb::laws::segments::lemma_answer_send;
use crate::tcb::laws::soundness::sound;
use crate::tcb::model::{
    accept, answer, drain, drain_runs, fin_received, fitting, note_marks, on_synchronised,
    pure_ack, received, refuse, run_drained, send_data, set_aside, take_ack, take_fin,
    take_in_order, take_payload, takes_data, window_updated, TcbView,
};
use crate::wire::{flags, parse_packet, SegmentView};
use vstd::prelude::*;

verus! {

/// A peer's stream: the byte at each sequence number that carries one, the sequence
/// number of the FIN, and that of the SYN where it is known beforehand.
pub struct Stream {
    pub byte: spec_fn(u32) -> Option<u8>,
    pub end: u32,
    pub syn: Option<u32>,
}

impl Stream {
    /// No byte comes behind the FIN.
    pub open spec fn wf(self) -> bool {
        (self.byte)(self.end.wrapping_add(1)) is None
    }

    /// `data` is the part of the stream from `seq` on.
    pub open spec fn agrees(self, seq: u32, data: Seq<u8>) -> bool {
        forall|i: int|
            0 <= i < data.len() ==> (self.byte)(seq.wrapping_add(i as u32)) == Some(
                #[trigger] data[i],
            )
    }

    /// A segment carries bytes of the stream, and its SYN and FIN are those of the stream.
    pub open spec fn carries(self, g: SegmentView) -> bool {
        &&& self.agrees(g.seq, g.payload)
        &&& g.has(flags::FIN) ==> g.seq.wrapping_add(g.payload.len() as u32) == self.end
        &&& g.has(flags::SYN) ==> (self.syn matches Some(x) ==> g.seq == x)
    }

    /// A datagram carries a segment of the stream, if it carries a segment at all.
    pub open spec fn carried_by(self, b: Seq<u8>) -> bool {
        parse_packet(b) matches Some(g) ==> self.carries(g)
    }
}

/// The peer's FIN has been received, or the connection is over.
pub open spec fn peer_done(st: State) -> bool {
    st is CloseWait || st is Closing || st is LastAck || st is TimeWait || st is Closed
}

/// The sequence number behind the last byte received in order.
pub open spec fn edge(s: TcbView) -> u32 {
    if peer_done(s.state) {
        s.rcv_nxt.wrapping_sub(1)
    } else {
        s.rcv_nxt
    }
}

/// The sequence number of the next byte that the application reads.
pub open spec fn head(s: TcbView) -> u32 {
    edge(s).wrapping_sub(s.recv_ring.len() as u32)
}

/// Nothing has been received.
pub open spec fn nothing_in(s: TcbView) -> bool {
    &&& s.recv_ring.len() == 0
    &&& forall|i: int| 0 <= i < s.reasm.runs.len() ==> !used(#[trigger] s.reasm.runs[i])
}

/// Every held byte is the stream's.
pub open spec fn runs_agree(f: Stream, runs: Seq<Run>) -> bool {
    forall|x: u32, b: u8| #[trigger] holds(runs, x, b) ==> (f.byte)(x) == Some(b)
}

/// What has been received is the part of the stream that belongs there.
pub open spec fn agrees_with(s: TcbView, f: Stream) -> bool {
    &&& f.agrees(head(s), s.recv_ring)
    &&& runs_agree(f, s.reasm.runs)
    &&& peer_done(s.state) ==> s.rcv_nxt == f.end.wrapping_add(1) || s.state is Closed
        && nothing_in(s)
    &&& s.state is Listen || s.state is SynSent || s.state is SynRcvd ==> nothing_in(s)
}

/// The receive side is sound and, unless the connection has failed, holds the part
/// of the stream that belongs there.
pub open spec fn intact(s: TcbView, f: Stream) -> bool {
    &&& f.wf()
    &&& s.cap <= 0x4000_0000
    &&& rx_ok(s)
    &&& s.error is None ==> agrees_with(s, f)
    &&& s.error is Some ==> s.state is Closed
}

/// The receive side is the same.
pub open spec fn same_recv(s: TcbView, t: TcbView) -> bool {
    &&& t.cap == s.cap
    &&& t.rcv_nxt == s.rcv_nxt
    &&& t.recv_ring == s.recv_ring
    &&& t.reasm == s.reasm
    &&& t.error == s.error
}

/// Of the two rings the second goes on where the first ends.
pub open spec fn continues(s: TcbView, t: TcbView) -> bool {
    &&& head(t) == head(s)
    &&& s.recv_ring.len() <= t.recv_ring.len()
    &&& t.recv_ring.take(s.recv_ring.len() as int) == s.recv_ring
}

proof fn lemma_received(s: TcbView, p: Seq<u8>, f: Stream)
    requires
        intact(s, f),
        s.error is None,
        takes_data(s.state),
        f.agrees(s.rcv_nxt, p),
    ensures
        intact(received(s, p), f),
        received(s, p).state == s.state,
        received(s, p).error == s.error,
        continues(s, received(s, p)),
        received(s, p).rcv_nxt == s.rcv_nxt.wrapping_add(fitting(s, p) as u32),
        0 <= fitting(s, p) <= p.len(),
{
    reveal(received);
    let t = received(s, p);
    let n = fitting(s, p);
    assert(t.recv_ring.take(s.recv_ring.len() as int) =~= s.recv_ring);
    assert(head(t) == head(s));
    assert forall|i: int| 0 <= i < t.recv_ring.len() implies (f.byte)(
        head(t).wrapping_add(i as u32),
    ) == Some(#[trigger] t.recv_ring[i]) by {
        if i < s.recv_ring.len() {
            assert(t.recv_ring[i] == s.recv_ring[i]);
        } else {
            let j = i - s.recv_ring.len();
            assert(t.recv_ring[i] == p[j]);
            assert(head(t).wrapping_add(i as u32) == s.rcv_nxt.wrapping_add(j as u32));
        }
    }
}

proof fn lemma_run_drained_agrees(s: TcbView, i: int, n: int, f: Stream)
    requires
        intact(s, f),
        s.error is None,
        0 <= i < MAX_HOLES,
        used(s.reasm.runs[i]),
        s.reasm.runs[i].start == s.rcv_nxt,
        0 <= n <= s.reasm.runs[i].data.len(),
        n <= s.cap - s.recv_ring.len(),
    ensures
        intact(run_drained(s, i, n), f),
        run_drained(s, i, n).state == s.state,
        run_drained(s, i, n).error == s.error,
        continues(s, run_drained(s, i, n)),
{
    let r = s.reasm.runs[i];
    let runs = s.reasm.runs;
    assert(run_holds(r, r.start, r.data[0]));
    assert(holds(runs, r.start, r.data[0]));
    assert((f.byte)(s.rcv_nxt) is Some);
    assert(!peer_done(s.state));
    lemma_run_drained(s, i, n);
    law_drain_drops_the_front(s.reasm, i, n);
    reveal(run_drained);
    let t = run_drained(s, i, n);
    assert(t.recv_ring.take(s.recv_ring.len() as int) =~= s.recv_ring);
    assert(head(t) == head(s));
    assert forall|k: int| 0 <= k < t.recv_ring.len() implies (f.byte)(
        head(t).wrapping_add(k as u32),
    ) == Some(#[trigger] t.recv_ring[k]) by {
        if k < s.recv_ring.len() {
            assert(t.recv_ring[k] == s.recv_ring[k]);
        } else {
            let j = k - s.recv_ring.len();
            let x = r.start.wrapping_add(j as u32);
            assert(t.recv_ring[k] == r.data[j]);
            assert(head(t).wrapping_add(k as u32) == x);
            assert(run_holds(runs[i], x, r.data[j]));
            assert(holds(runs, x, r.data[j]));
        }
    }
    let out = t.reasm.runs;
    assert forall|x: u32, b: u8| #[trigger] holds(out, x, b) implies holds(runs, x, b) by {
        let k = choose|k: int| 0 <= k < out.len() && run_holds(#[trigger] out[k], x, b);
        if k == i && n > 0 {
            assert(out[k] == without_front(r, n));
            let j = x.wrapping_sub(out[k].start);
            assert(x.wrapping_sub(r.start) == j + n);
            assert(run_holds(runs[i], x, b));
        } else {
            assert(out[k] == runs[k]);
        }
    }
}

proof fn lemma_drain_runs_agrees(s: TcbView, turns: nat, f: Stream)
    requires
        intact(s, f),
        s.error is None,
    ensures
        intact(drain_runs(s, turns), f),
        drain_runs(s, turns).state == s.state,
        drain_runs(s, turns).error == s.error,
        continues(s, drain_runs(s, turns)),
    decreases turns,
{
    reveal_with_fuel(drain_runs, 2);
    let i = first_starting(s.reasm.runs, s.rcv_nxt, 0);
    lemma_first_starting(s.reasm.runs, s.rcv_nxt, 0);
    if turns > 0 && i < s.reasm.runs.len() {
        let len = s.reasm.runs[i].data.len();
        let n = min(len as int, s.cap - s.recv_ring.len());
        lemma_run_drained_agrees(s, i, n, f);
        let t = run_drained(s, i, n);
        if n >= len {
            lemma_drain_runs_agrees(t, (turns - 1) as nat, f);
            let u = drain_runs(t, (turns - 1) as nat);
            assert(u.recv_ring.take(s.recv_ring.len() as int) =~= u.recv_ring.take(
                t.recv_ring.len() as int,
            ).take(s.recv_ring.len() as int));
        }
    } else {
        assert(s.recv_ring.take(s.recv_ring.len() as int) =~= s.recv_ring);
    }
}

pub proof fn lemma_drain_agrees(s: TcbView, f: Stream)
    requires
        intact(s, f),
        s.error is None,
    ensures
        intact(drain(s), f),
        drain(s).state == s.state,
        drain(s).error == s.error,
        continues(s, drain(s)),
{
    reveal(drain);
    reveal(window_updated);
    lemma_drain_runs_agrees(s, MAX_HOLES as nat + 2, f);
}

proof fn lemma_set_aside_agrees(s: TcbView, seq: u32, p: Seq<u8>, f: Stream)
    requires
        intact(s, f),
        s.error is None,
        takes_data(s.state),
        p.len() <= 0xFFFF,
        f.agrees(seq, p),
    ensures
        intact(set_aside(s, seq, p), f),
        set_aside(s, seq, p).state == s.state,
        set_aside(s, seq, p).error == s.error,
        set_aside(s, seq, p).recv_ring == s.recv_ring,
        set_aside(s, seq, p).rcv_nxt == s.rcv_nxt,
{
    reveal(set_aside);
    law_insert_keeps_and_adds(s.reasm, seq, p, s.rcv_nxt);
    let w = inserted(s.reasm, seq, p, s.rcv_nxt).0;
    assert forall|x: u32, b: u8| #[trigger] holds(w.runs, x, b) implies (f.byte)(x) == Some(b) by {
        if !holds(s.reasm.runs, x, b) {
            assert(brings(Incoming { seq, data: p }, x, b));
            let i = x.wrapping_sub(seq);
            assert(p[i as int] == b);
            assert(seq.wrapping_add(i) == x);
        }
    }
}

proof fn lemma_take_payload_agrees(s: TcbView, g: SegmentView, f: Stream)
    requires
        intact(s, f),
        s.error is None,
        g.payload.len() <= 0xFFFF,
        f.carries(g),
    ensures
        intact(take_payload(s, g).0, f),
        take_payload(s, g).0.state == s.state,
        take_payload(s, g).0.error == s.error,
        continues(s, take_payload(s, g).0),
{
    reveal(take_payload);
    reveal(window_updated);
    assert(s.recv_ring.take(s.recv_ring.len() as int) =~= s.recv_ring);
    if g.payload.len() == 0 || !takes_data(s.state) {
    } else if g.seq == s.rcv_nxt {
        reveal(take_in_order);
        lemma_received(s, g.payload, f);
        let t = received(s, g.payload);
        lemma_drain_agrees(t, f);
        let u = drain(t);
        assert(u.recv_ring.take(s.recv_ring.len() as int) =~= u.recv_ring.take(
            t.recv_ring.len() as int,
        ).take(s.recv_ring.len() as int));
    } else {
        lemma_set_aside_agrees(s, g.seq, g.payload, f);
    }
}

proof fn lemma_take_fin_agrees(s: TcbView, g: SegmentView, f: Stream)
    requires
        intact(s, f),
        s.error is None,
        synchronized(s.state) || s.state is Closed && s.rcv_nxt == f.end.wrapping_add(1),
        f.carries(g),
    ensures
        intact(take_fin(s, g), f),
        take_fin(s, g).error == s.error,
        take_fin(s, g).recv_ring == s.recv_ring,
        head(take_fin(s, g)) == head(s),
{
    reveal(take_fin);
    reveal(fin_received);
}

/// A step that leaves the receive side alone keeps its agreement with the stream.
pub proof fn lemma_same_recv(s: TcbView, t: TcbView, f: Stream)
    requires
        intact(s, f),
        same_recv(s, t),
        s.error is Some ==> t.state is Closed,
        peer_done(t.state) == peer_done(s.state),
        t.state is Closed ==> s.state is Closed || synchronized(s.state),
        peer_done(t.state) && !(t.state is Closed) ==> !(s.state is Closed),
        t.state is Listen || t.state is SynSent || t.state is SynRcvd ==> t.state == s.state,
    ensures
        intact(t, f),
        continues(s, t),
{
    assert(s.recv_ring.take(s.recv_ring.len() as int) =~= s.recv_ring);
}

pub proof fn lemma_continues_on(a: TcbView, b: TcbView, c: TcbView)
    requires
        continues(a, b),
        continues(b, c),
    ensures
        continues(a, c),
{
    assert(c.recv_ring.take(a.recv_ring.len() as int) =~= c.recv_ring.take(
        b.recv_ring.len() as int,
    ).take(a.recv_ring.len() as int));
}

proof fn lemma_take_ack_agrees(s: TcbView, g: SegmentView, f: Stream)
    requires
        sound(s),
        intact(s, f),
        synchronized(s.state),
    ensures
        intact(take_ack(s, g), f),
        continues(s, take_ack(s, g)),
        take_ack(s, g).error == s.error,
        synchronized(take_ack(s, g).state) || take_ack(s, g).state is Closed && take_ack(
            s,
            g,
        ).rcv_nxt == s.rcv_nxt && s.state is LastAck,
{
    lemma_take_ack_sound(s, g);
    lemma_same_recv(s, take_ack(s, g), f);
}

proof fn lemma_accept_agrees(s: TcbView, g: SegmentView, f: Stream)
    requires
        sound(s),
        intact(s, f),
        s.error is None,
        synchronized(s.state),
        g.payload.len() <= 0xFFFF,
        f.carries(g),
    ensures
        intact(accept(s, g), f),
        accept(s, g).error is None,
        continues(s, accept(s, g)),
{
    reveal(accept);
    lemma_take_ack_agrees(s, g, f);
    lemma_same_recv(s, s, f);
    let a = if g.has(flags::ACK) {
        take_ack(s, g)
    } else {
        s
    };
    lemma_take_payload_agrees(a, g, f);
    let (b, filled) = take_payload(a, g);
    lemma_continues_on(s, a, b);
    assert(b.state is Closed ==> b.rcv_nxt == f.end.wrapping_add(1)) by {
        if b.state is Closed {
            assert(s.rcv_nxt == f.end.wrapping_add(1));
            reveal(take_payload);
        }
    }
    lemma_take_fin_agrees(b, g, f);
    let c = take_fin(b, g);
    lemma_answer_send(c, g, c.rcv_nxt != s.rcv_nxt, filled);
    let d = answer(c, g, c.rcv_nxt != s.rcv_nxt, filled);
    lemma_send_data(d);
    lemma_same_recv(c, send_data(d), f);
    assert(continues(s, c));
    lemma_continues_on(s, c, send_data(d));
}

proof fn lemma_refuse_agrees(s: TcbView, g: SegmentView, f: Stream)
    requires
        sound(s),
        intact(s, f),
        s.error is None,
        synchronized(s.state),
    ensures
        intact(refuse(s, g), f),
        refuse(s, g).error is None,
        continues(s, refuse(s, g)),
{
    reveal(refuse);
    lemma_take_ack_agrees(s, g, f);
    let k = take_ack(s, g);
    lemma_pure_ack(s);
    lemma_pure_ack(k);
    lemma_same_recv(s, pure_ack(s), f);
    lemma_same_recv(k, pure_ack(k), f);
    lemma_continues_on(s, k, pure_ack(k));
}

/// A segment in a synchronised state keeps the receive side in agreement with the
/// stream, and what was there stays in front.
pub proof fn lemma_on_synchronised_agrees(s: TcbView, g: SegmentView, f: Stream)
    requires
        sound(s),
        intact(s, f),
        s.error is None,
        synchronized(s.state),
        g.payload.len() <= 0xFFFF,
        f.carries(g),
    ensures
        intact(on_synchronised(s, g), f),
        on_synchronised(s, g).error is None,
        continues(s, on_synchronised(s, g)),
{
    reveal(on_synchronised);
    let t = note_marks(s, g);
    assert(sound(t) && same_recv(s, t) && t.state == s.state) by {
        reveal(note_marks);
    }
    lemma_same_recv(s, t, f);
    lemma_accept_agrees(t, g, f);
    lemma_continues_on(s, t, accept(t, g));
    lemma_refuse_agrees(t, g, f);
    lemma_continues_on(s, t, refuse(t, g));
}

} // verus!
