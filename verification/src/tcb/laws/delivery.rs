//! What is received reaches the application: every byte, once, and in order.

use crate::error::TcpError;
use crate::num::min;
use crate::reassembly::laws::law_drain_drops_the_front;
use crate::reassembly::{first_starting, held, reasm_ok, used, Run, MAX_HOLES};
use crate::tcb::model::{
    app_recv, data_read, drain, drain_runs, run_drained, window_updated, TcbView,
};
use vstd::prelude::*;

verus! {

/// The receive side is sound: the ring is within its capacity, and so are the held
/// runs.
pub open spec fn rx_ok(s: TcbView) -> bool {
    s.recv_ring.len() <= s.cap && reasm_ok(s.reasm)
}

/// Bytes received and not yet read, in order or held.
pub open spec fn unread(s: TcbView) -> nat {
    s.recv_ring.len() + held(s.reasm.runs)
}

pub proof fn lemma_first_starting(runs: Seq<Run>, seq: u32, from: int)
    requires
        0 <= from <= runs.len(),
    ensures
        from <= first_starting(runs, seq, from) <= runs.len(),
        first_starting(runs, seq, from) < runs.len() ==> {
            let r = runs[first_starting(runs, seq, from)];
            used(r) && r.start == seq
        },
    decreases runs.len() - from,
{
    if from < runs.len() && !(used(runs[from]) && runs[from].start == seq) {
        lemma_first_starting(runs, seq, from + 1);
    }
}

pub proof fn lemma_run_drained(s: TcbView, i: int, n: int)
    requires
        rx_ok(s),
        0 <= i < MAX_HOLES,
        0 <= n <= s.reasm.runs[i].data.len(),
        n <= s.cap - s.recv_ring.len(),
    ensures
        rx_ok(run_drained(s, i, n)),
        unread(run_drained(s, i, n)) == unread(s),
        run_drained(s, i, n).cap == s.cap,
        run_drained(s, i, n).recv_ring.len() == s.recv_ring.len() + n,
{
    reveal(run_drained);
    law_drain_drops_the_front(s.reasm, i, n);
}

/// Handing held runs on changes where bytes are and not how many there are.
pub proof fn lemma_drain_runs_total(s: TcbView, turns: nat)
    requires
        rx_ok(s),
    ensures
        rx_ok(drain_runs(s, turns)),
        unread(drain_runs(s, turns)) == unread(s),
        drain_runs(s, turns).cap == s.cap,
        drain_runs(s, turns).recv_ring.len() >= s.recv_ring.len(),
    decreases turns,
{
    reveal_with_fuel(drain_runs, 2);
    let i = first_starting(s.reasm.runs, s.rcv_nxt, 0);
    lemma_first_starting(s.reasm.runs, s.rcv_nxt, 0);
    if turns > 0 && i < s.reasm.runs.len() {
        let len = s.reasm.runs[i].data.len();
        let n = min(len as int, s.cap - s.recv_ring.len());
        lemma_run_drained(s, i, n);
        if n >= len {
            lemma_drain_runs_total(run_drained(s, i, n), (turns - 1) as nat);
        }
    }
}

pub proof fn lemma_drain_total(s: TcbView)
    requires
        rx_ok(s),
    ensures
        rx_ok(drain(s)),
        unread(drain(s)) == unread(s),
        drain(s).cap == s.cap,
        drain(s).recv_ring.len() >= s.recv_ring.len(),
{
    reveal(drain);
    reveal(window_updated);
    lemma_drain_runs_total(s, MAX_HOLES as nat + 2);
}

/// Reading loses nothing: what the application gets is what there is less of
/// afterwards.
pub proof fn law_read_takes_what_it_returns(s: TcbView, room: int)
    requires
        rx_ok(s),
        room >= 0,
    ensures
        ({
            let (t, r) = app_recv(s, room);
            &&& rx_ok(t)
            &&& t.cap == s.cap
            &&& r matches Ok(n) ==> 0 <= n <= room && unread(t) == unread(s) - n
            &&& r is Err ==> t == s
        }),
{
    let (t, r) = app_recv(s, room);
    if let Ok(n) = r {
        if n > 0 {
            reveal(data_read);
            reveal(window_updated);
            lemma_drain_total(data_read(s, n));
        }
    }
}

/// Reading hands out as much as is asked for, or all there is, from the front. A connection
/// that has failed gives its error instead; one whose peer has closed and that has nothing
/// left says so; and another one gives nothing.
pub proof fn law_read_hands_out_what_fits(s: TcbView, room: int)
    requires
        room >= 0,
    ensures
        ({
            let (t, r) = app_recv(s, room);
            let ended = s.state is Closed || s.state is CloseWait || s.state is LastAck || s.state
                is Closing || s.state is TimeWait;
            let n = if room < s.recv_ring.len() {
                room
            } else {
                s.recv_ring.len() as int
            };
            &&& s.error matches Some(e) ==> r == Err::<int, TcpError>(e)
            &&& s.error is None && n > 0 ==> r == Ok::<int, TcpError>(n)
            &&& s.error is None && s.recv_ring.len() == 0 && ended ==> r == Err::<int, TcpError>(
                TcpError::ConnectionClosed,
            )
            &&& s.error is None && n == 0 && !(ended && s.recv_ring.len() == 0) ==> r == Ok::<
                int,
                TcpError,
            >(0)
            &&& !(r matches Ok(k) && k > 0) ==> t == s
        }),
{
}

} // verus!
