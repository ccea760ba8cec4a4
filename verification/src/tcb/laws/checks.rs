//! Laws of what a connection tells of itself: the consistency and liveness checks, and the
//! snapshot.

use crate::reassembly::{first_start, held};
use crate::seq::{seq_gt, seq_le, seq_lt};
use crate::state::State;
use crate::tcb::model::{breach, snapshot, stall, TcbView};
use vstd::prelude::*;

verus! {

/// A connection that passes the consistency check has its sequence numbers in order, has our
/// FIN behind everything only in a state that knows of it, holds every outstanding byte, and
/// runs the retransmission timer only for something.
pub proof fn law_consistency_is_checked(s: TcbView)
    requires
        breach(s) is None,
    ensures
        !seq_lt(s.snd_max, s.snd_una) && !seq_lt(s.snd_nxt, s.snd_una) && !seq_lt(
            s.snd_max,
            s.snd_nxt,
        ),
        s.fin_sent ==> !seq_gt(s.fin_seq.wrapping_add(1), s.snd_max),
        s.fin_sent ==> !(s.state is Listen || s.state is SynSent || s.state is SynRcvd || s.state
            is Established || s.state is CloseWait),
        s.fin_sent && (s.state is FinWait2 || s.state is TimeWait || s.state is Closed)
            ==> !seq_lt(s.snd_una, s.fin_seq.wrapping_add(1)),
        s.snd_max.wrapping_sub(s.snd_una) <= s.send_ring.len() + 2,
        !s.fin_sent && !(s.state is SynSent || s.state is SynRcvd) ==> s.snd_max.wrapping_sub(
            s.snd_una,
        ) <= s.send_ring.len(),
        s.rto_deadline is Some ==> !seq_le(s.snd_max, s.snd_una),
{
}

/// The consistency check does not cry wolf: before our FIN, and with the handshake done, a
/// connection passes that has its sequence numbers in order, holds every outstanding byte and
/// runs the retransmission timer only for something.
pub proof fn law_order_passes_the_check(s: TcbView)
    requires
        !seq_lt(s.snd_max, s.snd_una) && !seq_lt(s.snd_nxt, s.snd_una) && !seq_lt(
            s.snd_max,
            s.snd_nxt,
        ),
        !s.fin_sent,
        s.snd_max.wrapping_sub(s.snd_una) <= s.send_ring.len(),
        s.rto_deadline is Some ==> !seq_le(s.snd_max, s.snd_una),
    ensures
        breach(s) is None,
{
}

/// A connection at rest passes the liveness check exactly if what is outstanding has a timer
/// that would send it again, and what waits under a closed window has one that would probe.
pub proof fn law_liveness_is_checked(s: TcbView)
    requires
        s.tx.len() == 0,
    ensures
        stall(s) is None <==> {
            &&& seq_lt(s.snd_una, s.snd_max) ==> s.rto_deadline is Some || s.tlp_deadline is Some
                || s.rack_deadline is Some
            &&& (s.state is Established || s.state is CloseWait) && s.send_ring.len() > 0
                && s.snd_wnd == 0 && seq_le(s.snd_max, s.snd_una) ==> s.persist_deadline is Some
        },
{
}

/// The snapshot shows the connection as it is: what is outstanding, what is buffered either
/// way, what is held out of order, and what paces the sender.
pub proof fn law_snapshot_shows_the_connection(s: TcbView)
    requires
        s.send_ring.len() <= u32::MAX && s.recv_ring.len() <= u32::MAX,
        held(s.reasm.runs) <= u32::MAX,
    ensures
        ({
            let d = snapshot(s);
            &&& d.snd_una == s.snd_una && d.snd_nxt == s.snd_nxt && d.snd_wnd == s.snd_wnd
            &&& d.rcv_nxt == s.rcv_nxt && d.now_ms == s.now_ms && d.rto_ms == s.rto_ms
            &&& d.cwnd == s.cc.cwnd && d.ssthresh == s.cc.ssthresh
            &&& d.dup_ack_count == s.cc.dup_acks && d.pending_ack == s.pending_ack
            &&& d.send_ring_len == s.send_ring.len() && d.recv_ring_len == s.recv_ring.len()
            &&& d.oo_len == held(s.reasm.runs)
            &&& first_start(s.reasm.runs, s.rcv_nxt) matches Some(x) ==> d.oo_start == x
            &&& s.rto_deadline matches Some(x) ==> d.rto_deadline == x
            &&& s.rto_deadline is None ==> d.rto_deadline == u64::MAX
            &&& s.tx.len() == 0 ==> d.tx_len == 0
            &&& s.tx.len() > 0 && s.tx[0].len() <= u32::MAX ==> d.tx_len == s.tx[0].len()
            &&& d.state == 0 <==> s.state == State::Closed
            &&& d.state == 2 <==> s.state == State::Established
            &&& d.state == 9 <==> s.state == State::Listen
        }),
{
}

} // verus!
