//! Congestion marks: one that arrives is echoed until the peer answers it, and one that is
//! echoed to us slows us down once and is answered.

use crate::MSS;
use crate::state::synchronized;
use crate::tcb::laws::network::{happened, End, Event};
use crate::tcb::laws::outbound::options_fit;
use crate::tcb::laws::staged::{
    addressable, law_answers_keep_to_the_terms, law_calls_keep_to_the_terms,
    law_timers_keep_to_the_terms, lemma_feedback_bits, lemma_on_synchronised_keeps, proper, receipt,
    stages, terms,
};
use crate::tcb::model::{
    datagram_out, emit, feedback, for_us, injected, note_marks, on_reset, on_segment,
    on_synchronised, peer_alive, reset_by_peer, segment_out, tx_full, TcbView,
};
use crate::wire::{flags, law_emit_then_parse_round_trip, packet, parse_packet};
use crate::wire::flags::{ACK, CWR, ECE, RST, SYN};
use crate::wire::options::OptionsView;
use vstd::prelude::*;

verus! {

/// `b` holds a segment for the connection that is no reset.
pub open spec fn heard(s: TcbView, b: Seq<u8>) -> bool {
    parse_packet(b) matches Some(g) && for_us(s, g) && !g.has(flags::RST)
}

/// What a segment leaves of the marks and the timestamps: with congestion notification a
/// mark stands from the segment that carries it to the one that answers it, and the
/// timestamp to echo is the newest that the peer has sent. What was agreed on stays.
pub proof fn law_segments_update_the_terms(s: TcbView, b: Seq<u8>)
    requires
        addressable(s),
        synchronized(s.state),
        heard(s, b),
    ensures
        ({
            let g = parse_packet(b)->0;
            let t = injected(s, b).0;
            &&& t.ecn_enabled == s.ecn_enabled && t.ts_enabled == s.ts_enabled
            &&& t.sack_enabled == s.sack_enabled && t.peer_mss == s.peer_mss
            &&& t.snd_wscale == s.snd_wscale && t.rcv_wscale == s.rcv_wscale
            &&& s.ecn_enabled && g.has(flags::CWR) ==> !t.ce_observed
            &&& s.ecn_enabled && !g.has(flags::CWR) && g.ecn == 3 ==> t.ce_observed
            &&& s.ecn_enabled && !g.has(flags::CWR) && g.ecn != 3 ==> t.ce_observed == s.ce_observed
            &&& !s.ecn_enabled ==> t.ce_observed == s.ce_observed
            &&& s.ts_enabled ==> match g.options.ts {
                Some((sent, _)) => t.ts_recent == (if sent.wrapping_sub(s.ts_recent) < 0x8000_0000 {
                    sent
                } else {
                    s.ts_recent
                }),
                None => t.ts_recent == s.ts_recent,
            }
        }),
{
    let g = parse_packet(b)->0;
    reveal(on_segment);
    lemma_on_synchronised_keeps(s, g);
    let t = note_marks(s, g);
    reveal(note_marks);
    reveal(peer_alive);
    let u = on_synchronised(s, g);
    assert(terms(u) == terms(t));
    assert(u.ts_enabled == s.ts_enabled);
}

/// The connection after `ev`.
#[verifier::opaque]
pub open spec fn moved(s: TcbView, ev: Event) -> TcbView {
    happened(End { conn: s, got: Seq::empty(), from: 0, put: 0 }, ev).conn
}

/// The connection after the first `n` of `evs`.
pub open spec fn moved_on(s: TcbView, evs: Seq<Event>, n: int) -> TcbView
    decreases n,
{
    if n <= 0 {
        s
    } else {
        moved(moved_on(s, evs, n - 1), evs[n - 1])
    }
}

/// A segment arrives whose datagram the network has marked, and which answers no mark.
pub open spec fn brings_mark(s: TcbView, ev: Event) -> bool {
    &&& ev matches Event::Arrive(b)
    &&& heard(s, b)
    &&& parse_packet(b)->0.ecn == 3 && !parse_packet(b)->0.has(flags::CWR)
}

/// A segment arrives that says that the peer has slowed down.
pub open spec fn brings_answer(s: TcbView, ev: Event) -> bool {
    &&& ev matches Event::Arrive(b)
    &&& heard(s, b)
    &&& parse_packet(b)->0.has(flags::CWR)
}

/// `b` is an acknowledgement that echoes a mark, if it is one at all.
pub open spec fn echoes(b: Seq<u8>) -> bool {
    &&& parse_packet(b) matches Some(g)
    &&& g.has(flags::ACK) && !g.has(flags::SYN) ==> g.has(flags::ECE)
}

/// `b` echoes no mark.
pub open spec fn echoes_nothing(b: Seq<u8>) -> bool {
    &&& parse_packet(b) matches Some(g)
    &&& !g.has(flags::SYN) ==> !g.has(flags::ECE)
}

/// The connection is synchronised, and the host takes a packet only if one waits.
pub open spec fn up(s: TcbView, ev: Event) -> bool {
    synchronized(s.state) && (ev is Take ==> s.tx.len() > 0)
}

/// The connection is synchronised before each of the first `n` events.
pub open spec fn stays_up(s: TcbView, evs: Seq<Event>, n: int) -> bool {
    forall|i: int| 0 <= i < n ==> #[trigger] up(moved_on(s, evs, i), evs[i])
}

/// What one event makes of the mark, and that what it stages tells of it.
proof fn lemma_moved(s: TcbView, ev: Event)
    requires
        addressable(s),
        up(s, ev),
        s.ecn_enabled,
    ensures
        ({
            let t = moved(s, ev);
            &&& addressable(t)
            &&& t.ecn_enabled
            &&& brings_mark(s, ev) ==> t.ce_observed
            &&& brings_answer(s, ev) ==> !t.ce_observed
            &&& !brings_mark(s, ev) && !brings_answer(s, ev) ==> t.ce_observed == s.ce_observed
            &&& forall|k: int|
                s.tx.len() <= k < t.tx.len() ==> if t.ce_observed {
                    echoes(#[trigger] t.tx[k])
                } else {
                    echoes_nothing(t.tx[k])
                }
        }),
{
    reveal(moved);
    let t = moved(s, ev);
    match ev {
        Event::Tick => law_timers_keep_to_the_terms(s),
        Event::Arrive(b) => {
            law_answers_keep_to_the_terms(s, b);
            if heard(s, b) {
                law_segments_update_the_terms(s, b);
            } else {
                reveal(on_segment);
                reveal(on_reset);
                reveal(reset_by_peer);
                reveal(peer_alive);
            }
        },
        Event::Write(data) => law_calls_keep_to_the_terms(s, data, 0),
        Event::Read(room) => law_calls_keep_to_the_terms(s, Seq::empty(), room),
        Event::Close => law_calls_keep_to_the_terms(s, Seq::empty(), 0),
        _ => {},
    }
    assert(terms(t).marked == t.ce_observed && terms(t).notified == t.ecn_enabled);
    assert forall|k: int| s.tx.len() <= k < t.tx.len() implies if t.ce_observed {
        echoes(#[trigger] t.tx[k])
    } else {
        echoes_nothing(t.tx[k])
    } by {
        assert(!(ev is Take) && stages(s, t));
        assert(proper(terms(t), receipt(s), t.tx[k]) || proper(terms(t), receipt(t), t.tx[k]));
    }
}

/// The connection keeps its addresses and its notification.
proof fn lemma_moved_on(s: TcbView, evs: Seq<Event>, n: int)
    requires
        addressable(s),
        s.ecn_enabled,
        0 <= n <= evs.len(),
        stays_up(s, evs, n),
    ensures
        addressable(moved_on(s, evs, n)),
        moved_on(s, evs, n).ecn_enabled,
    decreases n,
{
    if n > 0 {
        lemma_moved_on(s, evs, n - 1);
        assert(up(moved_on(s, evs, n - 1), evs[n - 1]));
        lemma_moved(moved_on(s, evs, n - 1), evs[n - 1]);
    }
}

proof fn lemma_mark_stands(s: TcbView, evs: Seq<Event>, j: int, n: int)
    requires
        addressable(s),
        s.ecn_enabled,
        0 <= j < n <= evs.len(),
        stays_up(s, evs, n),
        brings_mark(moved_on(s, evs, j), evs[j]),
        forall|i: int| j < i < n ==> !#[trigger] brings_answer(moved_on(s, evs, i), evs[i]),
    ensures
        moved_on(s, evs, n).ce_observed,
    decreases n,
{
    lemma_moved_on(s, evs, n - 1);
    let p = moved_on(s, evs, n - 1);
    assert(up(p, evs[n - 1]));
    lemma_moved(p, evs[n - 1]);
    if n - 1 > j {
        lemma_mark_stands(s, evs, j, n - 1);
        assert(!brings_answer(moved_on(s, evs, n - 1), evs[n - 1]));
    }
}

proof fn lemma_answer_stands(s: TcbView, evs: Seq<Event>, j: int, n: int)
    requires
        addressable(s),
        s.ecn_enabled,
        0 <= j < n <= evs.len(),
        stays_up(s, evs, n),
        brings_answer(moved_on(s, evs, j), evs[j]),
        forall|i: int| j < i < n ==> !#[trigger] brings_mark(moved_on(s, evs, i), evs[i]),
    ensures
        !moved_on(s, evs, n).ce_observed,
    decreases n,
{
    lemma_moved_on(s, evs, n - 1);
    let p = moved_on(s, evs, n - 1);
    assert(up(p, evs[n - 1]));
    lemma_moved(p, evs[n - 1]);
    if n - 1 > j {
        lemma_answer_stands(s, evs, j, n - 1);
        assert(!brings_mark(moved_on(s, evs, n - 1), evs[n - 1]));
    }
}

/// A mark is echoed until it is answered: from the marked segment on, whatever happens,
/// every acknowledgement that is staged carries the echo, as long as no segment has come
/// that answers it.
pub proof fn law_mark_is_echoed(s: TcbView, evs: Seq<Event>, j: int, n: int)
    requires
        addressable(s),
        s.ecn_enabled,
        0 <= j < n <= evs.len(),
        stays_up(s, evs, n),
        brings_mark(moved_on(s, evs, j), evs[j]),
        forall|i: int| j < i < n ==> !#[trigger] brings_answer(moved_on(s, evs, i), evs[i]),
    ensures
        forall|k: int|
            moved_on(s, evs, n - 1).tx.len() <= k < moved_on(s, evs, n).tx.len() ==> echoes(
                #[trigger] moved_on(s, evs, n).tx[k],
            ),
{
    lemma_mark_stands(s, evs, j, n);
    lemma_moved_on(s, evs, n - 1);
    assert(up(moved_on(s, evs, n - 1), evs[n - 1]));
    lemma_moved(moved_on(s, evs, n - 1), evs[n - 1]);
}

/// Once a mark is answered it is echoed no more: nothing that is staged from then on
/// carries an echo, until another marked segment comes.
pub proof fn law_answered_mark_is_not_echoed(s: TcbView, evs: Seq<Event>, j: int, n: int)
    requires
        addressable(s),
        s.ecn_enabled,
        0 <= j < n <= evs.len(),
        stays_up(s, evs, n),
        brings_answer(moved_on(s, evs, j), evs[j]),
        forall|i: int| j < i < n ==> !#[trigger] brings_mark(moved_on(s, evs, i), evs[i]),
    ensures
        forall|k: int|
            moved_on(s, evs, n - 1).tx.len() <= k < moved_on(s, evs, n).tx.len()
                ==> echoes_nothing(#[trigger] moved_on(s, evs, n).tx[k]),
{
    lemma_answer_stands(s, evs, j, n);
    lemma_moved_on(s, evs, n - 1);
    assert(up(moved_on(s, evs, n - 1), evs[n - 1]));
    lemma_moved(moved_on(s, evs, n - 1), evs[n - 1]);
}

/// Our slowing down is told once, with the next data: a segment with data says so exactly
/// if that is still to be told, and then it is told.
pub proof fn law_slowing_down_is_told_once(
    s: TcbView,
    bits: u8,
    seq: u32,
    opts: OptionsView,
    payload: Seq<u8>,
)
    requires
        addressable(s),
        s.ecn_enabled,
        !tx_full(s),
        options_fit(opts),
        payload.len() <= MSS,
        bits & 0xC0 == 0 && bits & flags::SYN == 0 && bits & flags::ACK != 0,
    ensures
        ({
            let t = emit(s, bits, seq, s.rcv_nxt, opts, payload);
            &&& t.tx.len() == s.tx.len() + 1
            &&& parse_packet(t.tx.last()) matches Some(g)
            &&& g.has(flags::CWR) <==> s.send_cwr_pending && payload.len() > 0
            &&& t.send_cwr_pending <==> s.send_cwr_pending && payload.len() == 0
            &&& g.seq == seq && g.ack == s.rcv_nxt && g.payload == payload
        }),
{
    reveal(emit);
    reveal(datagram_out);
    reveal(segment_out);
    reveal(feedback);
    lemma_feedback_bits(bits);
    let g = segment_out(s, bits, seq, s.rcv_nxt, opts, payload);
    law_emit_then_parse_round_trip(g, s.ip_id, Seq::empty());
    assert(packet(g, s.ip_id) + Seq::<u8>::empty() =~= packet(g, s.ip_id));
}

} // verus!
