//! Built-in self-test: two connections transfer data to each other.
//!
//! [`self_conformance`] joins two connections by a lossless wire in memory, lets
//! each send the other a stream of known bytes, checks what arrives, and closes
//! both. It is deterministic: its contract is the same run over the mathematical
//! state of the two connections.

use crate::sim::exact::{
    client, has_room, lemma_ferried_exact, lemma_heard_exact, lemma_new_pair,
    lemma_opening_exact, lemma_pair_driven, lemma_pair_turn, pair_exact, server,
};
use crate::sim::pair::{
    done, driven, inspected, paired, supplied, wound_up, Pair, PairView,
};
use crate::sim::stream::{
    at_time, cli_end, ferried, ferry, new_client, new_server, srv_end,
};
use crate::sim::CLI_ISS;
use crate::tcb::laws::inbound::has_heard;
use crate::tcb::laws::opening::{
    handshake_waits, law_connect_sends_a_syn, law_handshake_waits, law_syn_is_answered,
    law_synack_establishes,
};
use crate::tcb::model::{
    arm_rto, bump_max, connected, emit, in_state, listening, open_to_all, opening, reset,
    send_syn, syn_counted, syn_in_flight, ticked,
};
use vstd::prelude::*;

pub mod result;

verus! {

/// Ring size of the two connections.
pub const SELFTEST_BUF: usize = 16384;

/// Bytes sent each way.
pub const SELFTEST_XFER: u32 = 131_072;

/// Most bytes handed over in one call.
pub const CHUNK: u32 = 4096;

/// Most turns of the run.
pub const MAX_TURNS: u32 = 4_000_000;

/// The packets of both sides arrive.
#[verifier::opaque]
pub open spec fn exchanged(w: PairView) -> PairView {
    let (cli, srv) = ferried(w.cli, w.srv);
    let (srv, cli) = ferried(srv, cli);
    PairView { cli, srv, ..w }
}

/// What the run comes to within `turns` more turns, each a millisecond after the
/// one before.
pub open spec fn verdict(w: PairView, now: u64, turns: nat) -> i32
    decreases turns,
{
    if turns == 0 {
        result::NO_CONVERGENCE
    } else {
        let next = (now + 1) as u64;
        match inspected(supplied(exchanged(driven(w, next)), SELFTEST_XFER, CHUNK), CHUNK) {
            Err(_) => result::DATA_MISMATCH,
            Ok(u) => if done(wound_up(u, SELFTEST_XFER)) {
                result::OK
            } else {
                verdict(wound_up(u, SELFTEST_XFER), next, (turns - 1) as nat)
            },
        }
    }
}

/// The run before its first turn: the server listens and the client connects.
pub open spec fn trial() -> PairView {
    paired(connected(new_client(SELFTEST_BUF)), listening(new_server(SELFTEST_BUF)))
}

/// After the first turn the client has heard of the server.
proof fn lemma_first_turn()
    ensures
        has_heard(exchanged(driven(trial(), 1)).cli.state),
{
    let s = new_client(SELFTEST_BUF);
    lemma_new_pair(SELFTEST_BUF, SELFTEST_XFER);
    law_connect_sends_a_syn(s);
    let c = at_time(connected(s), 1);
    let v = at_time(listening(new_server(SELFTEST_BUF)), 1);
    assert(handshake_waits(c)) by {
        reveal(opening);
        reveal(send_syn);
        reveal(emit);
        reveal(syn_in_flight);
        reveal(syn_counted);
        reveal(bump_max);
        reveal(arm_rto);
    }
    law_handshake_waits(c);
    assert(handshake_waits(v) && v.state is Listen && v.tx.len() == 0 && v.local == srv_end()
        && !v.cookie_secret_set) by {
        reveal(in_state);
        reveal(reset);
        reveal(open_to_all);
    }
    law_handshake_waits(v);
    reveal(driven);
    reveal(exchanged);
    let (a, b) = (ticked(c), ticked(v));
    law_syn_is_answered(b, a.tx[0], cli_end(), CLI_ISS);
    reveal_with_fuel(ferried, 2);
    let (a2, b2) = ferried(a, b);
    assert(b2 == crate::tcb::model::injected(b, a.tx[0]).0);
    law_synack_establishes(a2, b2.tx[0]);
    let (b3, a3) = ferried(b2, a2);
    assert(a3 == crate::tcb::model::injected(a2, b2.tx[0]).0);
}

/// A turn leaves both sides in order.
proof fn lemma_turn_exact(w: PairView, now: u64)
    requires
        pair_exact(w, SELFTEST_XFER),
        has_room(w),
        has_heard(w.cli.state) || w == trial() && now == 1,
    ensures
        inspected(
            supplied(exchanged(driven(w, now)), SELFTEST_XFER, CHUNK),
            CHUNK,
        ) matches Ok(u) && {
            let x = wound_up(u, SELFTEST_XFER);
            pair_exact(x, SELFTEST_XFER) && has_room(x) && has_heard(x.cli.state)
        },
{
    let d = driven(w, now);
    lemma_pair_driven(w, now, SELFTEST_XFER);
    let x = exchanged(d);
    assert(pair_exact(x, SELFTEST_XFER) && x.srv.tx.len() == 0 && (has_heard(d.cli.state)
        ==> has_heard(x.cli.state))) by {
        reveal(exchanged);
        let (c, v) = (client(), server());
        lemma_ferried_exact(
            d.cli,
            d.srv,
            c,
            v,
            SELFTEST_XFER,
            d.cli_sent,
            d.cli_recv,
            d.srv_sent,
            d.srv_recv,
        );
        let (a, b) = ferried(d.cli, d.srv);
        lemma_ferried_exact(
            b,
            a,
            v,
            c,
            SELFTEST_XFER,
            d.srv_sent,
            d.srv_recv,
            d.cli_sent,
            d.cli_recv,
        );
    }
    if has_heard(w.cli.state) {
        lemma_heard_exact(
            w.cli,
            Seq::empty(),
            client(),
            server(),
            SELFTEST_XFER,
            w.cli_sent,
            w.cli_recv,
        );
        assert(has_heard(d.cli.state)) by {
            reveal(driven);
        }
    } else {
        lemma_first_turn();
    }
    lemma_pair_turn(x, SELFTEST_XFER, CHUNK, CHUNK);
}

proof fn lemma_verdict_exact(w: PairView, now: u64, turns: nat)
    requires
        pair_exact(w, SELFTEST_XFER),
        has_room(w),
        has_heard(w.cli.state) || w == trial() && now == 0,
    ensures
        verdict(w, now, turns) != result::DATA_MISMATCH,
    decreases turns,
{
    if turns > 0 {
        let next = (now + 1) as u64;
        lemma_turn_exact(w, next);
        let u = inspected(
            supplied(exchanged(driven(w, next)), SELFTEST_XFER, CHUNK),
            CHUNK,
        )->Ok_0;
        lemma_verdict_exact(wound_up(u, SELFTEST_XFER), next, (turns - 1) as nat);
    }
}

/// The self-test never finds a byte that is not the one that was sent, however long it
/// goes on.
pub proof fn law_no_byte_is_wrong(turns: nat)
    ensures
        verdict(trial(), 0, turns) != result::DATA_MISMATCH,
{
    lemma_opening_exact(SELFTEST_BUF, SELFTEST_XFER);
    lemma_verdict_exact(trial(), 0, turns);
}

/// Lets the packets of both sides arrive.
fn exchange(w: &mut Pair<SELFTEST_BUF>)
    requires
        old(w).wf(),
    ensures
        final(w).wf(),
        final(w)@ == exchanged(old(w)@),
{
    proof {
        reveal(exchanged);
    }
    ferry(&mut w.cli, &mut w.srv);
    ferry(&mut w.srv, &mut w.cli);
}

/// Sets the run up.
fn begin() -> (r: Result<Pair<SELFTEST_BUF>, i32>)
    ensures
        r matches Ok(w) && w.wf() && w@ == trial(),
{
    proof {
        assert(crate::ring::is_power_of_two(SELFTEST_BUF as nat)) by {
            reveal_with_fuel(crate::ring::is_power_of_two, 16);
        }
    }
    let mut w = match Pair::<SELFTEST_BUF>::new() {
        Some(w) => w,
        None => {
            return Err(result::INIT_FAILED);
        },
    };
    if w.srv.listen().is_err() || w.cli.connect().is_err() {
        return Err(result::SETUP_FAILED);
    }
    Ok(w)
}

/// Lets two connections transfer data to each other and close. Returns
/// [`result::OK`], or the code of what went wrong. Setting the run up never fails, no
/// step of it does, and no byte that arrives is wrong.
pub fn self_conformance() -> (code: i32)
    ensures
        code == verdict(trial(), 0, MAX_TURNS as nat),
        code == result::OK || code == result::NO_CONVERGENCE,
{
    proof {
        law_no_byte_is_wrong(MAX_TURNS as nat);
    }
    let mut w = match begin() {
        Ok(w) => w,
        Err(code) => {
            return code;
        },
    };
    let mut turn: u32 = 0;
    while turn < MAX_TURNS
        invariant
            w.wf(),
            turn <= MAX_TURNS,
            verdict(w@, turn as u64, (MAX_TURNS - turn) as nat) == verdict(
                trial(),
                0,
                MAX_TURNS as nat,
            ),
            verdict(trial(), 0, MAX_TURNS as nat) != result::DATA_MISMATCH,
        decreases MAX_TURNS - turn,
    {
        w.drive(turn as u64 + 1);
        exchange(&mut w);
        w.supply(SELFTEST_XFER, CHUNK);
        if w.inspect(CHUNK).is_err() {
            return result::DATA_MISMATCH;
        }
        w.wind_up(SELFTEST_XFER);
        if w.is_done() {
            return result::OK;
        }
        turn = turn + 1;
    }
    result::NO_CONVERGENCE
}

} // verus!
