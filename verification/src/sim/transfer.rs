//! A transfer both ways over links that random numbers make bad.

use crate::sim::exact::{
    has_room, lemma_net_exchanged, lemma_opening_exact, lemma_pair_driven, lemma_pair_turn,
    net_exact,
};
use crate::sim::idle::{
    lemma_driven_dry, lemma_exchanged_dry, lemma_new_dry, lemma_turn_dry, net_dry,
};
use crate::sim::link::Link;
use crate::sim::net::{exchanged, silent, Dice, DiceView, Net, NetView};
use crate::sim::pair::{
    done, driven, inspected, paired, supplied, wound_up, Mismatch, Pair, PairView,
};
use crate::sim::rng::{Chaos, Rng};
use crate::sim::stream::{new_client, new_server};
use crate::state::State;
use crate::tcb::laws::dry::lemma_opened_dry;
use crate::tcb::model::{connected, listening};
use vstd::prelude::*;

verus! {

/// Most bytes handed over in one call.
pub const TRANSFER_CHUNK: u32 = 8192;

/// Most turns of a transfer.
pub const TRANSFER_TURNS: u64 = 50_000_000;

/// How far a transfer came that did not complete.
#[derive(Copy, Clone, Debug, PartialEq, Eq)]
pub struct Progress {
    pub cli_sent: u32,
    pub cli_recv: u32,
    pub srv_sent: u32,
    pub srv_recv: u32,
    pub cli_state: State,
    pub srv_state: State,
}

/// Why a transfer failed.
#[derive(Copy, Clone, Debug, PartialEq, Eq)]
pub enum TransferError {
    /// The ring size is not a power of two.
    Init,
    /// A connection could not be opened.
    Setup,
    /// A received byte was not the one that was sent.
    Mismatch(Mismatch),
    /// The transfer did not complete within the bound.
    NoConvergence(Progress),
}

/// How far the two connections have come.
pub open spec fn progress(w: PairView) -> Progress {
    Progress {
        cli_sent: w.cli_sent,
        cli_recv: w.cli_recv,
        srv_sent: w.srv_sent,
        srv_recv: w.srv_recv,
        cli_state: w.cli.state,
        srv_state: w.srv.state,
    }
}

/// The links carry what is due in a turn, after a millisecond has passed.
pub open spec fn advanced(w: NetView, iter: u64) -> NetView {
    exchanged(NetView { pair: driven(w.pair, (iter + 1) as u64), ..w }, iter, true)
}

/// What the transfer comes to from turn `iter` on, within `turns` more turns.
pub open spec fn outcome(w: NetView, xfer: u32, iter: u64, turns: nat) -> Result<(), TransferError>
    decreases turns,
{
    if turns == 0 {
        Err(TransferError::NoConvergence(progress(w.pair)))
    } else {
        let a = advanced(w, iter);
        match inspected(supplied(a.pair, xfer, TRANSFER_CHUNK), TRANSFER_CHUNK) {
            Err(m) => Err(TransferError::Mismatch(m)),
            Ok(u) => {
                let b = NetView { pair: wound_up(u, xfer), ..a };
                if done(b.pair) && silent(b) {
                    Ok(())
                } else {
                    outcome(b, xfer, (iter + 1) as u64, (turns - 1) as nat)
                }
            },
        }
    }
}

/// The transfer before its first turn: the server listens and the client connects.
pub open spec fn starting(buf: usize, chaos: Chaos, seed: u64) -> NetView {
    NetView {
        pair: paired(connected(new_client(buf)), listening(new_server(buf))),
        c2s: Seq::empty(),
        s2c: Seq::empty(),
        dice: DiceView {
            random: true,
            data: Seq::empty(),
            fi: 0,
            budget: 0,
            rng: seed | 1,
            chaos,
        },
    }
}

proof fn lemma_outcome_exact(w: NetView, xfer: u32, iter: u64, turns: nat)
    requires
        net_exact(w, xfer),
        has_room(w.pair),
    ensures
        !(outcome(w, xfer, iter, turns) matches Err(TransferError::Mismatch(_))),
    decreases turns,
{
    if turns > 0 {
        let p = driven(w.pair, (iter + 1) as u64);
        lemma_pair_driven(w.pair, (iter + 1) as u64, xfer);
        lemma_net_exchanged(NetView { pair: p, ..w }, iter, true, xfer);
        let a = advanced(w, iter);
        lemma_pair_turn(a.pair, xfer, TRANSFER_CHUNK, TRANSFER_CHUNK);
        let u = inspected(supplied(a.pair, xfer, TRANSFER_CHUNK), TRANSFER_CHUNK)->Ok_0;
        let b = NetView { pair: wound_up(u, xfer), ..a };
        lemma_outcome_exact(b, xfer, (iter + 1) as u64, (turns - 1) as nat);
    }
}

proof fn lemma_outcome_dry(w: NetView, iter: u64, turns: nat)
    requires
        net_dry(w),
    ensures
        !(outcome(w, 0, iter, turns) matches Err(TransferError::Mismatch(_))),
    decreases turns,
{
    if turns > 0 {
        let p = driven(w.pair, (iter + 1) as u64);
        lemma_driven_dry(w.pair, (iter + 1) as u64);
        lemma_exchanged_dry(NetView { pair: p, ..w }, iter, true);
        let a = advanced(w, iter);
        lemma_turn_dry(a.pair, TRANSFER_CHUNK, TRANSFER_CHUNK);
        let u = inspected(supplied(a.pair, 0, TRANSFER_CHUNK), TRANSFER_CHUNK)->Ok_0;
        let b = NetView { pair: wound_up(u, 0), ..a };
        lemma_outcome_dry(b, (iter + 1) as u64, (turns - 1) as nat);
    }
}

/// No transfer over bad links finds a byte that is not the one that was sent: whatever is
/// lost, repeated and delayed, and however long it goes on.
pub proof fn law_no_byte_is_wrong(buf: usize, xfer: u32, chaos: Chaos, seed: u64, turns: nat)
    requires
        buf <= 0x4000_0000,
        xfer < u32::MAX,
    ensures
        !(outcome(starting(buf, chaos, seed), xfer, 0, turns) matches Err(
            TransferError::Mismatch(_),
        )),
{
    if xfer == 0 {
        lemma_new_dry(buf);
        lemma_opened_dry(new_client(buf));
        lemma_opened_dry(new_server(buf));
        lemma_outcome_dry(starting(buf, chaos, seed), 0, turns);
    } else {
        lemma_opening_exact(buf, xfer);
        lemma_outcome_exact(starting(buf, chaos, seed), xfer, 0, turns);
    }
}

/// One turn up to the reading: the clock, the links, and more to send.
fn advance<const BUF: usize>(w: &mut Net<'_, BUF>, xfer: u32, iter: u64)
    requires
        old(w).wf(),
        iter < TRANSFER_TURNS,
    ensures
        final(w).wf(),
        final(w)@ == (NetView {
            pair: supplied(advanced(old(w)@, iter).pair, xfer, TRANSFER_CHUNK),
            ..advanced(old(w)@, iter)
        }),
{
    w.pair.drive(iter + 1);
    w.exchange(iter, true);
    w.pair.supply(xfer, TRANSFER_CHUNK);
}

/// Transfers `xfer` bytes each way over links as bad as `chaos` says, checks the
/// bytes, and closes both sides.
pub fn run_transfer<const BUF: usize>(
    xfer: u32,
    chaos: Chaos,
    seed: u64,
) -> (r: Result<(), TransferError>)
    requires
        BUF <= u32::MAX,
    ensures
        r == (if crate::ring::is_power_of_two(BUF as nat) {
            outcome(starting(BUF, chaos, seed), xfer, 0, TRANSFER_TURNS as nat)
        } else {
            Err(TransferError::Init)
        }),
        BUF <= 0x4000_0000 && xfer < u32::MAX ==> !(r matches Err(TransferError::Mismatch(_))),
{
    proof {
        if BUF <= 0x4000_0000 && xfer < u32::MAX {
            law_no_byte_is_wrong(BUF, xfer, chaos, seed, TRANSFER_TURNS as nat);
        }
    }
    let mut pair = match Pair::<BUF>::new() {
        Some(p) => p,
        None => {
            return Err(TransferError::Init);
        },
    };
    if pair.cli.connect().is_err() || pair.srv.listen().is_err() {
        return Err(TransferError::Setup);
    }
    let none: [u8; 0] = [];
    assert(none@ =~= Seq::<u8>::empty());
    let dice = Dice {
        random: true,
        data: none.as_slice(),
        fi: 0,
        budget: 0,
        rng: Rng { state: seed | 1 },
        chaos,
    };
    let mut w = Net { pair, c2s: Link::new(), s2c: Link::new(), dice };
    let mut iter: u64 = 0;
    while iter < TRANSFER_TURNS
        invariant
            w.wf(),
            iter <= TRANSFER_TURNS,
            outcome(w@, xfer, iter, (TRANSFER_TURNS - iter) as nat) == outcome(
                starting(BUF, chaos, seed),
                xfer,
                0,
                TRANSFER_TURNS as nat,
            ),
            crate::ring::is_power_of_two(BUF as nat),
            BUF <= 0x4000_0000 && xfer < u32::MAX ==> !(outcome(
                starting(BUF, chaos, seed),
                xfer,
                0,
                TRANSFER_TURNS as nat,
            ) matches Err(TransferError::Mismatch(_))),
        decreases TRANSFER_TURNS - iter,
    {
        advance(&mut w, xfer, iter);
        match w.pair.inspect(TRANSFER_CHUNK) {
            Ok(()) => {},
            Err(m) => {
                return Err(TransferError::Mismatch(m));
            },
        }
        w.pair.wind_up(xfer);
        if w.pair.is_done() && w.is_silent() {
            return Ok(());
        }
        iter = iter + 1;
    }
    Err(
        TransferError::NoConvergence(
            Progress {
                cli_sent: w.pair.cli_sent,
                cli_recv: w.pair.cli_recv,
                srv_sent: w.pair.srv_sent,
                srv_recv: w.pair.srv_recv,
                cli_state: w.pair.cli.state(),
                srv_state: w.pair.srv.state(),
            },
        ),
    )
}

} // verus!
