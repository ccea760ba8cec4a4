//! A transfer both ways over links that input bytes make bad, with a watch on both
//! connections.
//!
//! While the input lasts, its bytes lose, repeat and delay packets; after that the
//! links are reliable, so that a transfer that does not complete shows a deadlock.
//! In every turn the watch checks that both connections are consistent, that neither
//! is silent for good, and that neither goes back in its sequence numbers.

use crate::num::{max_u64, min_u32};
use crate::seq::seq_ge;
use crate::sim::chaos::{after, byte_at, next_byte};
use crate::sim::exact::{
    client, has_room, known, lemma_connected_exact, lemma_listening_exact, lemma_net_exchanged,
    lemma_new_pair, lemma_pair_driven, lemma_pair_sound, lemma_pair_turn, net_exact, server,
};
use crate::sim::idle::{
    lemma_driven_dry, lemma_exchanged_dry, lemma_new_dry, lemma_turn_dry, net_dry,
};
use crate::sim::link::Link;
use crate::sim::net::{exchanged, silent, Dice, DiceView, Net, NetView};
use crate::sim::pair::{done, driven, inspected, paired, supplied, wound_up, Mismatch, Pair, Side};
use crate::sim::rng::{Chaos, Rng};
use crate::sim::stream::{new_client, new_server};
use crate::state::{synchronized, State};
use crate::tcb::model::{
    breach, connected, earlier, keepalive_set, listening, next_output, stall, user_timeout_set,
    TcbView,
};
use crate::tcb::laws::calls::untouched;
use crate::tcb::laws::dry::{dry, lemma_opened_dry};
use crate::tcb::laws::outbound::{lemma_same_out, same_out};
use crate::tcb::laws::soundness::{law_sound_breaks_nothing, sound};
use crate::tcb::laws::stream::{lemma_same_recv, same_recv};
use crate::tcb::Tcb;
use vstd::prelude::*;

verus! {

/// Most bytes handed over in one call.
pub const ENGINE_CHUNK: u32 = 4096;

/// Most turns of a run.
pub const ENGINE_TURNS: u64 = 3_000_000;

/// Silent turns after which a connection counts as deadlocked.
pub const STALL_LIMIT: u32 = 16_384;

/// Most packets that are lost.
pub const DROP_BUDGET: u32 = 4000;

/// Turns after which the links are reliable.
pub const CHAOS_TURNS: u64 = 400_000;

/// Time after which the links are reliable, in milliseconds.
pub const CHAOS_MS: u64 = 30_000;

/// What can be wrong with a run.
#[derive(Copy, Clone, Debug, PartialEq, Eq, Structural)]
pub enum Trouble {
    /// The variables of a connection contradict each other.
    Inconsistent(Side),
    /// A connection has something to do and no timer that would do it.
    Stalled(Side),
    /// A received byte was not the one that was sent.
    Corrupt(Mismatch),
    /// The oldest unacknowledged byte of a connection moved back.
    UnaRegressed(Side),
    /// The next byte that a connection expects moved back.
    RcvRegressed(Side),
    /// The transfer did not complete.
    Deadlock,
}

/// What the watch remembers of a connection.
#[derive(Copy, Clone, Debug, PartialEq, Eq, Structural)]
pub struct Watch {
    pub una: u32,
    pub rcv: u32,
    pub sync: bool,
    pub stalls: u32,
}

/// What the watch knows of a connection that it has just seen.
pub open spec fn seen(s: TcbView, w: Watch) -> Watch {
    Watch { una: s.snd_una, rcv: s.rcv_nxt, sync: synchronized(s.state), stalls: w.stalls }
}

/// The count of silent turns in which the connection had something to do and no
/// timer for it.
pub open spec fn stalls_after(s: TcbView, quiet: bool, w: Watch) -> u32 {
    if quiet && stall(s) is Some {
        (w.stalls + 1) as u32
    } else {
        0
    }
}

/// The acknowledgements went back between two synchronised states.
pub open spec fn una_back(s: TcbView, w: Watch) -> bool {
    w.sync && synchronized(s.state) && !seq_ge(s.snd_una, w.una)
}

/// What was received went back between two synchronised states.
pub open spec fn rcv_back(s: TcbView, w: Watch) -> bool {
    w.sync && synchronized(s.state) && !seq_ge(s.rcv_nxt, w.rcv)
}

/// A run: the connections and links, the clock, the watch, whether both connections
/// have been established, and whether the links were silent after the last turn.
pub struct RunView {
    pub net: NetView,
    pub now: u64,
    pub cli: Watch,
    pub srv: Watch,
    pub both: bool,
    pub quiet: bool,
}

/// The clock after the next input byte, which says how much time passes.
pub open spec fn next_time(r: RunView) -> u64 {
    let dt = 1 + byte_at(r.net.dice.data, r.net.dice.fi) % 40;
    crate::num::min(r.now + dt, u64::MAX as int) as u64
}

/// Time passes and the timers are driven.
#[verifier::opaque]
pub open spec fn clocked(r: RunView) -> RunView {
    let d = r.net.dice;
    RunView {
        net: NetView {
            pair: driven(r.net.pair, next_time(r)),
            dice: DiceView { fi: after(d.data, d.fi), ..d },
            ..r.net
        },
        now: next_time(r),
        ..r
    }
}

/// What is wrong with a connection after its timers were driven.
pub open spec fn unsound(r: RunView) -> Option<Trouble> {
    if breach(r.net.pair.cli) is Some {
        Some(Trouble::Inconsistent(Side::Client))
    } else if breach(r.net.pair.srv) is Some {
        Some(Trouble::Inconsistent(Side::Server))
    } else if stalls_after(r.net.pair.cli, r.quiet, r.cli) >= STALL_LIMIT {
        Some(Trouble::Stalled(Side::Client))
    } else if stalls_after(r.net.pair.srv, r.quiet, r.srv) >= STALL_LIMIT {
        Some(Trouble::Stalled(Side::Server))
    } else {
        None
    }
}

/// The watch after the timers were driven.
#[verifier::opaque]
pub open spec fn noted(r: RunView) -> RunView {
    RunView {
        cli: Watch { stalls: stalls_after(r.net.pair.cli, r.quiet, r.cli), ..r.cli },
        srv: Watch { stalls: stalls_after(r.net.pair.srv, r.quiet, r.srv), ..r.srv },
        both: r.both || (r.net.pair.cli.state is Established
            && r.net.pair.srv.state is Established),
        ..r
    }
}

/// The links are bad in this turn.
pub open spec fn is_lossy(r: RunView, iter: u64) -> bool {
    &&& r.net.dice.fi < r.net.dice.data.len()
    &&& iter < CHAOS_TURNS
    &&& r.now < CHAOS_MS
    &&& r.net.dice.budget > 0
    &&& r.both
    &&& !r.net.pair.closing
}

/// The links carry what is due, and both sides are handed more to send.
#[verifier::opaque]
pub open spec fn worked(r: RunView, iter: u64, xfer: u32, chunk: u32) -> RunView {
    let net = exchanged(r.net, iter, is_lossy(r, iter));
    RunView { net: NetView { pair: supplied(net.pair, xfer, chunk), ..net }, ..r }
}

/// Both sides are read from.
#[verifier::opaque]
pub open spec fn read(r: RunView) -> Result<RunView, Trouble> {
    match inspected(r.net.pair, ENGINE_CHUNK) {
        Err(m) => Err(Trouble::Corrupt(m)),
        Ok(pair) => Ok(RunView { net: NetView { pair, ..r.net }, ..r }),
    }
}

/// What went back.
pub open spec fn gone_back(r: RunView) -> Option<Trouble> {
    if una_back(r.net.pair.cli, r.cli) {
        Some(Trouble::UnaRegressed(Side::Client))
    } else if rcv_back(r.net.pair.cli, r.cli) {
        Some(Trouble::RcvRegressed(Side::Client))
    } else if una_back(r.net.pair.srv, r.srv) {
        Some(Trouble::UnaRegressed(Side::Server))
    } else if rcv_back(r.net.pair.srv, r.srv) {
        Some(Trouble::RcvRegressed(Side::Server))
    } else {
        None
    }
}

/// The watch has seen both connections, and both sides close once everything has
/// been transferred.
#[verifier::opaque]
pub open spec fn settled(r: RunView, xfer: u32) -> RunView {
    RunView {
        net: NetView { pair: wound_up(r.net.pair, xfer), ..r.net },
        cli: seen(r.net.pair.cli, r.cli),
        srv: seen(r.net.pair.srv, r.srv),
        ..r
    }
}

/// When nothing is on its way, the clock moves on to the next timer.
#[verifier::opaque]
pub open spec fn forwarded(r: RunView) -> RunView {
    RunView {
        now: match earlier(next_output(r.net.pair.cli), next_output(r.net.pair.srv)) {
            Some(d) => if silent(r.net) && d > r.now {
                d
            } else {
                r.now
            },
            None => r.now,
        },
        quiet: silent(r.net),
        ..r
    }
}

/// What the run comes to from turn `iter` on, within `turns` more turns.
pub open spec fn outcome(
    r: RunView,
    iter: u64,
    xfer: u32,
    chunk: u32,
    turns: nat,
) -> Result<(), Trouble>
    decreases turns,
{
    let a = clocked(r);
    if turns == 0 {
        Err(Trouble::Deadlock)
    } else if unsound(a) is Some {
        Err(unsound(a)->0)
    } else {
        match read(worked(noted(a), iter, xfer, chunk)) {
            Err(t) => Err(t),
            Ok(b) => if gone_back(b) is Some {
                Err(gone_back(b)->0)
            } else {
                let c = settled(b, xfer);
                if done(c.net.pair) && silent(c.net) {
                    Ok(())
                } else {
                    outcome(forwarded(c), (iter + 1) as u64, xfer, chunk, (turns - 1) as nat)
                }
            },
        }
    }
}

/// A connection that is not given up for want of progress or of life, since the
/// clock of the run jumps.
pub open spec fn patient(s: TcbView) -> TcbView {
    keepalive_set(user_timeout_set(s, 0), 0, 0, 0)
}

/// The run before its first turn.
pub open spec fn starting(buf: usize, data: Seq<u8>) -> RunView {
    let cli = connected(patient(new_client(buf)));
    let srv = listening(patient(new_server(buf)));
    RunView {
        net: NetView {
            pair: paired(cli, srv),
            c2s: Seq::empty(),
            s2c: Seq::empty(),
            dice: DiceView {
                random: false,
                data,
                fi: 0,
                budget: DROP_BUDGET,
                rng: 0,
                chaos: Chaos { lost: 0, repeated: 0, reordered: 0 },
            },
        },
        now: 0,
        cli: Watch { una: cli.snd_una, rcv: cli.rcv_nxt, sync: false, stalls: 0 },
        srv: Watch { una: srv.snd_una, rcv: srv.rcv_nxt, sync: false, stalls: 0 },
        both: false,
        quiet: false,
    }
}

proof fn lemma_outcome_exact(r: RunView, iter: u64, xfer: u32, chunk: u32, turns: nat)
    requires
        net_exact(r.net, xfer),
        has_room(r.net.pair),
    ensures
        !(outcome(r, iter, xfer, chunk, turns) matches Err(Trouble::Corrupt(_))),
        !(outcome(r, iter, xfer, chunk, turns) matches Err(Trouble::Inconsistent(_))),
    decreases turns,
{
    let a = clocked(r);
    assert(net_exact(a.net, xfer)) by {
        reveal(clocked);
        lemma_pair_driven(r.net.pair, next_time(r), xfer);
    }
    lemma_pair_sound(a.net.pair, xfer);
    law_sound_breaks_nothing(a.net.pair.cli);
    law_sound_breaks_nothing(a.net.pair.srv);
    if turns > 0 && unsound(a) is None {
        let n = noted(a);
        assert(n.net == a.net) by {
            reveal(noted);
        }
        let w = worked(n, iter, xfer, chunk);
        let x = exchanged(n.net, iter, is_lossy(n, iter));
        lemma_net_exchanged(n.net, iter, is_lossy(n, iter), xfer);
        lemma_pair_turn(x.pair, xfer, chunk, ENGINE_CHUNK);
        reveal(worked);
        reveal(read);
        let b = read(w)->Ok_0;
        if gone_back(b) is None {
            let c = settled(b, xfer);
            let d = forwarded(c);
            assert(net_exact(d.net, xfer) && has_room(d.net.pair)) by {
                reveal(settled);
                reveal(forwarded);
            }
            lemma_outcome_exact(d, (iter + 1) as u64, xfer, chunk, (turns - 1) as nat);
        }
    }
}

proof fn lemma_outcome_dry(r: RunView, iter: u64, chunk: u32, turns: nat)
    requires
        net_dry(r.net),
    ensures
        !(outcome(r, iter, 0, chunk, turns) matches Err(Trouble::Corrupt(_))),
    decreases turns,
{
    let a = clocked(r);
    if turns > 0 && unsound(a) is None {
        assert(net_dry(a.net)) by {
            reveal(clocked);
            lemma_driven_dry(r.net.pair, next_time(r));
        }
        let n = noted(a);
        assert(n.net == a.net) by {
            reveal(noted);
        }
        let w = worked(n, iter, 0, chunk);
        let x = exchanged(n.net, iter, is_lossy(n, iter));
        lemma_exchanged_dry(n.net, iter, is_lossy(n, iter));
        lemma_turn_dry(x.pair, chunk, ENGINE_CHUNK);
        reveal(worked);
        reveal(read);
        let b = read(w)->Ok_0;
        if gone_back(b) is None {
            let d = forwarded(settled(b, 0));
            assert(net_dry(d.net)) by {
                reveal(settled);
                reveal(forwarded);
            }
            lemma_outcome_dry(d, (iter + 1) as u64, chunk, (turns - 1) as nat);
        }
    }
}

/// A run of nothing starts dry.
proof fn lemma_starting_dry(buf: usize, data: Seq<u8>)
    ensures
        net_dry(starting(buf, data).net),
{
    lemma_new_dry(buf);
    let (c, v) = (patient(new_client(buf)), patient(new_server(buf)));
    assert(dry(c) && dry(v)) by {
        reveal(keepalive_set);
        reveal(user_timeout_set);
    }
    lemma_opened_dry(c);
    lemma_opened_dry(v);
}

/// A run starts in order.
proof fn lemma_starting_exact(buf: usize, data: Seq<u8>, xfer: u32)
    requires
        buf <= 0x4000_0000,
        0 < xfer < u32::MAX,
    ensures
        net_exact(starting(buf, data).net, xfer),
        has_room(starting(buf, data).net.pair),
{
    lemma_new_pair(buf, xfer);
    let c = new_client(buf);
    let v = new_server(buf);
    let (f, g) = (known(client(), xfer), known(server(), xfer));
    assert(same_out(c, patient(c)) && same_out(v, patient(v)) && same_recv(c, patient(c))
        && same_recv(v, patient(v)) && sound(patient(c)) && sound(patient(v)) && untouched(
        patient(c),
    ) && patient(c).state == c.state && patient(v).state == v.state) by {
        reveal(keepalive_set);
        reveal(user_timeout_set);
    }
    lemma_same_out(c, patient(c), f);
    lemma_same_out(v, patient(v), g);
    lemma_same_recv(c, patient(c), g);
    lemma_same_recv(v, patient(v), f);
    lemma_connected_exact(patient(c), client(), server(), xfer);
    lemma_listening_exact(patient(v), server(), client(), xfer);
}

/// No run finds a byte that is not the one that was sent or, where there is something to
/// transfer, a connection that contradicts itself: whatever the input bytes lose, repeat
/// and delay, and however long it goes on. (With nothing to transfer a connection may be
/// closed while it is half open, which its consistency does not cover.)
pub proof fn law_no_byte_is_wrong(buf: usize, data: Seq<u8>, xfer: u32, chunk: u32, turns: nat)
    requires
        buf <= 0x4000_0000,
        xfer < u32::MAX,
    ensures
        !(outcome(starting(buf, data), 0, xfer, chunk, turns) matches Err(Trouble::Corrupt(_))),
        xfer > 0 ==> !(outcome(starting(buf, data), 0, xfer, chunk, turns) matches Err(
            Trouble::Inconsistent(_),
        )),
{
    if xfer == 0 {
        lemma_starting_dry(buf, data);
        lemma_outcome_dry(starting(buf, data), 0, chunk, turns);
    } else {
        lemma_starting_exact(buf, data, xfer);
        lemma_outcome_exact(starting(buf, data), 0, xfer, chunk, turns);
    }
}

/// A run.
struct Run<'a, const BUF: usize> {
    net: Net<'a, BUF>,
    now: u64,
    cli: Watch,
    srv: Watch,
    both: bool,
    quiet: bool,
}

/// The count of silent turns with something to do and no timer for it.
fn count_stalls<const BUF: usize>(t: &Tcb<BUF>, quiet: bool, w: &Watch) -> (n: u32)
    requires
        t.wf(),
        w.stalls < STALL_LIMIT,
    ensures
        n == stalls_after(t@, quiet, *w),
        n <= STALL_LIMIT,
{
    if quiet && t.debug_check_liveness().is_err() {
        w.stalls + 1
    } else {
        0
    }
}

/// What the watch knows of a connection that it sees.
fn see<const BUF: usize>(t: &Tcb<BUF>, w: &Watch) -> (v: Watch)
    ensures
        v == seen(t@, *w),
{
    Watch { una: t.snd_una, rcv: t.rcv_nxt, sync: t.state().is_synchronized(), stalls: w.stalls }
}

impl<'a, const BUF: usize> Run<'a, BUF> {
    spec fn view(&self) -> RunView {
        RunView {
            net: self.net@,
            now: self.now,
            cli: self.cli,
            srv: self.srv,
            both: self.both,
            quiet: self.quiet,
        }
    }

    spec fn wf(&self) -> bool {
        self.net.wf() && self.cli.stalls < STALL_LIMIT && self.srv.stalls < STALL_LIMIT
    }

    /// Lets time pass and drives the timers.
    fn clock(&mut self)
        requires
            old(self).wf(),
        ensures
            final(self).wf(),
            final(self)@ == clocked(old(self)@),
    {
        proof {
            reveal(clocked);
        }
        let dt: u64 = 1 + (next_byte(self.net.dice.data, &mut self.net.dice.fi) % 40) as u64;
        self.now = self.now.saturating_add(dt);
        self.net.pair.drive(self.now);
    }

    /// What is wrong with a connection after its timers were driven.
    fn find_unsound(&self) -> (t: Option<Trouble>)
        requires
            self.wf(),
        ensures
            t == unsound(self@),
    {
        if self.net.pair.cli.debug_validate_invariants().is_err() {
            return Some(Trouble::Inconsistent(Side::Client));
        }
        if self.net.pair.srv.debug_validate_invariants().is_err() {
            return Some(Trouble::Inconsistent(Side::Server));
        }
        if count_stalls(&self.net.pair.cli, self.quiet, &self.cli) >= STALL_LIMIT {
            return Some(Trouble::Stalled(Side::Client));
        }
        if count_stalls(&self.net.pair.srv, self.quiet, &self.srv) >= STALL_LIMIT {
            return Some(Trouble::Stalled(Side::Server));
        }
        None
    }

    /// Notes what the watch saw after the timers were driven.
    fn note(&mut self)
        requires
            old(self).wf(),
            unsound(old(self)@) is None,
        ensures
            final(self).wf(),
            final(self)@ == noted(old(self)@),
    {
        proof {
            reveal(noted);
        }
        let c: u32 = count_stalls(&self.net.pair.cli, self.quiet, &self.cli);
        let s: u32 = count_stalls(&self.net.pair.srv, self.quiet, &self.srv);
        self.cli = Watch { una: self.cli.una, rcv: self.cli.rcv, sync: self.cli.sync, stalls: c };
        self.srv = Watch { una: self.srv.una, rcv: self.srv.rcv, sync: self.srv.sync, stalls: s };
        self.both = self.both || (self.net.pair.cli.state() == State::Established
            && self.net.pair.srv.state() == State::Established);
    }

    /// The links are bad in this turn.
    fn lossy(&self, iter: u64) -> (b: bool)
        ensures
            b == is_lossy(self@, iter),
    {
        self.net.dice.fi < self.net.dice.data.len() && iter < CHAOS_TURNS && self.now < CHAOS_MS
            && self.net.dice.budget > 0 && self.both && !self.net.pair.closing
    }

    /// Lets the links carry what is due, and hands both sides more to send.
    fn work(&mut self, iter: u64, xfer: u32, chunk: u32)
        requires
            old(self).wf(),
            iter < ENGINE_TURNS,
        ensures
            final(self).wf(),
            final(self)@ == worked(old(self)@, iter, xfer, chunk),
    {
        proof {
            reveal(worked);
        }
        let lossy: bool = self.lossy(iter);
        self.net.exchange(iter, lossy);
        self.net.pair.supply(xfer, chunk);
    }

    /// Reads from both sides.
    fn read(&mut self) -> (r: Result<(), Trouble>)
        requires
            old(self).wf(),
        ensures
            final(self).wf(),
            match read(old(self)@) {
                Ok(v) => r is Ok && final(self)@ == v,
                Err(t) => r == Err::<(), Trouble>(t),
            },
    {
        proof {
            reveal(read);
        }
        match self.net.pair.inspect(ENGINE_CHUNK) {
            Ok(()) => Ok(()),
            Err(m) => Err(Trouble::Corrupt(m)),
        }
    }

    /// What went back.
    fn find_gone_back(&self) -> (t: Option<Trouble>)
        ensures
            t == gone_back(self@),
    {
        let c = &self.net.pair.cli;
        let s = &self.net.pair.srv;
        let cli: bool = self.cli.sync && c.state().is_synchronized();
        let srv: bool = self.srv.sync && s.state().is_synchronized();
        if cli && !seq_ge(c.snd_una, self.cli.una) {
            return Some(Trouble::UnaRegressed(Side::Client));
        }
        if cli && !seq_ge(c.rcv_nxt, self.cli.rcv) {
            return Some(Trouble::RcvRegressed(Side::Client));
        }
        if srv && !seq_ge(s.snd_una, self.srv.una) {
            return Some(Trouble::UnaRegressed(Side::Server));
        }
        if srv && !seq_ge(s.rcv_nxt, self.srv.rcv) {
            return Some(Trouble::RcvRegressed(Side::Server));
        }
        None
    }

    /// Lets the watch see both connections, and closes them once everything has been
    /// transferred.
    fn settle(&mut self, xfer: u32)
        requires
            old(self).wf(),
        ensures
            final(self).wf(),
            final(self)@ == settled(old(self)@, xfer),
    {
        proof {
            reveal(settled);
        }
        self.cli = see(&self.net.pair.cli, &self.cli);
        self.srv = see(&self.net.pair.srv, &self.srv);
        self.net.pair.wind_up(xfer);
    }

    /// Moves the clock on to the next timer when nothing is on its way.
    fn forward(&mut self)
        requires
            old(self).wf(),
        ensures
            final(self).wf(),
            final(self)@ == forwarded(old(self)@),
    {
        proof {
            reveal(forwarded);
        }
        self.quiet = self.net.is_silent();
        let c: Option<u64> = self.net.pair.cli.debug_next_deadline();
        let s: Option<u64> = self.net.pair.srv.debug_next_deadline();
        if self.quiet {
            if let Some(d) = crate::tcb::host::earlier_of(c, s) {
                self.now = max_u64(self.now, d);
            }
        }
    }
}

/// Makes a connection patient.
fn make_patient<const BUF: usize>(t: &mut Tcb<BUF>)
    requires
        old(t).wf(),
    ensures
        final(t).wf(),
        final(t)@ == patient(old(t)@),
{
    t.set_user_timeout(0);
    t.set_keepalive(0, 0, 0);
}

/// Transfers `xfer` bytes each way over links that `data` makes bad, at most
/// `send_cap` bytes at a time, and closes both sides. `None` when `BUF` is not a
/// power of two.
#[verifier::rlimit(30)]
pub fn run<const BUF: usize>(
    data: &[u8],
    xfer: u32,
    send_cap: u32,
) -> (r: Option<Result<(), Trouble>>)
    requires
        BUF <= u32::MAX,
    ensures
        r == (if crate::ring::is_power_of_two(BUF as nat) {
            Some(
                outcome(
                    starting(BUF, data@),
                    0,
                    xfer,
                    crate::num::min(send_cap as int, ENGINE_CHUNK as int) as u32,
                    ENGINE_TURNS as nat,
                ),
            )
        } else {
            None
        }),
        BUF <= 0x4000_0000 && xfer < u32::MAX ==> !(r matches Some(
            Err(Trouble::Corrupt(_)),
        )),
{
    let chunk: u32 = min_u32(send_cap, ENGINE_CHUNK);
    proof {
        if BUF <= 0x4000_0000 && xfer < u32::MAX {
            law_no_byte_is_wrong(BUF, data@, xfer, chunk, ENGINE_TURNS as nat);
        }
    }
    let mut pair = match Pair::<BUF>::new() {
        Some(p) => p,
        None => {
            return None;
        },
    };
    make_patient(&mut pair.cli);
    make_patient(&mut pair.srv);
    assert(pair@.cli.state is Closed && pair@.srv.state is Closed) by {
        reveal(keepalive_set);
        reveal(user_timeout_set);
    }
    if pair.srv.listen().is_err() || pair.cli.connect().is_err() {
        return None;
    }
    let cli = Watch { una: pair.cli.snd_una, rcv: pair.cli.rcv_nxt, sync: false, stalls: 0 };
    let srv = Watch { una: pair.srv.snd_una, rcv: pair.srv.rcv_nxt, sync: false, stalls: 0 };
    let dice = Dice {
        random: false,
        data,
        fi: 0,
        budget: DROP_BUDGET,
        rng: Rng { state: 0 },
        chaos: Chaos { lost: 0, repeated: 0, reordered: 0 },
    };
    let net = Net { pair, c2s: Link::new(), s2c: Link::new(), dice };
    let mut w = Run { net, now: 0, cli, srv, both: false, quiet: false };
    let mut iter: u64 = 0;
    let ghost goal = outcome(starting(BUF, data@), 0, xfer, chunk, ENGINE_TURNS as nat);
    while iter < ENGINE_TURNS
        invariant
            w.wf(),
            iter <= ENGINE_TURNS,
            outcome(w@, iter, xfer, chunk, (ENGINE_TURNS - iter) as nat) == goal,
            goal == outcome(starting(BUF, data@), 0, xfer, chunk, ENGINE_TURNS as nat),
            chunk == crate::num::min(send_cap as int, ENGINE_CHUNK as int) as u32,
            crate::ring::is_power_of_two(BUF as nat),
            BUF <= 0x4000_0000 && xfer < u32::MAX ==> !(goal matches Err(Trouble::Corrupt(_))),
        decreases ENGINE_TURNS - iter,
    {
        w.clock();
        if let Some(t) = w.find_unsound() {
            return Some(Err(t));
        }
        w.note();
        w.work(iter, xfer, chunk);
        if let Err(t) = w.read() {
            return Some(Err(t));
        }
        if let Some(t) = w.find_gone_back() {
            return Some(Err(t));
        }
        w.settle(xfer);
        if w.net.pair.is_done() && w.net.is_silent() {
            return Some(Ok(()));
        }
        w.forward();
        iter = iter + 1;
    }
    Some(Err(Trouble::Deadlock))
}

} // verus!
