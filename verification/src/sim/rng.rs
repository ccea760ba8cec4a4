//! Random numbers that a seed fixes.

use crate::sim::link::Fate;
use vstd::prelude::*;

verus! {

/// The next state of the generator (xorshift64*).
pub open spec fn stepped(x: u64) -> u64 {
    let a = x ^ (x >> 12u64);
    let b = a ^ (a << 25u64);
    b ^ (b >> 27u64)
}

/// The number that a state stands for.
pub open spec fn scrambled(x: u64) -> u64 {
    x.wrapping_mul(0x2545_F491_4F6C_DD1D)
}

/// An event happens for the number `x`, with a probability of `threshold` out of
/// `2^53`.
pub open spec fn happens(x: u64, threshold: u64) -> bool {
    x / 2048 < threshold
}

/// A generator.
#[derive(Copy, Clone, Debug, PartialEq, Eq, Structural)]
pub struct Rng {
    pub state: u64,
}

impl Rng {
    /// The next number.
    pub fn next(&mut self) -> (n: u64)
        ensures
            final(self).state == stepped(old(self).state),
            n == scrambled(stepped(old(self).state)),
    {
        let mut x: u64 = self.state;
        x = x ^ (x >> 12u64);
        x = x ^ (x << 25u64);
        x = x ^ (x >> 27u64);
        self.state = x;
        x.wrapping_mul(0x2545_F491_4F6C_DD1D)
    }

    /// Whether an event happens that has a probability of `threshold` out of `2^53`.
    pub fn chance(&mut self, threshold: u64) -> (b: bool)
        ensures
            final(self).state == stepped(old(self).state),
            b == happens(scrambled(stepped(old(self).state)), threshold),
    {
        self.next() / 2048 < threshold
    }
}

/// How bad a link is. Each field is a probability out of `2^53`; zero asks no
/// random number.
#[derive(Copy, Clone, Debug, PartialEq, Eq, Structural)]
pub struct Chaos {
    pub lost: u64,
    pub repeated: u64,
    pub reordered: u64,
}

/// Whether an event happens, and the state after the question.
pub open spec fn asked(state: u64, threshold: u64) -> (bool, u64) {
    if threshold > 0 {
        (happens(scrambled(stepped(state)), threshold), stepped(state))
    } else {
        (false, state)
    }
}

/// How many turns a packet takes, and the state after the question.
pub open spec fn held_back(state: u64, threshold: u64) -> (u64, u64) {
    let (late, s) = asked(state, threshold);
    if late {
        ((2 + scrambled(stepped(s)) % 3) as u64, stepped(s))
    } else {
        (0, s)
    }
}

/// What becomes of the next packet, and the state after that is known: a packet that
/// is not lost may be held back for a few turns, and may arrive twice.
pub open spec fn drawn(state: u64, c: Chaos) -> (Fate, u64) {
    let (drop, s) = asked(state, c.lost);
    if drop {
        (Fate { drop: true, dup: false, delay: 0 }, s)
    } else {
        let (delay, t) = held_back(s, c.reordered);
        let (dup, u) = asked(t, c.repeated);
        (Fate { drop: false, dup, delay }, u)
    }
}

impl Rng {
    fn ask(&mut self, threshold: u64) -> (b: bool)
        ensures
            (b, final(self).state) == asked(old(self).state, threshold),
    {
        threshold > 0 && self.chance(threshold)
    }

    fn hold_back(&mut self, threshold: u64) -> (delay: u64)
        ensures
            (delay, final(self).state) == held_back(old(self).state, threshold),
            delay <= 4,
    {
        if self.ask(threshold) {
            2 + self.next() % 3
        } else {
            0
        }
    }

    /// Draws what becomes of the next packet.
    pub fn draw(&mut self, c: Chaos) -> (fate: Fate)
        ensures
            (fate, final(self).state) == drawn(old(self).state, c),
            fate.delay <= 4,
    {
        if self.ask(c.lost) {
            return Fate { drop: true, dup: false, delay: 0 };
        }
        let delay: u64 = self.hold_back(c.reordered);
        let dup: bool = self.ask(c.repeated);
        Fate { drop: false, dup, delay }
    }
}

/// Chances are what they are called: what never happens never does, what always happens
/// always does, and what is likelier happens whenever what is less likely does.
pub proof fn law_chances_are_ordered(x: u64, less: u64, more: u64)
    requires
        less <= more,
    ensures
        !happens(x, 0),
        happens(x, 0x20_0000_0000_0000),
        happens(x, less) ==> happens(x, more),
{
}

/// A link that loses, repeats and holds back nothing lets every packet through at once, and
/// asks no random number; one that loses everything lets none through.
pub proof fn law_extremes_are_certain(state: u64, c: Chaos)
    ensures
        c.lost == 0 && c.repeated == 0 && c.reordered == 0 ==> drawn(state, c) == (
            (Fate { drop: false, dup: false, delay: 0 }),
            state,
        ),
        c.lost >= 0x20_0000_0000_0000 ==> drawn(state, c).0.drop,
        c.lost == 0 ==> !drawn(state, c).0.drop,
        c.repeated == 0 ==> !drawn(state, c).0.dup,
        c.reordered == 0 ==> drawn(state, c).0.delay == 0,
        c.reordered >= 0x20_0000_0000_0000 && c.lost == 0 ==> 2 <= drawn(state, c).0.delay <= 4,
        c.repeated >= 0x20_0000_0000_0000 && c.lost == 0 ==> drawn(state, c).0.dup,
{
}

} // verus!
