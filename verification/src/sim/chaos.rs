//! Input bytes that decide what a link does.

use crate::sim::link::Fate;
use vstd::prelude::*;

verus! {

/// The byte at position `fi`; beyond the end there are only zeros.
pub open spec fn byte_at(data: Seq<u8>, fi: int) -> u8 {
    if fi < data.len() {
        data[fi]
    } else {
        0
    }
}

/// The position after `fi`; the end is not left again.
pub open spec fn after(data: Seq<u8>, fi: int) -> int {
    if fi < data.len() {
        fi + 1
    } else {
        fi
    }
}

/// Reads the byte at `fi` and moves on.
pub fn next_byte(data: &[u8], fi: &mut usize) -> (b: u8)
    ensures
        b == byte_at(data@, *old(fi) as int),
        *final(fi) == after(data@, *old(fi) as int),
{
    if *fi < data.len() {
        let b: u8 = data[*fi];
        *fi = *fi + 1;
        b
    } else {
        0
    }
}

/// What becomes of a packet for the input byte `b`, while `budget` packets may
/// still be lost. One byte in eight loses the packet, one in four repeats it, and
/// one in four holds it back.
pub open spec fn decided(b: u8, lossy: bool, budget: u32) -> Fate {
    if lossy {
        Fate {
            drop: budget > 0 && b % 8 == 0,
            dup: b / 8 % 4 == 1,
            delay: if b / 32 % 4 == 1 {
                (1 + b % 4) as u64
            } else {
                0
            },
        }
    } else {
        Fate { drop: false, dup: false, delay: 0 }
    }
}

/// The budget after a packet met `fate`.
pub open spec fn spent(budget: u32, fate: Fate) -> u32 {
    if fate.drop {
        (budget - 1) as u32
    } else {
        budget
    }
}

/// Decides what becomes of a packet, and counts a loss against the budget.
pub fn chaos_decide(b: u8, lossy: bool, budget: &mut u32) -> (fate: Fate)
    ensures
        fate == decided(b, lossy, *old(budget)),
        *final(budget) == spent(*old(budget), fate),
        fate.delay <= 4,
{
    if !lossy {
        return Fate { drop: false, dup: false, delay: 0 };
    }
    let drop: bool = *budget > 0 && b % 8 == 0;
    if drop {
        *budget = *budget - 1;
    }
    let dup: bool = b / 8 % 4 == 1;
    let delay: u64 = if b / 32 % 4 == 1 {
        1 + (b % 4) as u64
    } else {
        0
    };
    Fate { drop, dup, delay }
}

/// No more packets are lost than the budget allows, so that a link is reliable in
/// the end.
pub proof fn law_losses_are_bounded(b: u8, lossy: bool, budget: u32)
    ensures
        decided(b, lossy, budget).drop ==> budget > 0 && spent(
            budget,
            decided(b, lossy, budget),
        ) == budget - 1,
        !decided(b, lossy, budget).drop ==> spent(budget, decided(b, lossy, budget)) == budget,
        budget == 0 ==> !decided(b, lossy, budget).drop,
{
}

} // verus!
