//! Egress staging ring: the packets that wait for the host, in the order in
//! which they were emitted.
//!
//! The host pops from the head, emit paths push at the tail, and nothing is
//! ever reordered. Thirty-two slots let one call emit a whole burst before it
//! yields to the host.

use crate::error::TcpError;
use crate::MAX_PACKET;
use vstd::prelude::*;

verus! {

/// Number of staging slots.
pub const TX_RING_CAP: usize = 32;

/// One packet slot: `len` of the `MAX_PACKET` bytes of `buf` are valid.
struct Slot {
    buf: Vec<u8>,
    len: usize,
}

impl Slot {
    spec fn wf(&self) -> bool {
        &&& self.buf@.len() == MAX_PACKET
        &&& self.len <= MAX_PACKET
    }

    spec fn bytes(&self) -> Seq<u8> {
        self.buf@.subrange(0, self.len as int)
    }
}

/// Bounded FIFO of outbound packets. Its view is the packets, oldest first.
pub struct TxRing {
    slots: Vec<Slot>,
    head: usize,
    len: usize,
}

impl View for TxRing {
    type V = Seq<Seq<u8>>;

    closed spec fn view(&self) -> Seq<Seq<u8>> {
        Seq::new(self.len as nat, |i: int| self.slots@[self.slot(i)].bytes())
    }
}

/// The packets staged after a writer that left `bytes` in its buffer reported
/// `w`, and what the push answers.
pub open spec fn push_outcome(
    staged: Seq<Seq<u8>>,
    bytes: Seq<u8>,
    w: Result<usize, TcpError>,
) -> (Seq<Seq<u8>>, Result<bool, TcpError>) {
    match w {
        Err(e) => (staged, Err(e)),
        Ok(n) => if n == 0 || n > MAX_PACKET {
            (staged, Err(TcpError::Overflow))
        } else {
            (staged.push(bytes.subrange(0, n as int)), Ok(true))
        },
    }
}

impl TxRing {
    /// The slots are sound, and no more packets wait than there are slots.
    pub open spec fn wf(&self) -> bool {
        self.slots_ok() && self@.len() <= TX_RING_CAP
    }

    pub closed spec fn slots_ok(&self) -> bool {
        &&& self.slots@.len() == TX_RING_CAP
        &&& forall|i: int| 0 <= i < TX_RING_CAP ==> (#[trigger] self.slots@[i]).wf()
        &&& self.head < TX_RING_CAP
        &&& self.len <= TX_RING_CAP
        &&& forall|i: int|
            0 <= i < self.len ==> 1 <= (#[trigger] self.slots@[self.slot(i)]).len
    }

    spec fn slot(&self, i: int) -> int {
        (self.head + i) % (TX_RING_CAP as int)
    }

    /// Each packet that waits has one to `MAX_PACKET` bytes.
    pub proof fn lemma_packet_lens(&self)
        requires
            self.wf(),
        ensures
            forall|i: int|
                0 <= i < self@.len() ==> 1 <= (#[trigger] self@[i]).len() <= MAX_PACKET,
    {
        assert forall|i: int| 0 <= i < self@.len() implies 1 <= (#[trigger] self@[i]).len()
            <= MAX_PACKET by {
            assert(1 <= self.slots@[self.slot(i)].len);
            assert(self.slots@[self.slot(i)].wf());
        }
    }

    pub fn new() -> (ring: Self)
        ensures
            ring.wf(),
            ring@ == Seq::<Seq<u8>>::empty(),
    {
        let mut slots: Vec<Slot> = Vec::with_capacity(TX_RING_CAP);
        let mut i: usize = 0;
        while i < TX_RING_CAP
            invariant
                i <= TX_RING_CAP,
                slots@.len() == i,
                forall|j: int| 0 <= j < i ==> (#[trigger] slots@[j]).wf(),
            decreases TX_RING_CAP - i,
        {
            slots.push(Slot { buf: vec![0u8; MAX_PACKET], len: 0 });
            i = i + 1;
        }
        let ring = TxRing { slots, head: 0, len: 0 };
        assert(ring@ =~= Seq::<Seq<u8>>::empty());
        ring
    }

    pub fn is_empty(&self) -> (b: bool)
        ensures
            b == (self@.len() == 0),
    {
        self.len == 0
    }

    pub fn is_full(&self) -> (b: bool)
        ensures
            b == (self@.len() == TX_RING_CAP),
    {
        self.len == TX_RING_CAP
    }

    pub fn len(&self) -> (n: usize)
        ensures
            n == self@.len(),
    {
        self.len
    }

    /// Drops every staged packet.
    pub fn clear(&mut self)
        requires
            old(self).wf(),
        ensures
            final(self).wf(),
            final(self)@ == Seq::<Seq<u8>>::empty(),
    {
        self.head = 0;
        self.len = 0;
        assert(self@ =~= Seq::<Seq<u8>>::empty());
    }

    /// Length of the head packet, if there is one.
    pub fn peek_head_len(&self) -> (r: Option<usize>)
        requires
            self.wf(),
        ensures
            self@.len() == 0 ==> r is None,
            self@.len() > 0 ==> r == Some(self@[0].len() as usize) && self@[0].len() <= MAX_PACKET,
    {
        if self.len == 0 {
            return None;
        }
        assert(self.slot(0) == self.head);
        assert(self.slots@[self.head as int].wf());
        Some(self.slots[self.head].len)
    }

    /// Pops the head packet into the front of `out` and returns its length, or 0
    /// when nothing is staged. A packet that does not fit stays staged and gives
    /// `BufferTooSmall`.
    pub fn pop_into(&mut self, out: &mut [u8]) -> (r: Result<usize, TcpError>)
        requires
            old(self).wf(),
        ensures
            final(self).wf(),
            old(self)@.len() == 0 ==> r == Ok::<usize, TcpError>(0) && final(self)@ == old(self)@
                && final(out)@ == old(out)@,
            old(self)@.len() > 0 && old(out)@.len() < old(self)@[0].len() ==> r == Err::<
                usize,
                TcpError,
            >(TcpError::BufferTooSmall) && final(self)@ == old(self)@ && final(out)@ == old(out)@,
            old(self)@.len() > 0 && old(out)@.len() >= old(self)@[0].len() ==> {
                &&& r matches Ok(n) && n == old(self)@[0].len()
                &&& final(self)@ == old(self)@.skip(1)
                &&& final(out)@ == old(self)@[0] + old(out)@.skip(old(self)@[0].len() as int)
            },
    {
        if self.len == 0 {
            return Ok(0);
        }
        assert(self.slot(0) == self.head);
        assert(self.slots@[self.head as int].wf());
        let n: usize = self.slots[self.head].len;
        if out.len() < n {
            return Err(TcpError::BufferTooSmall);
        }
        let mut i: usize = 0;
        while i < n
            invariant
                self.wf(),
                *self == *old(self),
                self.slots@[self.head as int].wf(),
                n == self.slots@[self.head as int].len,
                i <= n <= out@.len(),
                out@.len() == old(out)@.len(),
                forall|j: int|
                    0 <= j < i ==> #[trigger] out@[j] == self.slots@[self.head as int].buf@[j],
                forall|j: int| i <= j < out@.len() ==> #[trigger] out@[j] == old(out)@[j],
            decreases n - i,
        {
            out[i] = self.slots[self.head].buf[i];
            i = i + 1;
        }
        self.head = (self.head + 1) % TX_RING_CAP;
        self.len = self.len - 1;
        proof {
            assert forall|i: int| 0 <= i < self.len implies #[trigger] self.slot(i) == old(
                self,
            ).slot(i + 1) by {}
            assert forall|i: int| 0 <= i < self.len implies 1 <= (#[trigger] self.slots@[self.slot(
                i,
            )]).len by {
                assert(1 <= old(self).slots@[old(self).slot(i + 1)].len);
            }
            assert(out@ =~= old(self)@[0] + old(out)@.skip(old(self)@[0].len() as int));
            assert(self@ =~= old(self)@.skip(1));
        }
        Ok(n)
    }

    /// Stages a packet by letting `f` write it into the tail slot and report its
    /// length: `Ok(true)` when it was staged, `Ok(false)` when the ring is full
    /// (then `f` is not run), and an error when `f` fails or reports a length
    /// outside `1..=MAX_PACKET`.
    pub fn push_with<F>(&mut self, f: F) -> (r: Result<bool, TcpError>) where
        F: FnOnce(&mut [u8]) -> Result<usize, TcpError>,

        requires
            old(self).wf(),
            forall|b: &mut [u8]| b@.len() == MAX_PACKET ==> #[trigger] call_requires(f, (b,)),
            forall|b: &mut [u8], w: Result<usize, TcpError>| #[trigger]
                call_ensures(f, (b,), w) ==> final(b)@.len() == b@.len(),
        ensures
            final(self).wf(),
            old(self)@.len() == TX_RING_CAP ==> r == Ok::<bool, TcpError>(false) && final(self)@
                == old(self)@,
            old(self)@.len() < TX_RING_CAP ==> exists|
                b: &mut [u8],
                w: Result<usize, TcpError>,
            |
                {
                    &&& b@.len() == MAX_PACKET
                    &&& #[trigger] call_ensures(f, (b,), w)
                    &&& (final(self)@, r) == push_outcome(old(self)@, final(b)@, w)
                },
    {
        if self.len == TX_RING_CAP {
            return Ok(false);
        }
        let tail: usize = (self.head + self.len) % TX_RING_CAP;
        let buf: &mut [u8] = self.slots[tail].buf.as_mut_slice();
        let ghost b = buf;
        let w = f(buf);
        assert(self.slots@[tail as int].buf@ == final(b)@);
        proof {
            assert(self.slots@ =~= old(self).slots@.update(tail as int, self.slots@[tail as int]));
            assert(self.slots@[tail as int].wf());
            assert forall|i: int| 0 <= i < self.len implies self.slots@[#[trigger] self.slot(i)]
                == old(self).slots@[old(self).slot(i)] by {
                assert(self.slot(i) != tail);
            }
            assert(self.wf());
            assert(self@ =~= old(self)@);
        }
        let n: usize = match w {
            Ok(n) => n,
            Err(e) => {
                return Err(e);
            },
        };
        if n == 0 || n > MAX_PACKET {
            return Err(TcpError::Overflow);
        }
        self.slots[tail].len = n;
        self.len = self.len + 1;
        proof {
            assert forall|i: int| 0 <= i < self.len implies 1 <= (#[trigger] self.slots@[self.slot(
                i,
            )]).len by {
                if i < self.len - 1 {
                    assert(1 <= old(self).slots@[old(self).slot(i)].len);
                }
            }
        }
        assert(self@ =~= old(self)@.push(final(b)@.subrange(0, n as int)));
        Ok(true)
    }
}

impl Default for TxRing {
    fn default() -> (ring: Self)
        ensures
            ring.wf(),
            ring@ == Seq::<Seq<u8>>::empty(),
    {
        TxRing::new()
    }
}

/// The ring is first in, first out: staging a packet behind `staged` and popping
/// the head gives the head of `staged` while there is one, and otherwise the
/// packet itself; the other packets keep their order.
pub proof fn law_tx_ring_is_fifo(staged: Seq<Seq<u8>>, bytes: Seq<u8>, n: usize)
    requires
        1 <= n <= MAX_PACKET,
        bytes.len() == MAX_PACKET,
    ensures
        ({
            let (after, r) = push_outcome(staged, bytes, Ok(n));
            &&& r == Ok::<bool, TcpError>(true)
            &&& staged.len() > 0 ==> after[0] == staged[0] && after.skip(1) == staged.skip(1).push(
                bytes.subrange(0, n as int),
            )
            &&& staged.len() == 0 ==> after[0] == bytes.subrange(0, n as int) && after.skip(1)
                == Seq::<Seq<u8>>::empty()
        }),
{
    let (after, r) = push_outcome(staged, bytes, Ok(n));
    if staged.len() > 0 {
        assert(after.skip(1) =~= staged.skip(1).push(bytes.subrange(0, n as int)));
    } else {
        assert(after.skip(1) =~= Seq::<Seq<u8>>::empty());
    }
}

} // verus!
