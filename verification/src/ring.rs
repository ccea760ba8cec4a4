//! Fixed-capacity byte ring buffer, the queue behind each direction of a
//! connection's byte stream.

use crate::error::TcpError;
use crate::num::{min, min_usize};
use vstd::prelude::*;

verus! {

/// `n` is a power of two.
pub open spec fn is_power_of_two(n: nat) -> bool
    decreases n,
{
    n == 1 || (n >= 2 && n % 2 == 0 && is_power_of_two(n / 2))
}

proof fn lemma_power_of_two_mask(n: usize)
    requires
        n > 0,
    ensures
        is_power_of_two(n as nat) == (n & ((n - 1) as usize) == 0),
    decreases n,
{
    if n == 1 {
        assert(1usize & 0usize == 0usize) by (bit_vector);
    } else {
        let h: usize = n / 2;
        if n % 2 == 0 {
            lemma_power_of_two_mask(h);
            assert((n & ((n - 1) as usize) == 0) == (h & ((h - 1) as usize) == 0)) by (bit_vector)
                requires
                    n % 2 == 0,
                    n >= 2,
                    h == n / 2,
            ;
        } else {
            assert(n & ((n - 1) as usize) != 0) by (bit_vector)
                requires
                    n % 2 == 1,
                    n >= 2,
            ;
        }
    }
}

/// Byte ring with capacity `N`, a power of two. Its view is the sequence of the
/// bytes stored, oldest first.
pub struct Ring<const N: usize> {
    buf: Vec<u8>,
    head: usize,
    len: usize,
}

impl<const N: usize> View for Ring<N> {
    type V = Seq<u8>;

    closed spec fn view(&self) -> Seq<u8> {
        Seq::new(self.len as nat, |i: int| self.buf@[self.slot(i)])
    }
}

impl<const N: usize> Ring<N> {
    /// The storage fills the capacity, a power of two, and holds no more than
    /// that.
    pub open spec fn wf(&self) -> bool {
        &&& self.storage_ok()
        &&& is_power_of_two(N as nat)
        &&& self@.len() <= N
    }

    pub closed spec fn storage_ok(&self) -> bool {
        &&& self.buf@.len() == N
        &&& self.head < N
        &&& self.len <= N
    }

    /// Where the `i`-th stored byte lives.
    spec fn slot(&self, i: int) -> int {
        if self.head + i < N {
            self.head + i
        } else {
            self.head + i - N
        }
    }

    /// Constructs an empty ring, or returns `Overflow` if `N` is not a power of
    /// two.
    pub fn new() -> (r: Result<Self, TcpError>)
        ensures
            r is Ok <==> is_power_of_two(N as nat),
            r matches Ok(ring) ==> ring.wf() && ring@ == Seq::<u8>::empty(),
            r matches Err(e) ==> e == TcpError::Overflow,
    {
        if N == 0 {
            return Err(TcpError::Overflow);
        }
        proof {
            lemma_power_of_two_mask(N);
        }
        if (N & (N - 1)) != 0 {
            return Err(TcpError::Overflow);
        }
        let ring = Ring { buf: vec![0u8; N], head: 0, len: 0 };
        assert(ring@ =~= Seq::<u8>::empty());
        Ok(ring)
    }

    pub fn capacity(&self) -> (n: usize)
        ensures
            n == N,
    {
        N
    }

    pub fn len(&self) -> (n: usize)
        ensures
            n == self@.len(),
    {
        self.len
    }

    pub fn is_empty(&self) -> (b: bool)
        ensures
            b == (self@.len() == 0),
    {
        self.len == 0
    }

    /// Bytes that can still be written.
    pub fn free(&self) -> (n: usize)
        requires
            self.wf(),
        ensures
            n == N - self@.len(),
    {
        N - self.len
    }

    /// Appends as many bytes from `src` as fit and returns how many that was.
    pub fn write(&mut self, src: &[u8]) -> (n: usize)
        requires
            old(self).wf(),
        ensures
            final(self).wf(),
            n == min(src@.len() as int, N - old(self)@.len()),
            final(self)@ == old(self)@ + src@.subrange(0, n as int),
    {
        let n: usize = min_usize(src.len(), self.free());
        let start: usize = if self.len < N - self.head {
            self.head + self.len
        } else {
            self.len - (N - self.head)
        };
        let mut i: usize = 0;
        let mut at: usize = start;
        while i < n
            invariant
                self.wf(),
                old(self).wf(),
                i <= n <= src@.len(),
                n <= N - self.len,
                self.head == old(self).head,
                self.len == old(self).len,
                i < n ==> at == self.slot(self.len + i),
                forall|j: int|
                    0 <= j < self.len ==> self.buf@[self.slot(j)] == old(self).buf@[#[trigger] old(
                        self,
                    ).slot(j)],
                forall|j: int|
                    0 <= j < i ==> self.buf@[#[trigger] self.slot(self.len + j)] == src@[j],
            decreases n - i,
        {
            let ghost before = *self;
            self.buf[at] = src[i];
            proof {
                assert forall|j: int| 0 <= j < self.len implies self.buf@[self.slot(j)] == old(
                    self,
                ).buf@[#[trigger] old(self).slot(j)] by {
                    assert(before.buf@[before.slot(j)] == old(self).buf@[old(self).slot(j)]);
                    assert(self.slot(j) != at);
                }
                assert forall|j: int| 0 <= j < i + 1 implies self.buf@[#[trigger] self.slot(
                    self.len + j,
                )] == src@[j] by {
                    if j < i {
                        assert(before.buf@[before.slot(before.len + j)] == src@[j]);
                        assert(self.slot(self.len + j) != at);
                    }
                }
            }
            i = i + 1;
            at = if at == N - 1 {
                0
            } else {
                at + 1
            };
        }
        let ghost before = *self;
        self.len = self.len + n;
        proof {
            assert(self@ =~= old(self)@ + src@.subrange(0, n as int)) by {
                assert forall|j: int| 0 <= j < self.len implies self@[j] == (old(self)@
                    + src@.subrange(0, n as int))[j] by {
                    assert(self.slot(j) == before.slot(j));
                    if j < before.len {
                        assert(before.buf@[before.slot(j)] == old(self).buf@[old(self).slot(j)]);
                    } else {
                        let k = j - before.len;
                        assert(before.buf@[before.slot(before.len + k)] == src@[k]);
                    }
                }
            }
        }
        n
    }

    /// Moves up to `dst.len()` bytes out of the ring into the front of `dst`.
    pub fn read(&mut self, dst: &mut [u8]) -> (n: usize)
        requires
            old(self).wf(),
        ensures
            final(self).wf(),
            n == min(old(dst)@.len() as int, old(self)@.len() as int),
            final(dst)@ == old(self)@.subrange(0, n as int) + old(dst)@.skip(n as int),
            final(self)@ == old(self)@.skip(n as int),
    {
        let n: usize = self.peek(dst);
        self.consume(n);
        n
    }

    /// Copies up to `dst.len()` bytes to the front of `dst` and keeps them.
    pub fn peek(&self, dst: &mut [u8]) -> (n: usize)
        requires
            self.wf(),
        ensures
            n == min(old(dst)@.len() as int, self@.len() as int),
            final(dst)@ == self@.subrange(0, n as int) + old(dst)@.skip(n as int),
    {
        let n: usize = self.peek_at(0, dst);
        n
    }

    /// Like [`Self::peek`], but starts `offset` bytes after the oldest one.
    pub fn peek_at(&self, offset: usize, dst: &mut [u8]) -> (n: usize)
        requires
            self.wf(),
        ensures
            n == peek_len(self@.len() as int, offset as int, old(dst)@.len() as int),
            final(dst)@ == self@.skip(min(offset as int, self@.len() as int)).take(n as int) + old(
                dst,
            )@.skip(n as int),
    {
        if offset >= self.len {
            assert(dst@ =~= self@.skip(min(offset as int, self@.len() as int)).take(0) + dst@.skip(0));
            return 0;
        }
        let n: usize = min_usize(dst.len(), self.len - offset);
        let mut at: usize = if offset < N - self.head {
            self.head + offset
        } else {
            offset - (N - self.head)
        };
        let mut i: usize = 0;
        while i < n
            invariant
                self.wf(),
                offset < self.len,
                i <= n <= self.len - offset,
                n <= dst@.len(),
                dst@.len() == old(dst)@.len(),
                i < n ==> at == self.slot(offset + i),
                forall|j: int| 0 <= j < i ==> #[trigger] dst@[j] == self@[offset + j],
                forall|j: int| i <= j < dst@.len() ==> #[trigger] dst@[j] == old(dst)@[j],
            decreases n - i,
        {
            dst[i] = self.buf[at];
            i = i + 1;
            at = if at == N - 1 {
                0
            } else {
                at + 1
            };
        }
        assert(dst@ =~= self@.skip(offset as int).take(n as int) + old(dst)@.skip(n as int));
        n
    }

    /// Drops the oldest `n` bytes, or all of them if there are fewer.
    pub fn consume(&mut self, n: usize)
        requires
            old(self).wf(),
        ensures
            final(self).wf(),
            final(self)@ == old(self)@.skip(min(n as int, old(self)@.len() as int)),
    {
        let n: usize = min_usize(n, self.len);
        self.head = if n < N - self.head {
            self.head + n
        } else {
            n - (N - self.head)
        };
        self.len = self.len - n;
        assert(self@ =~= old(self)@.skip(n as int));
    }

    /// Discards every stored byte.
    pub fn clear(&mut self)
        requires
            old(self).wf(),
        ensures
            final(self).wf(),
            final(self)@ == Seq::<u8>::empty(),
    {
        self.head = 0;
        self.len = 0;
        assert(self@ =~= Seq::<u8>::empty());
    }
}

/// How many bytes a peek at `offset` into `cap` bytes of room copies when `len`
/// bytes are stored.
pub open spec fn peek_len(len: int, offset: int, cap: int) -> int {
    if offset >= len {
        0
    } else if cap <= len - offset {
        cap
    } else {
        len - offset
    }
}

/// One step in the life of a ring.
pub enum RingOp {
    /// Offer these bytes to [`Ring::write`].
    Write(Seq<u8>),
    /// Ask [`Ring::read`] for up to this many bytes.
    Read(nat),
}

/// What has happened to a ring: the bytes that its writes accepted, the bytes
/// that its reads handed out, and the bytes that it stores.
pub struct RingTrace {
    pub accepted: Seq<u8>,
    pub delivered: Seq<u8>,
    pub stored: Seq<u8>,
}

/// The trace after `op` on a ring of capacity `cap`.
pub open spec fn ring_step(t: RingTrace, op: RingOp, cap: nat) -> RingTrace {
    match op {
        RingOp::Write(src) => {
            let taken = src.subrange(0, min(src.len() as int, cap - t.stored.len()));
            RingTrace { accepted: t.accepted + taken, stored: t.stored + taken, ..t }
        },
        RingOp::Read(room) => {
            let n = min(room as int, t.stored.len() as int);
            RingTrace {
                delivered: t.delivered + t.stored.subrange(0, n),
                stored: t.stored.skip(n),
                ..t
            }
        },
    }
}

/// The trace of a ring that starts empty, after the first `n` of `ops`.
pub open spec fn ring_run(ops: Seq<RingOp>, n: nat, cap: nat) -> RingTrace
    decreases n,
{
    if n == 0 {
        RingTrace { accepted: Seq::empty(), delivered: Seq::empty(), stored: Seq::empty() }
    } else {
        ring_step(ring_run(ops, (n - 1) as nat, cap), ops[n - 1], cap)
    }
}

/// Writing a stream in any chunks and reading it in any chunks preserves its
/// bytes and their order: what was handed out, followed by what is stored, is
/// exactly what was accepted, and no more is stored than the capacity.
pub proof fn law_ring_round_trip(ops: Seq<RingOp>, n: nat, cap: nat)
    requires
        n <= ops.len(),
    ensures
        ring_run(ops, n, cap).delivered + ring_run(ops, n, cap).stored == ring_run(
            ops,
            n,
            cap,
        ).accepted,
        ring_run(ops, n, cap).stored.len() <= cap,
    decreases n,
{
    let t = ring_run(ops, n, cap);
    if n == 0 {
        assert(t.delivered + t.stored =~= t.accepted);
    } else {
        law_ring_round_trip(ops, (n - 1) as nat, cap);
        let p = ring_run(ops, (n - 1) as nat, cap);
        assert(t.delivered + t.stored =~= t.accepted) by {
            match ops[n - 1] {
                RingOp::Write(src) => {
                    let taken = src.subrange(0, min(src.len() as int, cap - p.stored.len()));
                    assert(p.delivered + (p.stored + taken) =~= (p.delivered + p.stored) + taken);
                },
                RingOp::Read(room) => {
                    let k = min(room as int, p.stored.len() as int);
                    assert((p.delivered + p.stored.subrange(0, k)) + p.stored.skip(k)
                        =~= p.delivered + p.stored);
                },
            }
        }
    }
}

/// Peeking at an offset gives what reading would give after consuming that many
/// bytes.
pub proof fn law_peek_at_matches_consume_then_read(stored: Seq<u8>, offset: int, cap: int)
    requires
        0 <= offset,
        0 <= cap,
    ensures
        ({
            let skipped = if offset <= stored.len() {
                offset
            } else {
                stored.len() as int
            };
            let n = peek_len(stored.len() as int, offset, cap);
            &&& n == peek_len(stored.skip(skipped).len() as int, 0, cap)
            &&& stored.skip(skipped).take(n) == stored.skip(skipped).subrange(0, n)
        }),
{
}

} // verus!
