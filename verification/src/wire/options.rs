//! TCP options: maximum segment size, window scale, selective acknowledgement
//! and timestamps (RFC 9293, 7323 and 2018).

use crate::wire::bytes::{
    be16, be32, enc16, enc32, get_u16, get_u32, lemma_be16_enc16, lemma_be32_enc32, put_u16,
    put_u32, put_u8,
};
use vstd::prelude::*;

verus! {

/// Most SACK blocks that fit in the option space.
pub const MAX_SACK_BLOCKS: usize = 4;

/// Largest window-scale shift that RFC 7323 allows.
pub const MAX_WSCALE: u8 = 14;

/// Most bytes of options that a TCP header can hold.
pub const MAX_OPTIONS: usize = 40;

/// Up to four SACK blocks, each the `(left, right)` edges of a half-open range.
/// Its view is the blocks in order.
#[derive(Copy, Clone, Debug, PartialEq, Eq)]
pub struct SackBlocks {
    blocks: [(u32, u32); 4],
    n: usize,
}

impl View for SackBlocks {
    type V = Seq<(u32, u32)>;

    closed spec fn view(&self) -> Seq<(u32, u32)> {
        self.blocks@.subrange(0, self.n as int)
    }
}

impl SackBlocks {
    /// No more blocks are counted than there is room for.
    pub closed spec fn wf(&self) -> bool {
        self.n <= MAX_SACK_BLOCKS
    }

    pub proof fn lemma_wf_bound(&self)
        requires
            self.wf(),
        ensures
            self@.len() <= MAX_SACK_BLOCKS,
    {
    }

    /// No blocks.
    pub fn empty() -> (s: SackBlocks)
        ensures
            s.wf(),
            s@ == Seq::<(u32, u32)>::empty(),
    {
        let s = SackBlocks { blocks: [(0, 0), (0, 0), (0, 0), (0, 0)], n: 0 };
        assert(s@ =~= Seq::<(u32, u32)>::empty());
        s
    }

    /// The one block `[left, right)`.
    pub fn one(left: u32, right: u32) -> (s: SackBlocks)
        ensures
            s.wf(),
            s@ == seq![(left, right)],
    {
        let mut s = SackBlocks::empty();
        s.push(left, right);
        assert(s@ =~= seq![(left, right)]);
        s
    }

    /// Appends a block; a fifth one is dropped.
    pub fn push(&mut self, left: u32, right: u32)
        requires
            old(self).wf(),
        ensures
            final(self).wf(),
            old(self)@.len() < MAX_SACK_BLOCKS ==> final(self)@ == old(self)@.push((left, right)),
            old(self)@.len() >= MAX_SACK_BLOCKS ==> final(self)@ == old(self)@,
    {
        if self.n < MAX_SACK_BLOCKS {
            self.blocks[self.n] = (left, right);
            self.n = self.n + 1;
            assert(self@ =~= old(self)@.push((left, right)));
        }
    }

    pub fn len(&self) -> (n: usize)
        requires
            self.wf(),
        ensures
            n == self@.len(),
    {
        self.n
    }

    pub fn is_empty(&self) -> (b: bool)
        requires
            self.wf(),
        ensures
            b == (self@.len() == 0),
    {
        self.n == 0
    }

    /// The blocks in order.
    pub fn as_slice(&self) -> (s: &[(u32, u32)])
        requires
            self.wf(),
        ensures
            s@ == self@,
    {
        vstd::slice::slice_subrange(self.blocks.as_slice(), 0, self.n)
    }

    /// The `i`-th block.
    pub fn get(&self, i: usize) -> (block: (u32, u32))
        requires
            self.wf(),
            i < self@.len(),
        ensures
            block == self@[i as int],
    {
        self.blocks[i]
    }
}

/// The blocks that a single optional block stands for.
pub open spec fn at_most_one(v: Option<(u32, u32)>) -> Seq<(u32, u32)> {
    match v {
        Some(block) => seq![block],
        None => Seq::empty(),
    }
}

impl From<Option<(u32, u32)>> for SackBlocks {
    fn from(v: Option<(u32, u32)>) -> (s: Self)
        ensures
            s.wf(),
            s@ == at_most_one(v),
    {
        match v {
            Some((left, right)) => SackBlocks::one(left, right),
            None => SackBlocks::empty(),
        }
    }
}

impl vstd::std_specs::convert::FromSpecImpl<Option<(u32, u32)>> for SackBlocks {
    open spec fn obeys_from_spec() -> bool {
        false
    }

    open spec fn from_spec(v: Option<(u32, u32)>) -> Self {
        choose|s: SackBlocks| s.wf() && s@ == at_most_one(v)
    }
}

/// The options that a segment carries.
#[derive(Copy, Clone, Debug, PartialEq, Eq)]
pub struct TcpOptions {
    /// Maximum segment size.
    pub mss: Option<u16>,
    /// Window-scale shift.
    pub wscale: Option<u8>,
    /// Timestamp value and echo reply.
    pub ts: Option<(u32, u32)>,
    /// Selective acknowledgement is offered.
    pub sack_permitted: bool,
    /// Selective acknowledgement blocks.
    pub sack: SackBlocks,
}

/// The mathematical content of [`TcpOptions`].
#[verifier::ext_equal]
pub struct OptionsView {
    pub mss: Option<u16>,
    pub wscale: Option<u8>,
    pub ts: Option<(u32, u32)>,
    pub sack_permitted: bool,
    pub sack: Seq<(u32, u32)>,
}

impl View for TcpOptions {
    type V = OptionsView;

    open spec fn view(&self) -> OptionsView {
        OptionsView {
            mss: self.mss,
            wscale: self.wscale,
            ts: self.ts,
            sack_permitted: self.sack_permitted,
            sack: self.sack@,
        }
    }
}

/// A segment without options.
pub open spec fn no_options() -> OptionsView {
    OptionsView { mss: None, wscale: None, ts: None, sack_permitted: false, sack: Seq::empty() }
}

/// The shift that goes on the wire for a window scale of `w`.
pub open spec fn clamp_wscale(w: u8) -> u8 {
    if w > MAX_WSCALE {
        MAX_WSCALE
    } else {
        w
    }
}

pub open spec fn mss_bytes(o: OptionsView) -> Seq<u8> {
    match o.mss {
        Some(m) => seq![2u8, 4u8] + enc16(m),
        None => Seq::empty(),
    }
}

pub open spec fn wscale_bytes(o: OptionsView) -> Seq<u8> {
    match o.wscale {
        Some(w) => seq![3u8, 3u8, clamp_wscale(w)],
        None => Seq::empty(),
    }
}

pub open spec fn sack_permitted_bytes(o: OptionsView) -> Seq<u8> {
    if o.sack_permitted {
        seq![4u8, 2u8]
    } else {
        Seq::empty()
    }
}

pub open spec fn ts_bytes(o: OptionsView) -> Seq<u8> {
    match o.ts {
        Some(t) => seq![8u8, 10u8] + enc32(t.0) + enc32(t.1),
        None => Seq::empty(),
    }
}

/// The edges of `blocks`, four bytes each.
pub open spec fn block_bytes(blocks: Seq<(u32, u32)>) -> Seq<u8>
    decreases blocks.len(),
{
    if blocks.len() == 0 {
        Seq::empty()
    } else {
        block_bytes(blocks.drop_last()) + enc32(blocks.last().0) + enc32(blocks.last().1)
    }
}

pub open spec fn sack_bytes(o: OptionsView) -> Seq<u8> {
    if o.sack.len() == 0 {
        Seq::empty()
    } else {
        seq![5u8, (2 + 8 * o.sack.len()) as u8] + block_bytes(o.sack)
    }
}

/// The options of `o` one after another, before padding.
pub open spec fn raw_option_bytes(o: OptionsView) -> Seq<u8> {
    mss_bytes(o) + wscale_bytes(o) + sack_permitted_bytes(o) + ts_bytes(o) + sack_bytes(o)
}

/// Length of the options of `o` before padding.
pub open spec fn raw_option_len(o: OptionsView) -> int {
    (if o.mss is Some {
        4int
    } else {
        0
    }) + (if o.wscale is Some {
        3int
    } else {
        0
    }) + (if o.sack_permitted {
        2int
    } else {
        0
    }) + (if o.ts is Some {
        10int
    } else {
        0
    }) + (if o.sack.len() > 0 {
        2 + 8 * o.sack.len()
    } else {
        0
    })
}

/// Length of the options of `o` on the wire: padded to whole 32-bit words.
pub open spec fn option_len(o: OptionsView) -> int {
    (raw_option_len(o) + 3) / 4 * 4
}

/// `n` no-operation options, the padding.
pub open spec fn nops(n: nat) -> Seq<u8> {
    Seq::new(n, |i: int| 1u8)
}

/// The options of `o` as they go on the wire.
pub open spec fn option_bytes(o: OptionsView) -> Seq<u8> {
    raw_option_bytes(o) + nops((option_len(o) - raw_option_len(o)) as nat)
}

/// The `n` SACK blocks at offset `at`.
pub open spec fn blocks_at(s: Seq<u8>, at: int, n: nat) -> Seq<(u32, u32)> {
    Seq::new(n, |k: int| (be32(s, at + 8 * k), be32(s, at + 8 * k + 4)))
}

/// What the option of `len` bytes at offset `i` adds to `o`. An option of an
/// unknown kind, or of a known kind with another length, adds nothing; of two
/// options of one kind the later counts.
pub open spec fn absorb_option(o: OptionsView, s: Seq<u8>, i: int, len: int) -> OptionsView {
    let kind = s[i];
    if kind == 2 && len == 4 {
        OptionsView { mss: Some(be16(s, i + 2)), ..o }
    } else if kind == 3 && len == 3 {
        OptionsView { wscale: Some(clamp_wscale(s[i + 2])), ..o }
    } else if kind == 4 && len == 2 {
        OptionsView { sack_permitted: true, ..o }
    } else if kind == 8 && len == 10 {
        OptionsView { ts: Some((be32(s, i + 2), be32(s, i + 6))), ..o }
    } else if kind == 5 && len % 8 == 2 && len <= 34 {
        OptionsView { sack: blocks_at(s, i + 2, (len / 8) as nat), ..o }
    } else {
        o
    }
}

/// The options found in `s` from offset `i` on, added to `o`; `None` when an
/// option has no length byte, a length below two or a length past the end.
pub open spec fn options_from(s: Seq<u8>, i: int, o: OptionsView) -> Option<OptionsView>
    decreases s.len() - i,
{
    if i >= s.len() || s[i] == 0 {
        Some(o)
    } else if s[i] == 1 {
        options_from(s, i + 1, o)
    } else if i + 1 >= s.len() || s[i + 1] < 2 || i + s[i + 1] > s.len() {
        None
    } else {
        options_from(s, i + s[i + 1], absorb_option(o, s, i, s[i + 1] as int))
    }
}

/// What parsing gives for options that were emitted as `o`.
pub open spec fn wire_options(o: OptionsView) -> OptionsView {
    OptionsView {
        wscale: match o.wscale {
            Some(w) => Some(clamp_wscale(w)),
            None => None,
        },
        ..o
    }
}

proof fn lemma_block_bytes_len(blocks: Seq<(u32, u32)>)
    ensures
        block_bytes(blocks).len() == 8 * blocks.len(),
    decreases blocks.len(),
{
    if blocks.len() > 0 {
        lemma_block_bytes_len(blocks.drop_last());
    }
}

pub proof fn lemma_option_len(o: OptionsView)
    ensures
        raw_option_bytes(o).len() == raw_option_len(o),
        option_bytes(o).len() == option_len(o),
        option_len(o) % 4 == 0,
        raw_option_len(o) <= option_len(o) <= raw_option_len(o) + 3,
{
    lemma_block_bytes_len(o.sack);
}

proof fn lemma_blocks_round_trip(s: Seq<u8>, at: int, blocks: Seq<(u32, u32)>)
    requires
        0 <= at,
        at + 8 * blocks.len() <= s.len(),
        s.subrange(at, at + 8 * blocks.len()) == block_bytes(blocks),
    ensures
        blocks_at(s, at, blocks.len()) == blocks,
    decreases blocks.len(),
{
    let n = blocks.len() as int;
    if n > 0 {
        let front = blocks.drop_last();
        lemma_block_bytes_len(front);
        let whole = block_bytes(blocks);
        assert(s.subrange(at, at + 8 * n) == whole);
        assert(s.subrange(at, at + 8 * (n - 1)) =~= whole.subrange(0, 8 * (n - 1)));
        assert(whole.subrange(0, 8 * (n - 1)) =~= block_bytes(front));
        lemma_blocks_round_trip(s, at, front);
        let e = at + 8 * (n - 1);
        assert(s.subrange(e, e + 4) =~= whole.subrange(8 * (n - 1), 8 * (n - 1) + 4));
        assert(whole.subrange(8 * (n - 1), 8 * (n - 1) + 4) =~= enc32(blocks.last().0));
        assert(s.subrange(e + 4, e + 8) =~= whole.subrange(8 * (n - 1) + 4, 8 * n));
        assert(whole.subrange(8 * (n - 1) + 4, 8 * n) =~= enc32(blocks.last().1));
        lemma_be32_enc32(s, e, blocks.last().0);
        lemma_be32_enc32(s, e + 4, blocks.last().1);
        assert forall|k: int| 0 <= k < n implies blocks_at(s, at, n as nat)[k] == blocks[k] by {
            if k < n - 1 {
                assert(blocks_at(s, at, (n - 1) as nat)[k] == front[k]);
            }
        }
        assert(blocks_at(s, at, n as nat) =~= blocks);
    } else {
        assert(blocks_at(s, at, 0) =~= blocks);
    }
}

proof fn lemma_nops_are_skipped(s: Seq<u8>, i: int, o: OptionsView)
    requires
        0 <= i <= s.len(),
        forall|j: int| i <= j < s.len() ==> s[j] == 1u8,
    ensures
        options_from(s, i, o) == Some(o),
    decreases s.len() - i,
{
    if i < s.len() {
        lemma_nops_are_skipped(s, i + 1, o);
    }
}

proof fn lemma_option_step(s: Seq<u8>, i: int, o: OptionsView, opt: Seq<u8>)
    requires
        0 <= i,
        i + opt.len() <= s.len(),
        s.subrange(i, i + opt.len()) == opt,
        opt.len() >= 2,
        opt[0] >= 2,
        opt[1] == opt.len(),
    ensures
        options_from(s, i, o) == options_from(
            s,
            i + opt.len(),
            absorb_option(o, s, i, opt.len() as int),
        ),
        s[i] == opt[0],
{
    assert(s[i] == s.subrange(i, i + opt.len())[0]);
    assert(s[i + 1] == s.subrange(i, i + opt.len())[1]);
}

proof fn lemma_mss_step(s: Seq<u8>, i: int, o: OptionsView, e: OptionsView)
    requires
        0 <= i,
        i + mss_bytes(e).len() <= s.len(),
        s.subrange(i, i + mss_bytes(e).len()) == mss_bytes(e),
        o.mss is None,
    ensures
        options_from(s, i, o) == options_from(
            s,
            i + mss_bytes(e).len(),
            OptionsView { mss: e.mss, ..o },
        ),
{
    if let Some(m) = e.mss {
        let opt = mss_bytes(e);
        lemma_option_step(s, i, o, opt);
        assert(s.subrange(i + 2, i + 4) =~= s.subrange(i, i + 4).subrange(2, 4));
        assert(opt.subrange(2, 4) =~= enc16(m));
        lemma_be16_enc16(s, i + 2, m);
    }
}

proof fn lemma_wscale_step(s: Seq<u8>, i: int, o: OptionsView, e: OptionsView)
    requires
        0 <= i,
        i + wscale_bytes(e).len() <= s.len(),
        s.subrange(i, i + wscale_bytes(e).len()) == wscale_bytes(e),
        o.wscale is None,
    ensures
        options_from(s, i, o) == options_from(
            s,
            i + wscale_bytes(e).len(),
            OptionsView { wscale: wire_options(e).wscale, ..o },
        ),
{
    if let Some(w) = e.wscale {
        let opt = wscale_bytes(e);
        lemma_option_step(s, i, o, opt);
        assert(s[i + 2] == s.subrange(i, i + 3)[2]);
    }
}

proof fn lemma_sack_permitted_step(s: Seq<u8>, i: int, o: OptionsView, e: OptionsView)
    requires
        0 <= i,
        i + sack_permitted_bytes(e).len() <= s.len(),
        s.subrange(i, i + sack_permitted_bytes(e).len()) == sack_permitted_bytes(e),
        !o.sack_permitted,
    ensures
        options_from(s, i, o) == options_from(
            s,
            i + sack_permitted_bytes(e).len(),
            OptionsView { sack_permitted: e.sack_permitted, ..o },
        ),
{
    if e.sack_permitted {
        lemma_option_step(s, i, o, sack_permitted_bytes(e));
    }
}

proof fn lemma_ts_step(s: Seq<u8>, i: int, o: OptionsView, e: OptionsView)
    requires
        0 <= i,
        i + ts_bytes(e).len() <= s.len(),
        s.subrange(i, i + ts_bytes(e).len()) == ts_bytes(e),
        o.ts is None,
    ensures
        options_from(s, i, o) == options_from(
            s,
            i + ts_bytes(e).len(),
            OptionsView { ts: e.ts, ..o },
        ),
{
    if let Some(t) = e.ts {
        let opt = ts_bytes(e);
        lemma_option_step(s, i, o, opt);
        assert(s.subrange(i + 2, i + 6) =~= s.subrange(i, i + 10).subrange(2, 6));
        assert(opt.subrange(2, 6) =~= enc32(t.0));
        assert(s.subrange(i + 6, i + 10) =~= s.subrange(i, i + 10).subrange(6, 10));
        assert(opt.subrange(6, 10) =~= enc32(t.1));
        lemma_be32_enc32(s, i + 2, t.0);
        lemma_be32_enc32(s, i + 6, t.1);
    }
}

proof fn lemma_sack_step(s: Seq<u8>, i: int, o: OptionsView, e: OptionsView)
    requires
        0 <= i,
        i + sack_bytes(e).len() <= s.len(),
        s.subrange(i, i + sack_bytes(e).len()) == sack_bytes(e),
        o.sack == Seq::<(u32, u32)>::empty(),
        e.sack.len() <= MAX_SACK_BLOCKS,
    ensures
        options_from(s, i, o) == options_from(
            s,
            i + sack_bytes(e).len(),
            OptionsView { sack: e.sack, ..o },
        ),
{
    lemma_block_bytes_len(e.sack);
    if e.sack.len() > 0 {
        let n = e.sack.len() as int;
        let opt = sack_bytes(e);
        lemma_option_step(s, i, o, opt);
        assert(s.subrange(i + 2, i + 2 + 8 * n) =~= s.subrange(i, i + 2 + 8 * n).subrange(
            2,
            2 + 8 * n,
        ));
        assert(opt.subrange(2, 2 + 8 * n) =~= block_bytes(e.sack));
        lemma_blocks_round_trip(s, i + 2, e.sack);
        assert((2 + 8 * n) / 8 == n);
    } else {
        assert(e.sack =~= o.sack);
    }
}

/// Where each of six consecutive parts lies in the whole.
proof fn lemma_parts(a: Seq<u8>, b: Seq<u8>, c: Seq<u8>, d: Seq<u8>, e: Seq<u8>, f: Seq<u8>)
    ensures
        ({
            let s = a + b + c + d + e + f;
            let i1 = a.len() as int;
            let i2 = i1 + b.len();
            let i3 = i2 + c.len();
            let i4 = i3 + d.len();
            let i5 = i4 + e.len();
            &&& s.subrange(0, i1) == a
            &&& s.subrange(i1, i2) == b
            &&& s.subrange(i2, i3) == c
            &&& s.subrange(i3, i4) == d
            &&& s.subrange(i4, i5) == e
            &&& s.len() == i5 + f.len()
            &&& forall|j: int| i5 <= j < s.len() ==> #[trigger] s[j] == f[j - i5]
        }),
{
    let s = a + b + c + d + e + f;
    let i1 = a.len() as int;
    let i2 = i1 + b.len();
    let i3 = i2 + c.len();
    let i4 = i3 + d.len();
    let i5 = i4 + e.len();
    assert(s.subrange(0, i1) =~= a);
    assert(s.subrange(i1, i2) =~= b);
    assert(s.subrange(i2, i3) =~= c);
    assert(s.subrange(i3, i4) =~= d);
    assert(s.subrange(i4, i5) =~= e);
}

proof fn lemma_regroup(
    x: Seq<u8>,
    a: Seq<u8>,
    b: Seq<u8>,
    c: Seq<u8>,
    d: Seq<u8>,
    e: Seq<u8>,
    f: Seq<u8>,
)
    ensures
        ((((x + a) + b) + c) + d) + e + f == x + (a + b + c + d + e + f),
{
    assert(((((x + a) + b) + c) + d) + e + f =~= x + (a + b + c + d + e + f));
}

/// Options come back from the wire as they were emitted, but for a window scale
/// above [`MAX_WSCALE`], which is emitted as that.
pub proof fn law_options_round_trip(o: OptionsView)
    requires
        o.sack.len() <= MAX_SACK_BLOCKS,
    ensures
        options_from(option_bytes(o), 0, no_options()) == Some(wire_options(o)),
{
    let s = option_bytes(o);
    lemma_option_len(o);
    let pad = nops((option_len(o) - raw_option_len(o)) as nat);
    let p0 = no_options();
    let p1 = OptionsView { mss: o.mss, ..p0 };
    let p2 = OptionsView { wscale: wire_options(o).wscale, ..p1 };
    let p3 = OptionsView { sack_permitted: o.sack_permitted, ..p2 };
    let p4 = OptionsView { ts: o.ts, ..p3 };
    let p5 = OptionsView { sack: o.sack, ..p4 };
    let i1 = mss_bytes(o).len() as int;
    let i2 = i1 + wscale_bytes(o).len();
    let i3 = i2 + sack_permitted_bytes(o).len();
    let i4 = i3 + ts_bytes(o).len();
    let i5 = i4 + sack_bytes(o).len();
    lemma_parts(
        mss_bytes(o),
        wscale_bytes(o),
        sack_permitted_bytes(o),
        ts_bytes(o),
        sack_bytes(o),
        pad,
    );
    lemma_mss_step(s, 0, p0, o);
    lemma_wscale_step(s, i1, p1, o);
    lemma_sack_permitted_step(s, i2, p2, o);
    lemma_ts_step(s, i3, p3, o);
    lemma_sack_step(s, i4, p4, o);
    lemma_nops_are_skipped(s, i5, p5);
    assert(p5 =~= wire_options(o));
}

/// Fills `b[at..end]` with padding.
fn put_nops(b: &mut [u8], at: usize, end: usize)
    requires
        at <= end <= old(b)@.len(),
    ensures
        final(b)@.len() == old(b)@.len(),
        final(b)@.take(end as int) == old(b)@.take(at as int) + nops((end - at) as nat),
        forall|j: int| end <= j < final(b)@.len() ==> #[trigger] final(b)@[j] == old(b)@[j],
{
    let mut i: usize = at;
    assert(b@.take(at as int) =~= old(b)@.take(at as int) + nops(0));
    while i < end
        invariant
            at <= i <= end <= b@.len(),
            b@.len() == old(b)@.len(),
            b@.take(i as int) == old(b)@.take(at as int) + nops((i - at) as nat),
            forall|j: int| i <= j < b@.len() ==> #[trigger] b@[j] == old(b)@[j],
        decreases end - i,
    {
        i = put_u8(b, i, 1);
        assert(b@.take(i as int) =~= old(b)@.take(at as int) + nops((i - at) as nat));
    }
}

impl TcpOptions {
    /// A segment without options.
    pub fn none() -> (o: TcpOptions)
        ensures
            o.sack.wf(),
            o@ == no_options(),
    {
        TcpOptions {
            mss: None,
            wscale: None,
            ts: None,
            sack_permitted: false,
            sack: SackBlocks::empty(),
        }
    }

    /// Bytes that these options take on the wire, padding counted.
    pub fn encoded_len(&self) -> (n: usize)
        requires
            self.sack.wf(),
        ensures
            n == option_len(self@),
    {
        proof {
            self.sack.lemma_wf_bound();
        }
        let mut n: usize = 0;
        if self.mss.is_some() {
            n = n + 4;
        }
        if self.wscale.is_some() {
            n = n + 3;
        }
        if self.sack_permitted {
            n = n + 2;
        }
        if self.ts.is_some() {
            n = n + 10;
        }
        if !self.sack.is_empty() {
            n = n + 2 + 8 * self.sack.len();
        }
        (n + 3) / 4 * 4
    }

    fn put_mss(&self, b: &mut [u8], at: usize) -> (next: usize)
        requires
            at + mss_bytes(self@).len() <= old(b)@.len(),
        ensures
            next == at + mss_bytes(self@).len(),
            final(b)@.len() == old(b)@.len(),
            final(b)@.take(next as int) == old(b)@.take(at as int) + mss_bytes(self@),
            forall|j: int| next <= j < final(b)@.len() ==> #[trigger] final(b)@[j] == old(b)@[j],
    {
        let ghost start = b@.take(at as int);
        if let Some(m) = self.mss {
            let i: usize = put_u8(b, at, 2);
            let i: usize = put_u8(b, i, 4);
            let i: usize = put_u16(b, i, m);
            assert(b@.take(i as int) =~= start + mss_bytes(self@));
            i
        } else {
            assert(b@.take(at as int) =~= start + mss_bytes(self@));
            at
        }
    }

    fn put_wscale(&self, b: &mut [u8], at: usize) -> (next: usize)
        requires
            at + wscale_bytes(self@).len() <= old(b)@.len(),
        ensures
            next == at + wscale_bytes(self@).len(),
            final(b)@.len() == old(b)@.len(),
            final(b)@.take(next as int) == old(b)@.take(at as int) + wscale_bytes(self@),
            forall|j: int| next <= j < final(b)@.len() ==> #[trigger] final(b)@[j] == old(b)@[j],
    {
        let ghost start = b@.take(at as int);
        if let Some(w) = self.wscale {
            let shift: u8 = if w > MAX_WSCALE {
                MAX_WSCALE
            } else {
                w
            };
            let i: usize = put_u8(b, at, 3);
            let i: usize = put_u8(b, i, 3);
            let i: usize = put_u8(b, i, shift);
            assert(b@.take(i as int) =~= start + wscale_bytes(self@));
            i
        } else {
            assert(b@.take(at as int) =~= start + wscale_bytes(self@));
            at
        }
    }

    fn put_sack_permitted(&self, b: &mut [u8], at: usize) -> (next: usize)
        requires
            at + sack_permitted_bytes(self@).len() <= old(b)@.len(),
        ensures
            next == at + sack_permitted_bytes(self@).len(),
            final(b)@.len() == old(b)@.len(),
            final(b)@.take(next as int) == old(b)@.take(at as int) + sack_permitted_bytes(self@),
            forall|j: int| next <= j < final(b)@.len() ==> #[trigger] final(b)@[j] == old(b)@[j],
    {
        let ghost start = b@.take(at as int);
        if self.sack_permitted {
            let i: usize = put_u8(b, at, 4);
            let i: usize = put_u8(b, i, 2);
            assert(b@.take(i as int) =~= start + sack_permitted_bytes(self@));
            i
        } else {
            assert(b@.take(at as int) =~= start + sack_permitted_bytes(self@));
            at
        }
    }

    fn put_ts(&self, b: &mut [u8], at: usize) -> (next: usize)
        requires
            at + ts_bytes(self@).len() <= old(b)@.len(),
        ensures
            next == at + ts_bytes(self@).len(),
            final(b)@.len() == old(b)@.len(),
            final(b)@.take(next as int) == old(b)@.take(at as int) + ts_bytes(self@),
            forall|j: int| next <= j < final(b)@.len() ==> #[trigger] final(b)@[j] == old(b)@[j],
    {
        let ghost start = b@.take(at as int);
        if let Some(t) = self.ts {
            let i: usize = put_u8(b, at, 8);
            let i: usize = put_u8(b, i, 10);
            let i: usize = put_u32(b, i, t.0);
            let i: usize = put_u32(b, i, t.1);
            assert(b@.take(i as int) =~= start + ts_bytes(self@));
            i
        } else {
            assert(b@.take(at as int) =~= start + ts_bytes(self@));
            at
        }
    }

    fn put_sack(&self, b: &mut [u8], at: usize) -> (next: usize)
        requires
            self.sack.wf(),
            at + sack_bytes(self@).len() <= old(b)@.len(),
        ensures
            next == at + sack_bytes(self@).len(),
            final(b)@.len() == old(b)@.len(),
            final(b)@.take(next as int) == old(b)@.take(at as int) + sack_bytes(self@),
            forall|j: int| next <= j < final(b)@.len() ==> #[trigger] final(b)@[j] == old(b)@[j],
    {
        let ghost o = self@;
        let ghost start = b@.take(at as int);
        proof {
            self.sack.lemma_wf_bound();
            lemma_block_bytes_len(o.sack);
        }
        let n: usize = self.sack.len();
        if n == 0 {
            assert(b@.take(at as int) =~= start + sack_bytes(o));
            return at;
        }
        let mut i: usize = put_u8(b, at, 5);
        i = put_u8(b, i, (2 + 8 * n) as u8);
        let ghost head = start + seq![5u8, (2 + 8 * n) as u8];
        let ghost base = i;
        assert(b@.take(i as int) =~= head + block_bytes(o.sack.take(0)));
        let mut k: usize = 0;
        while k < n
            invariant
                self.sack.wf(),
                o == self@,
                k <= n == o.sack.len() <= MAX_SACK_BLOCKS,
                i == base + 8 * k,
                base + 8 * n <= b@.len(),
                b@.len() == old(b)@.len(),
                b@.take(i as int) == head + block_bytes(o.sack.take(k as int)),
                forall|j: int| i <= j < b@.len() ==> #[trigger] b@[j] == old(b)@[j],
            decreases n - k,
        {
            let block = self.sack.get(k);
            let ghost before = b@.take(i as int);
            i = put_u32(b, i, block.0);
            i = put_u32(b, i, block.1);
            proof {
                let next = o.sack.take(k + 1);
                assert(next.drop_last() =~= o.sack.take(k as int));
                assert(next.last() == block);
                assert(before + enc32(block.0) + enc32(block.1) =~= head + block_bytes(next));
            }
            k = k + 1;
        }
        assert(o.sack.take(n as int) =~= o.sack);
        assert(b@.take(i as int) =~= start + sack_bytes(o));
        i
    }

    /// Writes the options at `at`, padding included, and returns the offset
    /// behind them.
    pub fn emit_at(&self, b: &mut [u8], at: usize) -> (next: usize)
        requires
            self.sack.wf(),
            at + option_len(self@) <= old(b)@.len(),
        ensures
            next == at + option_len(self@),
            final(b)@.len() == old(b)@.len(),
            final(b)@.take(next as int) == old(b)@.take(at as int) + option_bytes(self@),
            forall|j: int| next <= j < final(b)@.len() ==> #[trigger] final(b)@[j] == old(b)@[j],
    {
        let ghost o = self@;
        let ghost start = b@.take(at as int);
        let cap: usize = b.len();
        proof {
            lemma_option_len(o);
        }
        let end: usize = at + self.encoded_len();
        let i: usize = self.put_mss(b, at);
        let i: usize = self.put_wscale(b, i);
        let i: usize = self.put_sack_permitted(b, i);
        let i: usize = self.put_ts(b, i);
        let i: usize = self.put_sack(b, i);
        put_nops(b, i, end);
        proof {
            lemma_regroup(
                start,
                mss_bytes(o),
                wscale_bytes(o),
                sack_permitted_bytes(o),
                ts_bytes(o),
                sack_bytes(o),
                nops((end - i) as nat),
            );
        }
        end
    }

    /// Reads the options in `b[lo..hi]`, or returns `None` when they are
    /// malformed.
    pub fn parse(b: &[u8], lo: usize, hi: usize) -> (r: Option<TcpOptions>)
        requires
            lo <= hi <= b@.len(),
        ensures
            r matches Some(o) ==> o.sack.wf() && options_from(
                b@.subrange(lo as int, hi as int),
                0,
                no_options(),
            ) == Some(o@),
            r is None ==> options_from(b@.subrange(lo as int, hi as int), 0, no_options()) is None,
    {
        let ghost s = b@.subrange(lo as int, hi as int);
        let mut o = TcpOptions::none();
        let mut i: usize = lo;
        while i < hi && b[i] != 0
            invariant
                lo <= i <= hi <= b@.len(),
                s == b@.subrange(lo as int, hi as int),
                o.sack.wf(),
                options_from(s, i - lo, o@) == options_from(s, 0, no_options()),
            decreases hi - i,
        {
            let ghost at = i - lo;
            assert(s[at] == b@[i as int]);
            if b[i] == 1 {
                i = i + 1;
                continue;
            }
            if hi - i < 2 {
                return None;
            }
            assert(s[at + 1] == b@[i + 1]);
            let len: usize = b[i + 1] as usize;
            if len < 2 || len > hi - i {
                return None;
            }
            let ghost before = o@;
            let kind: u8 = b[i];
            if kind == 2 && len == 4 {
                o.mss = Some(get_u16(b, i + 2));
            } else if kind == 3 && len == 3 {
                let w: u8 = b[i + 2];
                o.wscale =
                Some(
                    if w > MAX_WSCALE {
                        MAX_WSCALE
                    } else {
                        w
                    },
                );
            } else if kind == 4 && len == 2 {
                o.sack_permitted = true;
            } else if kind == 8 && len == 10 {
                o.ts = Some((get_u32(b, i + 2), get_u32(b, i + 6)));
            } else if kind == 5 && len % 8 == 2 && len <= 34 {
                let n: usize = len / 8;
                let mut sack = SackBlocks::empty();
                let mut k: usize = 0;
                while k < n
                    invariant
                        sack.wf(),
                        k <= n <= MAX_SACK_BLOCKS,
                        lo <= i <= hi <= b@.len(),
                        s == b@.subrange(lo as int, hi as int),
                        at == i - lo,
                        i + 2 + 8 * n <= hi,
                        sack@ == blocks_at(s, at + 2, k as nat),
                    decreases n - k,
                {
                    let l: u32 = get_u32(b, i + 2 + 8 * k);
                    let r: u32 = get_u32(b, i + 6 + 8 * k);
                    sack.push(l, r);
                    k = k + 1;
                    assert(sack@ =~= blocks_at(s, at + 2, k as nat));
                }
                o.sack = sack;
            }
            assert(o@ =~= absorb_option(before, s, at, len as int));
            i = i + len;
        }
        if i < hi {
            assert(s[i - lo] == b@[i as int]);
        }
        Some(o)
    }
}

} // verus!
