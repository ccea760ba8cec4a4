//! Streams of known bytes, and handing them to and from connections.

use crate::num::min_u32;
use crate::sim::{CLI_ISS, SRV_ISS};
use crate::state::State;
use crate::tcb::model::{
    app_recv, app_recv_len, app_send, created, injected, EndpointView, TcbView,
};
use crate::tcb::{Endpoint, Tcb, TcbConfig};
use crate::MAX_PACKET;
use vstd::prelude::*;

verus! {

/// The byte at `offset` of a stream: a hash, so that a byte that is lost, repeated
/// or out of place shows.
pub open spec fn pattern(stream: u32, offset: u32) -> u8 {
    ((stream ^ offset).wrapping_mul(2_654_435_761) / 0x100_0000) as u8
}

/// `n` bytes of a stream from `offset` on.
pub open spec fn pattern_bytes(stream: u32, offset: u32, n: int) -> Seq<u8> {
    Seq::new(n as nat, |i: int| pattern(stream, offset.wrapping_add(i as u32)))
}

/// The byte at `offset` of a stream.
pub fn pat(stream: u32, offset: u32) -> (b: u8)
    ensures
        b == pattern(stream, offset),
{
    ((stream ^ offset).wrapping_mul(2_654_435_761) / 0x100_0000) as u8
}

/// The clock of a connection is set.
pub open spec fn at_time(s: TcbView, now: u64) -> TcbView {
    TcbView { now_ms: now, ..s }
}

/// Carries every packet that waits at `a` over to `b`, in order.
pub open spec fn ferried(a: TcbView, b: TcbView) -> (TcbView, TcbView)
    decreases a.tx.len(),
{
    if a.tx.len() == 0 {
        (a, b)
    } else {
        ferried(TcbView { tx: a.tx.skip(1), ..a }, injected(b, a.tx[0]).0)
    }
}

/// Hands an established connection the next bytes of its stream, of which `sent`
/// were taken before, and counts those taken.
pub open spec fn offered(
    s: TcbView,
    stream: u32,
    sent: u32,
    xfer: u32,
    chunk: u32,
) -> (TcbView, u32) {
    if s.state is Established && sent < xfer {
        let n = crate::num::min(chunk as int, xfer - sent);
        let (t, r) = app_send(s, pattern_bytes(stream, sent, n));
        match r {
            Ok(w) => (t, (sent + w) as u32),
            Err(_) => (t, sent),
        }
    } else {
        (s, sent)
    }
}

/// The first index from `i` on at which `b` differs from a stream from `offset` on,
/// or the length of `b`.
pub open spec fn first_wrong(b: Seq<u8>, stream: u32, offset: u32, i: int) -> int
    decreases b.len() - i,
{
    if i >= b.len() || b[i] != pattern(stream, offset.wrapping_add(i as u32)) {
        i
    } else {
        first_wrong(b, stream, offset, i + 1)
    }
}

/// Reads from a connection that has handed over `got` bytes of the stream before,
/// and counts them; otherwise where in the stream a byte is wrong.
pub open spec fn checked(
    s: TcbView,
    stream: u32,
    got: u32,
    room: u32,
) -> Result<(TcbView, u32), u32> {
    let n = app_recv_len(s, room as int);
    let (t, r) = app_recv(s, room as int);
    let k = first_wrong(s.recv_ring.take(n), stream, got, 0);
    match r {
        Ok(_) => if k >= n {
            Ok((t, got.wrapping_add(n as u32)))
        } else {
            Err(got.wrapping_add(k as u32))
        },
        Err(_) => Ok((t, got)),
    }
}

/// Carries every packet that waits at `from` over to `to`.
pub fn ferry<const BUF: usize>(from: &mut Tcb<BUF>, to: &mut Tcb<BUF>)
    requires
        old(from).wf(),
        old(to).wf(),
    ensures
        final(from).wf(),
        final(to).wf(),
        (final(from)@, final(to)@) == ferried(old(from)@, old(to)@),
{
    let mut pkt: Vec<u8> = vec![0u8; MAX_PACKET];
    let mut more: bool = true;
    while more
        invariant
            from.wf(),
            to.wf(),
            pkt@.len() == MAX_PACKET,
            ferried(from@, to@) == ferried(old(from)@, old(to)@),
            !more ==> from@.tx.len() == 0,
        decreases
            from@.tx.len(),
            if more {
                1int
            } else {
                0int
            },
    {
        let ghost a = from@;
        proof {
            from.tx_ring.lemma_packet_lens();
        }
        match from.extract_packet(pkt.as_mut_slice()) {
            Ok(n) => {
                if n == 0 {
                    more = false;
                } else {
                    assert(pkt@.subrange(0, n as int) =~= a.tx[0]);
                    let _ = to.inject_packet(
                        vstd::slice::slice_subrange(pkt.as_slice(), 0, n),
                    );
                }
            },
            Err(_) => {
                more = false;
            },
        }
    }
}

/// Hands an established connection the next bytes of its stream, and returns the
/// new count of bytes taken.
pub fn offer<const BUF: usize>(
    t: &mut Tcb<BUF>,
    stream: u32,
    sent: u32,
    xfer: u32,
    chunk: u32,
) -> (total: u32)
    requires
        old(t).wf(),
    ensures
        final(t).wf(),
        (final(t)@, total) == offered(old(t)@, stream, sent, xfer, chunk),
{
    if t.state() != State::Established || sent >= xfer {
        return sent;
    }
    let take: u32 = min_u32(chunk, xfer - sent);
    let mut bytes: Vec<u8> = Vec::with_capacity(take as usize);
    let mut i: u32 = 0;
    while i < take
        invariant
            i <= take,
            bytes@.len() == i,
            forall|k: int|
                0 <= k < i ==> bytes@[k] == pattern(stream, sent.wrapping_add(k as u32)),
        decreases take - i,
    {
        bytes.push(pat(stream, sent.wrapping_add(i)));
        i = i + 1;
    }
    assert(bytes@ =~= pattern_bytes(stream, sent, take as int));
    match t.send(bytes.as_slice()) {
        Ok(w) => sent + w as u32,
        Err(_) => sent,
    }
}

/// The first of the `n` bytes of `buf` that differs from a stream from `offset` on,
/// or `n`.
pub fn find_wrong(buf: &[u8], n: usize, stream: u32, offset: u32) -> (k: usize)
    requires
        n <= buf@.len(),
        n <= u32::MAX,
    ensures
        k == first_wrong(buf@.take(n as int), stream, offset, 0),
        k <= n,
{
    let mut i: usize = 0;
    while i < n && buf[i] == pat(stream, offset.wrapping_add(i as u32))
        invariant
            i <= n <= buf@.len(),
            n <= u32::MAX,
            first_wrong(buf@.take(n as int), stream, offset, i as int) == first_wrong(
                buf@.take(n as int),
                stream,
                offset,
                0,
            ),
        decreases n - i,
    {
        i = i + 1;
    }
    i
}

/// Reads from a connection and checks the bytes; returns the new count of bytes
/// read, or where in the stream a byte is wrong.
pub fn check<const BUF: usize>(
    t: &mut Tcb<BUF>,
    stream: u32,
    got: u32,
    room: u32,
) -> (total: Result<u32, u32>)
    requires
        old(t).wf(),
    ensures
        final(t).wf(),
        match checked(old(t)@, stream, got, room) {
            Ok((u, n)) => total == Ok::<u32, u32>(n) && final(t)@ == u,
            Err(at) => total == Err::<u32, u32>(at),
        },
{
    let ghost s = t@;
    let mut buf: Vec<u8> = vec![0u8; room as usize];
    let n: usize = match t.recv(buf.as_mut_slice()) {
        Ok(n) => n,
        Err(_) => {
            return Ok(got);
        },
    };
    assert(buf@.take(n as int) =~= s.recv_ring.take(n as int));
    let k: usize = find_wrong(buf.as_slice(), n, stream, got);
    if k < n {
        return Err(got.wrapping_add(k as u32));
    }
    Ok(got.wrapping_add(n as u32))
}

/// The connection is closed, or only waits for old packets to die.
pub open spec fn finished(s: TcbView) -> bool {
    s.state is Closed || s.state is TimeWait
}

/// Whether a connection is closed, or only waits for old packets to die.
pub fn is_finished<const BUF: usize>(t: &Tcb<BUF>) -> (b: bool)
    ensures
        b == finished(t@),
{
    matches!(t.state(), State::Closed | State::TimeWait)
}

/// Where the client is.
pub open spec fn cli_end() -> EndpointView {
    EndpointView { ip: seq![10u8, 0u8, 0u8, 1u8], port: 40000 }
}

/// Where the server is.
pub open spec fn srv_end() -> EndpointView {
    EndpointView { ip: seq![10u8, 0u8, 0u8, 2u8], port: 80 }
}

/// The client before it connects.
pub open spec fn new_client(buf: usize) -> TcbView {
    created(buf, cli_end(), srv_end(), CLI_ISS, 1000)
}

/// The server before it listens.
pub open spec fn new_server(buf: usize) -> TcbView {
    created(buf, srv_end(), cli_end(), SRV_ISS, 1000)
}

/// The endpoint of the client.
fn client_end() -> (e: Endpoint)
    ensures
        e@ == cli_end(),
{
    let ip: [u8; 4] = [10u8, 0u8, 0u8, 1u8];
    assert(ip@ =~= cli_end().ip);
    Endpoint { ip, port: 40000 }
}

/// The endpoint of the server.
fn server_end() -> (e: Endpoint)
    ensures
        e@ == srv_end(),
{
    let ip: [u8; 4] = [10u8, 0u8, 0u8, 2u8];
    assert(ip@ =~= srv_end().ip);
    Endpoint { ip, port: 80 }
}

/// The client before it connects; `None` when `BUF` is not a power of two.
pub fn make_client<const BUF: usize>() -> (r: Option<Tcb<BUF>>)
    requires
        BUF <= u32::MAX,
    ensures
        r is Some <==> crate::ring::is_power_of_two(BUF as nat),
        r matches Some(t) ==> t.wf() && t@ == new_client(BUF),
{
    let cfg = TcbConfig {
        local: client_end(),
        remote: server_end(),
        iss: CLI_ISS,
        initial_rto_ms: 1000,
    };
    match Tcb::<BUF>::new(cfg) {
        Ok(t) => Some(t),
        Err(_) => None,
    }
}

/// The server before it listens; `None` when `BUF` is not a power of two.
pub fn make_server<const BUF: usize>() -> (r: Option<Tcb<BUF>>)
    requires
        BUF <= u32::MAX,
    ensures
        r is Some <==> crate::ring::is_power_of_two(BUF as nat),
        r matches Some(t) ==> t.wf() && t@ == new_server(BUF),
{
    let cfg = TcbConfig {
        local: server_end(),
        remote: client_end(),
        iss: SRV_ISS,
        initial_rto_ms: 1000,
    };
    match Tcb::<BUF>::new(cfg) {
        Ok(t) => Some(t),
        Err(_) => None,
    }
}

/// A wrong byte of a stream is found, and the first one: every byte before it is right.
pub proof fn law_first_wrong_byte_is_found(b: Seq<u8>, stream: u32, offset: u32, i: int)
    requires
        0 <= i <= b.len(),
    ensures
        ({
            let k = first_wrong(b, stream, offset, i);
            &&& i <= k <= b.len()
            &&& forall|j: int|
                i <= j < k ==> #[trigger] b[j] == pattern(stream, offset.wrapping_add(j as u32))
            &&& k < b.len() ==> b[k] != pattern(stream, offset.wrapping_add(k as u32))
        }),
    decreases b.len() - i,
{
    if i < b.len() && b[i] == pattern(stream, offset.wrapping_add(i as u32)) {
        law_first_wrong_byte_is_found(b, stream, offset, i + 1);
    }
}

} // verus!
