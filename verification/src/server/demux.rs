//! Which of a row of listeners a datagram is for.

use crate::wire::bytes::{be16, get_u16};
use crate::wire::{ip_header_len, IPPROTO_TCP, IPV4_HDR_LEN, TCP_HDR_LEN};
use vstd::prelude::*;

verus! {

/// `b` may be an IPv4 datagram with a TCP header: it is long enough for both.
pub open spec fn looks_like_tcp(b: Seq<u8>) -> bool {
    &&& b.len() >= IPV4_HDR_LEN + TCP_HDR_LEN
    &&& b[0] / 16 == 4
    &&& ip_header_len(b) >= IPV4_HDR_LEN
    &&& b.len() >= ip_header_len(b) + TCP_HDR_LEN
    &&& b[9] == IPPROTO_TCP
}

/// Which of `count` listeners at `ip`, from port `base` on, the datagram `b` is for.
pub open spec fn dest_index(b: Seq<u8>, ip: Seq<u8>, base: u16, count: int) -> Option<int> {
    let port = be16(b, ip_header_len(b) + 2);
    if looks_like_tcp(b) && b.subrange(16, 20) == ip && base <= port < base + count {
        Some(port - base)
    } else {
        None
    }
}

/// Says which of `count` listeners at `ip`, from port `base` on, a datagram is for.
pub fn parse_dest_index(pkt: &[u8], ip: [u8; 4], base: u16, count: usize) -> (r: Option<usize>)
    ensures
        match dest_index(pkt@, ip@, base, count as int) {
            Some(i) => r matches Some(j) && j == i,
            None => r is None,
        },
        r matches Some(j) ==> j < count,
{
    if pkt.len() < IPV4_HDR_LEN + TCP_HDR_LEN {
        return None;
    }
    if pkt[0] / 16 != 4 {
        return None;
    }
    let ihl: usize = (pkt[0] % 16) as usize * 4;
    if ihl < IPV4_HDR_LEN || pkt.len() < ihl + TCP_HDR_LEN {
        return None;
    }
    if pkt[9] != IPPROTO_TCP {
        return None;
    }
    if pkt[16] != ip[0] || pkt[17] != ip[1] || pkt[18] != ip[2] || pkt[19] != ip[3] {
        proof {
            let d = pkt@.subrange(16, 20);
            assert(d[0] == pkt@[16] && d[1] == pkt@[17] && d[2] == pkt@[18] && d[3] == pkt@[19]);
        }
        return None;
    }
    assert(pkt@.subrange(16, 20) =~= ip@);
    let port: u16 = get_u16(pkt, ihl + 2);
    if port < base {
        return None;
    }
    let i: usize = (port - base) as usize;
    if i >= count {
        return None;
    }
    Some(i)
}

} // verus!
