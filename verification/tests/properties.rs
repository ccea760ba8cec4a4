//! Properties over many inputs, drawn by a generator with a fixed seed.

use tcp_sans_io::ring::Ring;
use tcp_sans_io::seq::{seq_gt, seq_lt};
use tcp_sans_io::sim::rng::Rng;
use tcp_sans_io::wire::{self, flags, SackBlocks, TcpOptions};
use tcp_sans_io::MAX_PACKET;

fn up_to(rng: &mut Rng, n: u64) -> u64 {
    rng.next() % (n + 1)
}

fn bytes(rng: &mut Rng, n: usize) -> Vec<u8> {
    (0..n).map(|_| (rng.next() >> 32) as u8).collect()
}

fn u32_of(rng: &mut Rng) -> u32 {
    (rng.next() >> 32) as u32
}

#[test]
fn parse_never_panics() {
    let mut rng = Rng { state: 1 };
    for _ in 0..2000 {
        let n = up_to(&mut rng, 2047) as usize;
        let buf = bytes(&mut rng, n);
        let _ = wire::parse(&buf);
    }
}

#[test]
fn parse_never_panics_iplike() {
    let mut rng = Rng { state: 3 };
    for _ in 0..2000 {
        let ihl_words = 5 + up_to(&mut rng, 10) as u8;
        let total_len = 20 + up_to(&mut rng, 1480) as u16;
        let flags_frag = rng.next() as u16;
        let n = up_to(&mut rng, 1499) as usize;
        let rest = bytes(&mut rng, n);
        let mut buf = Vec::with_capacity(20 + rest.len());
        buf.push(0x40 | (ihl_words & 0x0F));
        buf.push(0);
        buf.extend_from_slice(&total_len.to_be_bytes());
        buf.extend_from_slice(&[0, 0]);
        buf.extend_from_slice(&flags_frag.to_be_bytes());
        buf.push(rng.next() as u8);
        buf.push(rng.next() as u8);
        buf.extend_from_slice(&[0, 0]);
        buf.extend_from_slice(&[10, 0, 0, 2]);
        buf.extend_from_slice(&[10, 0, 0, 1]);
        buf.extend_from_slice(&rest);
        let _ = wire::parse(&buf);
    }
}

fn options(rng: &mut Rng) -> TcpOptions {
    let mut o = TcpOptions::none();
    if rng.next() & 1 == 1 {
        o.mss = Some(536 + up_to(rng, 924) as u16);
    }
    if rng.next() & 1 == 1 {
        o.wscale = Some(up_to(rng, 14) as u8);
    }
    if rng.next() & 1 == 1 {
        o.ts = Some((u32_of(rng), u32_of(rng)));
    }
    o.sack_permitted = rng.next() & 1 == 1;
    if rng.next() & 1 == 1 {
        o.sack = SackBlocks::one(u32_of(rng), u32_of(rng));
    }
    o
}

#[test]
fn emit_then_parse_round_trip() {
    let mut rng = Rng { state: 5 };
    for _ in 0..1024 {
        let opts = options(&mut rng);
        let n = up_to(&mut rng, 1400) as usize;
        let payload = bytes(&mut rng, n);
        let (seq, ack) = (u32_of(&mut rng), u32_of(&mut rng));
        let (sp, dp) = (rng.next() as u16, rng.next() as u16);
        let (bits, window) = (rng.next() as u8, rng.next() as u16);
        let mut buf = vec![0u8; MAX_PACKET];
        let n = wire::emit(
            &mut buf, [10, 0, 0, 1], [10, 0, 0, 2], sp, dp, seq, ack, bits, window, &opts,
            &payload, 7, wire::ecn::NOT_ECT,
        )
        .expect("emit");
        let seg = wire::parse(&buf[..n]).expect("parse");
        assert_eq!(seg.src_ip, [10, 0, 0, 1]);
        assert_eq!(seg.dst_ip, [10, 0, 0, 2]);
        assert_eq!((seg.src_port, seg.dst_port), (sp, dp));
        assert_eq!((seg.seq, seg.ack), (seq, ack));
        assert_eq!((seg.flags, seg.window), (bits, window));
        assert_eq!(seg.options.mss, opts.mss);
        assert_eq!(seg.options.wscale, opts.wscale);
        assert_eq!(seg.options.ts, opts.ts);
        assert_eq!(seg.options.sack_permitted, opts.sack_permitted);
        assert_eq!(seg.options.sack.as_slice(), opts.sack.as_slice());
        assert_eq!(seg.payload, payload.as_slice());
        assert_eq!(seg.ecn, wire::ecn::NOT_ECT);
    }
}

#[test]
fn single_bit_corruption_is_detected() {
    let mut rng = Rng { state: 7 };
    for _ in 0..1024 {
        let (seq, ack) = (u32_of(&mut rng), u32_of(&mut rng));
        let n = 1 + up_to(&mut rng, 199) as usize;
        let payload = bytes(&mut rng, n);
        let mut buf = vec![0u8; MAX_PACKET];
        let len = wire::emit(
            &mut buf, [10, 0, 0, 1], [10, 0, 0, 2], 1234, 80, seq, ack, flags::ACK | flags::PSH,
            65535, &TcpOptions::none(), &payload, 0, wire::ecn::NOT_ECT,
        )
        .expect("emit");
        let at = up_to(&mut rng, len as u64 * 8 - 1) as usize;
        buf[at / 8] ^= 1 << (at % 8);
        if let Ok(seg) = wire::parse(&buf[..len]) {
            assert_eq!(seg.seq, seq, "seq survived a flip at byte {}", at / 8);
            assert_eq!(seg.ack, ack);
            assert_eq!(seg.payload, payload.as_slice());
        }
    }
}

#[test]
fn every_flip_that_does_not_lengthen_the_header_is_refused() {
    let mut buf = vec![0u8; MAX_PACKET];
    let len = wire::emit(
        &mut buf, [10, 0, 0, 1], [10, 0, 0, 2], 1234, 80, 1, 2, flags::ACK, 65535,
        &TcpOptions::none(), b"payload", 0, wire::ecn::NOT_ECT,
    )
    .expect("emit");
    for at in 0..len {
        for bit in 0..8 {
            if at == 0 && (bit == 1 || bit == 3) {
                continue;
            }
            buf[at] ^= 1 << bit;
            assert!(wire::parse(&buf[..len]).is_err(), "byte {at} bit {bit}");
            buf[at] ^= 1 << bit;
        }
    }
    assert!(wire::parse(&buf[..len]).is_ok());
}

#[test]
fn ring_round_trip() {
    let mut rng = Rng { state: 9 };
    for _ in 0..128 {
        let mut ring: Ring<4096> = Ring::new().expect("ring");
        let mut written: Vec<u8> = Vec::new();
        for _ in 0..up_to(&mut rng, 31) {
            let n = up_to(&mut rng, 200) as usize;
            let chunk = bytes(&mut rng, n);
            let n = ring.write(&chunk);
            written.extend_from_slice(&chunk[..n]);
            assert_eq!(ring.len() + ring.free(), 4096);
        }
        let mut read_back: Vec<u8> = Vec::new();
        for _ in 0..up_to(&mut rng, 63) {
            let mut buf = vec![0u8; 1 + up_to(&mut rng, 199) as usize];
            let n = ring.read(&mut buf);
            read_back.extend_from_slice(&buf[..n]);
            assert_eq!(ring.len() + ring.free(), 4096);
        }
        while !ring.is_empty() {
            let mut buf = [0u8; 256];
            let n = ring.read(&mut buf);
            read_back.extend_from_slice(&buf[..n]);
        }
        assert_eq!(read_back, written);
    }
}

#[test]
fn ring_peek_at_matches_consume_then_read() {
    let mut rng = Rng { state: 11 };
    for _ in 0..256 {
        let n = up_to(&mut rng, 2000) as usize;
        let seed = bytes(&mut rng, n);
        let offset = up_to(&mut rng, 2000) as usize;
        let len = up_to(&mut rng, 2000) as usize;
        let mut a: Ring<4096> = Ring::new().expect("ring a");
        let mut b: Ring<4096> = Ring::new().expect("ring b");
        let n = a.write(&seed);
        let _ = b.write(&seed[..n]);
        let mut peek = vec![0u8; len];
        let np = a.peek_at(offset, &mut peek);
        b.consume(offset.min(b.len()));
        let mut readb = vec![0u8; len];
        let nr = b.read(&mut readb);
        assert_eq!(np, nr);
        assert_eq!(&peek[..np], &readb[..nr]);
    }
}

#[test]
fn seq_lt_is_antisymmetric() {
    let mut rng = Rng { state: 13 };
    for _ in 0..4096 {
        let (a, b) = (u32_of(&mut rng), u32_of(&mut rng));
        assert!(!seq_lt(a, a) && !seq_gt(a, a));
        if a != b && seq_lt(a, b) {
            assert!(seq_gt(b, a));
            assert!(!seq_lt(b, a));
        }
    }
}

#[test]
fn seq_wraparound_consistent() {
    let mut rng = Rng { state: 15 };
    let half = 1u32 << 31;
    for _ in 0..4096 {
        let a = u32_of(&mut rng);
        assert!(seq_lt(a, a.wrapping_add(1)));
        assert!(seq_lt(a, a.wrapping_add(half - 1)));
        assert!(seq_gt(a, a.wrapping_sub(1)));
        assert!(seq_gt(a, a.wrapping_sub(half - 1)));
    }
}
