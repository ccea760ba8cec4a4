//! Links, generators and whole transfers.

use tcp_sans_io::sim::chaos::{chaos_decide, next_byte};
use tcp_sans_io::sim::engine::{run, Trouble};
use tcp_sans_io::sim::link::{Fate, Link};
use tcp_sans_io::sim::pair::Side;
use tcp_sans_io::sim::rng::{Chaos, Rng};
use tcp_sans_io::sim::stream::{check, ferry, find_wrong, make_client, make_server, offer, pat};
use tcp_sans_io::sim::transfer::{run_transfer, TransferError};
use tcp_sans_io::State;

const FULL: u64 = 1 << 53;

#[test]
fn generator_gives_known_numbers() {
    let mut rng = Rng { state: 1 };
    assert_eq!(rng.next(), 0x47e4_ce4b_896c_dd1d);
    assert_eq!(rng.next(), 0xabcf_a6a8_e079_651d);
    assert_eq!(rng.next(), 0xb9d1_0d8f_eb73_1f57);
}

#[test]
fn chance_is_never_or_always_at_the_ends() {
    let mut rng = Rng { state: 77 };
    for _ in 0..100 {
        assert!(!rng.chance(0));
        assert!(rng.chance(FULL));
    }
}

#[test]
fn a_perfect_link_asks_no_random_number() {
    let mut rng = Rng { state: 77 };
    let fate = rng.draw(Chaos { lost: 0, repeated: 0, reordered: 0 });
    assert_eq!(fate, Fate { drop: false, dup: false, delay: 0 });
    assert_eq!(rng.state, 77);
    assert!(rng.draw(Chaos { lost: FULL, repeated: 0, reordered: 0 }).drop);
    let late = rng.draw(Chaos { lost: 0, repeated: 0, reordered: FULL });
    assert!((2..=4).contains(&late.delay));
}

#[test]
fn a_link_delivers_in_the_order_of_release() {
    let mut link = Link::new();
    assert!(!link.pending());
    link.offer(0, b"late", Fate { drop: false, dup: false, delay: 2 });
    link.offer(0, b"lost", Fate { drop: true, dup: false, delay: 0 });
    link.offer(0, b"twice", Fate { drop: false, dup: true, delay: 0 });
    assert_eq!(link.drain_ready(0), vec![b"twice".to_vec()]);
    assert!(link.pending());
    assert_eq!(link.drain_ready(1), vec![b"twice".to_vec()]);
    assert_eq!(link.drain_ready(2), vec![b"late".to_vec()]);
    assert!(!link.pending());
}

#[test]
fn decisions_follow_the_input() {
    let mut at = 0;
    assert_eq!(next_byte(&[5, 6], &mut at), 5);
    assert_eq!(next_byte(&[5, 6], &mut at), 6);
    assert_eq!(next_byte(&[5, 6], &mut at), 0);

    let mut budget = 1;
    assert!(chaos_decide(0, true, &mut budget).drop);
    assert_eq!(budget, 0);
    assert!(!chaos_decide(0, true, &mut budget).drop);
    assert!(chaos_decide(8, true, &mut budget).dup);
    assert_eq!(chaos_decide(0x23, true, &mut budget).delay, 4);
    assert_eq!(
        chaos_decide(0x2B, false, &mut budget),
        Fate { drop: false, dup: false, delay: 0 }
    );
}

#[test]
fn streams_are_checked_byte_by_byte() {
    let good: Vec<u8> = (0..8).map(|i| pat(3, 10 + i)).collect();
    assert_eq!(find_wrong(&good, 8, 3, 10), 8);
    let mut bad = good.clone();
    bad[5] ^= 1;
    assert_eq!(find_wrong(&bad, 8, 3, 10), 5);
    assert_eq!(find_wrong(&bad, 5, 3, 10), 5);
}

#[test]
fn client_and_server_start_as_they_should() {
    let client = make_client::<4096>().expect("client");
    let server = make_server::<4096>().expect("server");
    assert_eq!(client.state(), State::Closed);
    assert_eq!(server.state(), State::Closed);
    assert!(make_client::<1000>().is_none());
    assert!(make_server::<1000>().is_none());
    let (mut client, mut server) = (client, server);
    server.listen().expect("listen");
    client.connect().expect("connect");
    ferry(&mut client, &mut server);
    ferry(&mut server, &mut client);
    ferry(&mut client, &mut server);
    assert_eq!(client.state(), State::Established);
    assert_eq!(server.state(), State::Established);
    assert_eq!(offer(&mut client, 1, 0, 100, 10), 10);
    client.tick().expect("tick");
    ferry(&mut client, &mut server);
    assert_eq!(check(&mut server, 1, 0, 100), Ok(10));
    assert_eq!(offer(&mut client, 1, 10, 15, 10), 15);
    client.tick().expect("tick");
    ferry(&mut client, &mut server);
    assert_eq!(check(&mut server, 2, 10, 100), Err(10));
}

#[test]
fn transfers_arrive_over_bad_links() {
    let bad = FULL / 50;
    let cases = [
        Chaos { lost: 0, repeated: 0, reordered: 0 },
        Chaos { lost: bad, repeated: 0, reordered: 0 },
        Chaos { lost: 0, repeated: 0, reordered: bad },
        Chaos { lost: 0, repeated: bad, reordered: 0 },
        Chaos { lost: bad, repeated: bad, reordered: bad },
    ];
    for (i, chaos) in cases.iter().enumerate() {
        assert_eq!(run_transfer::<65536>(60_000, *chaos, i as u64), Ok(()), "case {i}");
    }
    assert_eq!(run_transfer::<1000>(10, cases[0], 1), Err(TransferError::Init));
    for seed in 0..20 {
        let r = run_transfer::<4096>(3_000 + seed as u32, cases[seed as usize % cases.len()], seed);
        assert!(!matches!(r, Err(TransferError::Mismatch(_))));
    }
}

#[test]
fn engine_finds_no_trouble() {
    assert_eq!(run::<65536>(&[], 20_000, 8192), Some(Ok(())));
    let mut rng = Rng { state: 99 };
    for _ in 0..4 {
        let data: Vec<u8> = (0..400).map(|_| (rng.next() >> 40) as u8).collect();
        assert_eq!(run::<32768>(&data, 30_000, 3000), Some(Ok(())));
    }
    assert_eq!(run::<1000>(&[], 10, 10), None);
    for seed in 1..9u8 {
        let data: Vec<u8> = (0..3000u32).map(|i| (i as u8).wrapping_mul(seed).rotate_left(3)).collect();
        let r = run::<4096>(&data, 2_500, 700);
        assert!(!matches!(r, Some(Err(Trouble::Corrupt(_) | Trouble::Inconsistent(_)))));
    }
    assert_ne!(Side::Client, Side::Server);
}
