use tcp_sans_io::reassembly::{Reassembly, MAX_HOLES};

/// Drain every contiguous run starting at `*rcv_nxt`, advancing it. This
/// mirrors `Tcb::drain_reassembly` but without a receive ring, so the test
/// can observe exactly which bytes the reassembler can hand off in order.
fn drain_contig(r: &mut Reassembly, rcv_nxt: &mut u32) -> Vec<u8> {
    let mut out = Vec::new();
    let mut guard = 0;
    while let Some((idx, start, len)) = r.ready_slot(*rcv_nxt) {
        assert_eq!(start, *rcv_nxt, "ready_slot must match rcv_nxt exactly");
        out.extend_from_slice(&r.slot_bytes(idx)[..len]);
        *rcv_nxt = rcv_nxt.wrapping_add(len as u32);
        r.commit_drain(idx, len);
        guard += 1;
        assert!(guard <= MAX_HOLES + 2, "drain made no progress");
    }
    out
}

/// A non-overlapping pair of out-of-order runs must be held verbatim and
/// then drained in order once the gap is closed.
#[test]
fn disjoint_runs_reassemble_in_order() {
    let mut r = Reassembly::new();
    let a = [0xAA; 100];
    let b = [0xBB; 100];
    assert_eq!(r.insert(110, &a, 100), 100); // [110, 210)
    assert_eq!(r.insert(210, &b, 100), 100); // [210, 310) — abuts, merges
    assert_eq!(r.held_bytes(), 200);
    let filler = [0xCC; 10];
    // Simulate the gap [100,110) being delivered in order, then drain.
    let mut rcv = 110u32;
    let _ = filler;
    let drained = drain_contig(&mut r, &mut rcv);
    assert_eq!(drained.len(), 200);
    assert_eq!(rcv, 310);
    assert!(r.is_empty());
}

/// A run that *starts inside* an already-held run (a right /
/// middle overlap) must not be stored as a second, overlapping slot.
///
/// With overlapping slots,
///   * `held_bytes()` double-counts the overlap, so the advertised receive
///     window is under-reported for the life of the connection (a bounded
///     but permanent shrink), and
///   * once the lower slot drains, the higher slot is stranded with
///     `start < rcv_nxt` and can never be drained — the receiver can never
///     hand those bytes to the application even though it ACK/SACKed them,
///     wedging `rcv_nxt` (a receive-side stall no timer recovers).
#[test]
fn right_overlap_is_merged_not_duplicated() {
    let mut r = Reassembly::new();
    let a = [0xAA; 100]; // [100, 200)
    let b = [0xBB; 150]; // [150, 300) — starts inside `a`, extends past it
    assert_eq!(r.insert(100, &a, 0), 100);
    r.insert(150, &b, 0);

    // The distinct held span is [100, 300) = 200 bytes. A double-counting
    // overlap would report 250.
    assert_eq!(
        r.held_bytes(),
        200,
        "overlapping slots double-count held_bytes (window-shrink DoS)"
    );

    // Everything drains contiguously from 100 with nothing stranded.
    let mut rcv = 100u32;
    let drained = drain_contig(&mut r, &mut rcv);
    assert_eq!(drained.len(), 200, "stranded receive data (rcv_nxt wedge)");
    assert_eq!(rcv, 300);
    assert!(r.is_empty(), "no slot left stranded below rcv_nxt");
    // The non-overlapping regions keep their original bytes.
    assert_eq!(&drained[..50], &[0xAA; 50]); // [100,150) — only in `a`
    assert_eq!(&drained[150..], &[0xBB; 50]); // [250,300) — only in `b`
}

/// A run that fully spans an existing slot (overlap on both sides) must
/// also avoid creating overlaps; the surplus is dropped (RTO-recoverable),
/// never stored as an overlapping slot.
#[test]
fn spanning_overlap_keeps_disjoint_invariant() {
    let mut r = Reassembly::new();
    let mid = [0x11; 50]; // [200, 250)
    let span = [0x22; 300]; // [100, 400) — engulfs [200,250)
    assert_eq!(r.insert(200, &mid, 0), 50);
    r.insert(100, &span, 0);
    // No overlap may exist: the held total can never exceed the true span
    // [100,400) = 300 bytes.
    assert!(
        r.held_bytes() <= 300,
        "spanning insert created an overlapping slot: held={}",
        r.held_bytes()
    );
    // Whatever is held must drain in one contiguous, strictly-advancing
    // sequence from 100 (no slot stranded below rcv_nxt).
    let mut rcv = 100u32;
    let drained = drain_contig(&mut r, &mut rcv);
    assert_eq!(drained.len() as u32, rcv.wrapping_sub(100));
    assert!(r.is_empty(), "no stranded slot after spanning overlap");
}

/// A fully-duplicate run (already entirely covered) is dropped.
#[test]
fn fully_covered_run_is_dropped() {
    let mut r = Reassembly::new();
    let a = [0xAA; 200];
    assert_eq!(r.insert(100, &a, 0), 200);
    // [120,180) ⊂ [100,300): nothing new.
    let inner = [0xBB; 60];
    assert_eq!(r.insert(120, &inner, 0), 0);
    assert_eq!(r.held_bytes(), 200);
}

/// Runs stay apart whatever is done, also with runs that lie behind the next byte
/// expected.
#[test]
fn runs_stay_apart_in_any_order() {
    let mut r = Reassembly::new();
    let data = [7u8; 400];
    let steps: [(u32, usize, u32); 9] = [
        (1000, 100, 900),
        (1300, 100, 900),
        (1050, 300, 900),
        (1200, 300, 1150),
        (950, 20, 900),
        (900, 400, 960),
        (1290, 30, 1600),
        (1700, 400, 1200),
        (880, 400, 870),
    ];
    for (k, (seq, len, rcv_nxt)) in steps.into_iter().enumerate() {
        r.insert(seq, &data[..len], rcv_nxt);
        assert!(r.debug_overlap_free());
        r.commit_drain(k % 5, 10 * k);
        assert!(r.debug_overlap_free());
    }
    r.clear();
    assert!(r.debug_overlap_free());
}

#[test]
fn a_slot_that_is_not_there_holds_nothing() {
    let mut r = Reassembly::new();
    r.insert(1000, b"abc", 900);
    assert_eq!(r.slot_bytes(0), b"abc");
    assert!(r.slot_bytes(4).is_empty());
    assert!(r.slot_bytes(usize::MAX).is_empty());
}

/// Bytes in front of a held run join it, and a run is handed on in parts.
#[test]
fn runs_grow_at_the_front_and_shrink_there() {
    let mut r = Reassembly::new();
    r.insert(1010, b"klmno", 900);
    r.insert(1000, b"abcde", 900);
    r.insert(1005, b"fghij", 900);
    let whole = (0..4).find(|&i| r.slot_bytes(i).len() == 15).expect("one run");
    assert_eq!(r.slot_bytes(whole), b"abcdefghijklmno");
    r.commit_drain(whole, 4);
    assert_eq!(r.slot_bytes(whole), b"efghijklmno");
    r.commit_drain(whole, 11);
    assert!(r.slot_bytes(whole).is_empty());
}
