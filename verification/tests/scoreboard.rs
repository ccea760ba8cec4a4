use tcp_sans_io::scoreboard::{Range, SackScoreboard};

#[test]
fn empty_scoreboard_returns_none() {
    let sb = SackScoreboard::new();
    assert!(sb.is_empty());
    assert_eq!(sb.sacked_above(100), 0);
    assert!(!sb.is_lost(100, 1460));
    assert_eq!(sb.next_seg(0, 0, 1460), None);
}

#[test]
fn add_range_basic() {
    let mut sb = SackScoreboard::new();
    sb.add_range(100, 200, 0, 10_000);
    assert_eq!(sb.ranges().len(), 1);
    assert_eq!(sb.ranges()[0], Range { left: 100, right: 200 });
    assert_eq!(sb.sacked_above(0), 100);
    assert_eq!(sb.sacked_above(150), 50);
    assert_eq!(sb.sacked_above(200), 0);
}

#[test]
fn add_range_merges_adjacent() {
    let mut sb = SackScoreboard::new();
    sb.add_range(100, 200, 0, 10_000);
    sb.add_range(200, 300, 0, 10_000);
    assert_eq!(sb.ranges().len(), 1);
    assert_eq!(sb.ranges()[0], Range { left: 100, right: 300 });
}

#[test]
fn add_range_merges_overlapping() {
    let mut sb = SackScoreboard::new();
    sb.add_range(100, 200, 0, 10_000);
    sb.add_range(150, 250, 0, 10_000);
    assert_eq!(sb.ranges().len(), 1);
    assert_eq!(sb.ranges()[0], Range { left: 100, right: 250 });
}

#[test]
fn add_range_drops_invalid() {
    let mut sb = SackScoreboard::new();
    sb.add_range(200, 100, 0, 10_000); // left > right
    sb.add_range(100, 100, 0, 10_000); // empty
    sb.add_range(50, 80, 100, 10_000); // fully below snd_una
    sb.add_range(11_000, 12_000, 0, 10_000); // fully above snd_max
    assert!(sb.is_empty());
}

#[test]
fn prune_below_clips_straddler() {
    let mut sb = SackScoreboard::new();
    sb.add_range(100, 300, 0, 10_000);
    sb.add_range(500, 600, 0, 10_000);
    sb.prune_below(200);
    assert_eq!(sb.ranges().len(), 2);
    assert_eq!(sb.ranges()[0], Range { left: 200, right: 300 });
    assert_eq!(sb.ranges()[1], Range { left: 500, right: 600 });
}

#[test]
fn next_seg_returns_first_lost_gap() {
    let mut sb = SackScoreboard::new();
    // Holes: [0, 1000), gap, [1000, 2000) SACKed, gap, [4000, 5000) SACKed
    // snd_max = 7000, mss = 1000.
    // sacked above 0 = 2000 → ≥ 3*MSS? No (3000). NOT lost.
    sb.add_range(1000, 2000, 0, 7000);
    sb.add_range(4000, 5000, 0, 7000);
    assert_eq!(sb.next_seg(0, 7000, 1000), None);
    // Add one more 1000-byte SACK → 3000 sacked above seq=0 → IS lost.
    sb.add_range(6000, 7000, 0, 7000);
    let seg = sb.next_seg(0, 7000, 1000).expect("should find a lost gap");
    assert_eq!(seg, (0, 1000));
}

#[test]
fn next_seg_skips_sacked_ranges() {
    let mut sb = SackScoreboard::new();
    // SACK ranges: [1000, 2000), [3000, 4000), [5000, 6000), [7000, 8000)
    // Total sacked above 0 = 4000 → IsLost(0) true.
    sb.add_range(1000, 2000, 0, 10_000);
    sb.add_range(3000, 4000, 0, 10_000);
    sb.add_range(5000, 6000, 0, 10_000);
    sb.add_range(7000, 8000, 0, 10_000);
    // Start at 0: cursor=0 (gap). IsLost(0)? 4000 bytes sacked above
    // → true. Gap [0, 1000) returned.
    let seg = sb.next_seg(0, 10_000, 1000).expect("lost gap @0");
    assert_eq!(seg, (0, 1000));
    // Start at 1000 (already SACKed): skip to gap [2000, 3000).
    // IsLost(2000)? sacked_above(2000) = 3000 ≥ 3000 → true.
    let seg = sb.next_seg(1000, 10_000, 1000).expect("lost gap @2000");
    assert_eq!(seg, (2000, 1000));
    // Start at 4000: gap [4000, 5000). IsLost(4000)?
    // sacked_above(4000) = 2000 < 3000 → false. Skip ahead.
    // Gap [6000, 7000): IsLost(6000) = 1000 → false.
    // Gap [8000, 10_000): IsLost(8000) = 0 → false.
    // Result: None.
    assert_eq!(sb.next_seg(4000, 10_000, 1000), None);
}

#[test]
fn ranges_are_sorted_from_the_edge_on() {
    let mut sb = SackScoreboard::new();
    sb.add_range(0xFFFF_FF00, 0xFFFF_FF80, 0xFFFF_FE00, 0x1000);
    sb.add_range(0x10, 0x20, 0xFFFF_FE00, 0x1000);
    assert_eq!(
        sb.ranges(),
        &[Range { left: 0xFFFF_FF00, right: 0xFFFF_FF80 }, Range { left: 0x10, right: 0x20 }]
    );
}

#[test]
fn all_ranges_count_as_sacked() {
    let mut sb = SackScoreboard::new();
    sb.add_range(0x9000_0000, 0x9000_0064, 0x8FFF_0000, 0x9001_0000);
    assert_eq!(sb.sacked_bytes(), 100);
}

#[test]
fn nothing_below_the_edge_is_sent_again() {
    let mut sb = SackScoreboard::new();
    for left in [5000, 7000, 9000] {
        sb.add_range(left, left + 1000, 4000, 20_000);
    }
    assert_eq!(sb.next_seg(0, 20_000, 1000), Some((4000, 1000)));
    assert_eq!(sb.next_seg(4500, 20_000, 1000), Some((4500, 500)));
    sb.prune_below(5500);
    assert_eq!(sb.next_seg(0, 20_000, 500), Some((6000, 500)));
}

/// Each block adds as many bytes as it reports to be new, and nothing when it comes
/// again.
#[test]
fn a_block_adds_what_it_reports() {
    let mut sb = SackScoreboard::new();
    let blocks = [(100, 200, 100), (150, 300, 100), (50, 400, 150), (900, 2000, 100), (5, 5, 0)];
    let mut total = 0;
    for (left, right, new) in blocks {
        assert_eq!(sb.bytes_newly_covered(left, right, 10, 1000), new);
        sb.add_range(left, right, 10, 1000);
        total += new;
        assert_eq!(sb.sacked_bytes(), total);
        assert_eq!(sb.bytes_newly_covered(left, right, 10, 1000), 0);
    }
}

#[test]
fn the_first_hole_is_the_lowest_and_whole() {
    let mut sb = SackScoreboard::new();
    sb.add_range(100, 200, 0, 1000);
    sb.add_range(300, 400, 0, 1000);
    assert_eq!(sb.first_unsacked_subrange(50, 500), Some((50, 100)));
    assert_eq!(sb.first_unsacked_subrange(100, 400), Some((200, 300)));
    assert_eq!(sb.first_unsacked_subrange(100, 200), None);
    assert_eq!(sb.first_unsacked_subrange(350, 500), Some((400, 500)));
    assert_eq!(sb.first_unsacked_subrange(500, 500), None);
}

/// Whatever is done with a scoreboard, also when it is full, its ranges stay apart.
#[test]
fn ranges_stay_apart() {
    let mut sb = SackScoreboard::new();
    let mut x: u32 = 1;
    for step in 0..2000u32 {
        x = x.wrapping_mul(1_103_515_245).wrapping_add(12_345);
        let left = 0xFFFF_F000u32.wrapping_add((x >> 8) % 6000);
        sb.add_range(left, left.wrapping_add(1 + x % 90), 0xFFFF_F000, 0x1000);
        if step % 97 == 0 {
            sb.prune_below(0xFFFF_F000u32.wrapping_add(step));
        }
        let rs = sb.ranges();
        for (i, a) in rs.iter().enumerate() {
            for b in rs.iter().skip(i + 1) {
                let (al, ar) = (a.left.wrapping_sub(0xFFFF_F000), a.right.wrapping_sub(0xFFFF_F000));
                let (bl, br) = (b.left.wrapping_sub(0xFFFF_F000), b.right.wrapping_sub(0xFFFF_F000));
                assert!(ar < bl || br < al);
            }
        }
    }
}
