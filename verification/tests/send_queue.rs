use tcp_sans_io::scoreboard::SackScoreboard;
use tcp_sans_io::send_queue::{SendEntry, SendQueue, SEND_QUEUE_CAP};

fn entries_of(q: &SendQueue) -> Vec<SendEntry> {
    let mut it = q.iter();
    let mut out = Vec::new();
    while let Some(e) = it.next() {
        out.push(*e);
    }
    out
}

#[test]
fn push_pop_basic() {
    let mut q = SendQueue::new();
    assert!(q.is_empty());
    q.push(100, 100, 1, false);
    q.push(200, 100, 2, false);
    assert_eq!(q.len(), 2);
    let entries: Vec<SendEntry> = entries_of(&q);
    assert_eq!(entries[0].seq_start, 100);
    assert_eq!(entries[1].seq_start, 200);
}

#[test]
fn overflow_evicts_oldest() {
    let mut q = SendQueue::new();
    for i in 0..(SEND_QUEUE_CAP + 5) {
        q.push(i as u32 * 100, 100, i as u64, false);
    }
    assert_eq!(q.len(), SEND_QUEUE_CAP);
    // Oldest 5 entries should have been evicted; first remaining is i=5.
    let first = q.iter().next().unwrap();
    assert_eq!(first.send_ts_ms, 5);
}

#[test]
fn prune_drops_acked_entries() {
    let mut q = SendQueue::new();
    let sb = SackScoreboard::new();
    q.push(100, 100, 1, false);
    q.push(200, 100, 2, false);
    q.push(300, 100, 3, false);
    // snd_una advances past first two entries.
    q.prune(300, &sb);
    assert_eq!(q.len(), 1);
    assert_eq!(q.iter().next().unwrap().seq_start, 300);
}

#[test]
fn prune_drops_sacked_entries() {
    let mut q = SendQueue::new();
    let mut sb = SackScoreboard::new();
    q.push(100, 100, 1, false);
    q.push(200, 100, 2, false);
    q.push(300, 100, 3, false);
    sb.add_range(200, 300, 100, 10_000);
    q.prune(100, &sb);
    assert_eq!(q.len(), 2); // 100 stays, 200 dropped, 300 stays
    let entries: Vec<SendEntry> = entries_of(&q);
    assert_eq!(entries[0].seq_start, 100);
    assert_eq!(entries[1].seq_start, 300);
}

#[test]
fn find_latest_covering_picks_newest() {
    let mut q = SendQueue::new();
    q.push(100, 100, 1, false); // original
    q.push(100, 100, 5, true);  // retransmit
    let e = q.find_latest_covering(150).unwrap();
    assert_eq!(e.send_ts_ms, 5);
    assert!(e.is_retx);
}

#[test]
fn highest_unsacked() {
    let mut q = SendQueue::new();
    let mut sb = SackScoreboard::new();
    q.push(100, 100, 1, false);
    q.push(200, 100, 2, false);
    q.push(300, 100, 3, false);
    sb.add_range(300, 400, 0, 10_000);
    let e = q.highest_unsacked(&sb).unwrap();
    assert_eq!(e.seq_start, 200);
}

#[test]
fn the_queue_is_bounded() {
    let mut q = SendQueue::new();
    for k in 0..1000u32 {
        q.push(k * 10, 10, u64::from(k), false);
        assert!(q.len() <= tcp_sans_io::send_queue::SEND_QUEUE_CAP);
    }
    assert_eq!(q.get(q.len() - 1).seq_end, 10_000);
}
