use tcp_sans_io::rack::{detect_lost, Rack};
use tcp_sans_io::send_queue::{SendEntry, SendQueue};

#[test]
fn unprimed_rack_never_marks_lost() {
    let rack = Rack::new();
    let mut q = SendQueue::new();
    q.push_entry(SendEntry { seq_start: 0, seq_end: 1000, send_ts_ms: 100, is_retx: false });
    let r = detect_lost(&rack, &q, 1_000_000);
    assert!(r.lost.is_empty());
    assert_eq!(r.next_deadline, None);
}

#[test]
fn detect_lost_basic() {
    let mut rack = Rack::new();
    rack.set_reo_wnd_from_srtt(40); // reo_wnd = 10
    // Simulate: seg @ ts=100 ends at 1000, seg @ ts=200 ends at 2000.
    // Update RACK with the later delivery.
    rack.update_on_delivery(200, 2000, 250);
    // Now classify the seg @ ts=100, end=1000 at now=400.
    // earlier? yes (100 < 200). elapsed = 400-100 = 300 ≥ rtt(50)+reo_wnd(10) = 60. → Lost.
    let mut q = SendQueue::new();
    q.push_entry(SendEntry { seq_start: 0, seq_end: 1000, send_ts_ms: 100, is_retx: false });
    let r = detect_lost(&rack, &q, 400);
    assert_eq!(r.lost.as_slice(), &[(0, 1000)]);
}

#[test]
fn detect_reorder_deadline() {
    let mut rack = Rack::new();
    rack.set_reo_wnd_from_srtt(40); // reo_wnd = 10
    rack.update_on_delivery(200, 2000, 250);
    // rtt = 50, reo_wnd = 10, threshold = 60.
    // entry @ ts=180, now = 210. elapsed = 30. remaining = 30.
    let mut q = SendQueue::new();
    q.push_entry(SendEntry { seq_start: 0, seq_end: 1000, send_ts_ms: 180, is_retx: false });
    let r = detect_lost(&rack, &q, 210);
    assert!(r.lost.is_empty());
    assert_eq!(r.next_deadline, Some(210 + 30));
}

#[test]
fn not_eligible_when_later_than_delivered() {
    let mut rack = Rack::new();
    rack.set_reo_wnd_from_srtt(40);
    rack.update_on_delivery(200, 2000, 250);
    // Entry @ ts=300 (strictly later than RACK.xmit_ts=200).
    let mut q = SendQueue::new();
    q.push_entry(SendEntry { seq_start: 2000, seq_end: 3000, send_ts_ms: 300, is_retx: false });
    let r = detect_lost(&rack, &q, 10_000);
    assert!(r.lost.is_empty());
    assert_eq!(r.next_deadline, None);
}

#[test]
fn stale_update_ignored() {
    let mut rack = Rack::new();
    rack.update_on_delivery(200, 2000, 250);
    let before = rack;
    // Try to update with an older send-ts.
    rack.update_on_delivery(150, 1500, 200);
    assert_eq!(rack.xmit_ts_ms, before.xmit_ts_ms);
    assert_eq!(rack.end_seq, before.end_seq);
    assert_eq!(rack.rtt_ms, before.rtt_ms);
}

/// The segment that was delivered last is no candidate for loss itself; one sent at
/// the same time below it is.
#[test]
fn the_delivered_segment_is_not_lost() {
    let mut rack = Rack::new();
    rack.set_reo_wnd_from_srtt(40);
    rack.update_on_delivery(200, 2000, 250);
    let same = SendEntry { seq_start: 1000, seq_end: 2000, send_ts_ms: 200, is_retx: false };
    let mut q = SendQueue::new();
    q.push_entry(same);
    let r = detect_lost(&rack, &q, 10_000);
    assert!(r.lost.is_empty());
    assert_eq!(r.next_deadline, None);
    q.push_entry(SendEntry { seq_start: 500, seq_end: 1000, send_ts_ms: 200, is_retx: false });
    assert_eq!(detect_lost(&rack, &q, 10_000).lost.as_slice(), &[(500, 1000)]);
}
