use tcp_sans_io::tcb::{Endpoint, TcbConfig};
use tcp_sans_io::BUF_CAP;

type Tcb = tcp_sans_io::Tcb<BUF_CAP>;

use tcp_sans_io::State;

fn cfg(iss: u32) -> TcbConfig {
    TcbConfig {
        local: Endpoint {
            ip: [10, 0, 0, 1],
            port: 49152,
        },
        remote: Endpoint {
            ip: [10, 0, 0, 2],
            port: 80,
        },
        iss,
        initial_rto_ms: 1000,
    }
}

/// `SendQueue::prune` keeps a *partially* cumulative-ACKed entry whole (RACK
/// needs the send time of the unacked tail), so the highest un-SACKed entry
/// can have `seq_start < snd_una`. A TLP that fires in that state must start
/// at `snd_una` and carry only the still-unacked tail.
#[test]
fn tlp_probe_on_partially_acked_tail_does_not_overflow() {
    let mut tcb: Tcb = Tcb::new(cfg(1000)).expect("tcb");

    // Synthesize an ESTABLISHED connection where a single 1000-byte
    // segment [2000, 3000) was transmitted and recorded, then a later
    // cumulative ACK landed at 2600 — strictly inside it. Its prefix
    // [2000, 2600) is gone from the send ring; the tail [2600, 3000)
    // (400 bytes) is still in flight at the ring head.
    tcb.state = State::Established;
    tcb.snd_wnd = 65_535;
    tcb.rcv_nxt = 5_000;
    tcb.snd_una = 2_600;
    tcb.snd_nxt = 3_000;
    tcb.snd_max = 3_000;
    let copied = tcb.send_ring.write(&[0xAB; 400]);
    assert_eq!(copied, 400, "send ring must hold the 400-byte unacked tail");
    // The full segment, recorded before the partial ACK
    // pruned snd_una forward — seq_start (2000) sits below snd_una.
    tcb.send_queue.push(2_000, 1_000, 1, false);

    // Arm the TLP so this tick fires the probe immediately.
    tcb.srtt_ms = 5;
    tcb.now_ms = 100;
    tcb.tlp_deadline = Some(100);
    tcb.tlp_fired = false;

    tcb.tick()
        .expect("tick must not overflow on a partially-acked TLP tail");

    // The staged probe must cover the unacked tail only: start at
    // snd_una (2600), never at the entry's seq_start (2000).
    let mut buf = [0u8; tcp_sans_io::MAX_PACKET];
    let n = tcb.extract_packet(&mut buf).expect("extract");
    assert!(n > 0, "a TLP probe should have been staged");
    let seg = tcp_sans_io::wire::parse(&buf[..n]).expect("parse probe");
    assert_eq!(seg.seq, 2_600, "probe must start at snd_una, not seq_start");
    assert_eq!(
        seg.payload.len(),
        400,
        "probe carries exactly the unacked tail",
    );
}

/// The RFC 6675 initial retransmit sizes itself from `snd_max - snd_una`,
/// which counts the phantom FIN sequence. When the FIN is the only thing
/// outstanding (all data ACKed → send ring empty) and recovery is entered
/// (e.g. three dup-ACKs at `fin_seq`), there is no byte in the ring to resend:
/// the request is clamped to the bytes the ring actually holds.
#[test]
fn initial_retransmit_with_only_fin_outstanding_does_not_overflow() {
    let mut tcb: Tcb = Tcb::new(cfg(1000)).expect("tcb");

    // All data ACKed, only the FIN in flight: snd_una == fin_seq,
    // snd_max == fin_seq + 1, send ring empty.
    let fin = 5_000u32;
    tcb.state = State::FinWait1;
    tcb.snd_wnd = 65_535;
    tcb.rcv_nxt = 9_000;
    tcb.snd_una = fin;
    tcb.snd_nxt = fin.wrapping_add(1);
    tcb.snd_max = fin.wrapping_add(1);
    tcb.fin_sent = true;
    tcb.fin_seq = fin;

    // Enter recovery exactly as three dup-ACKs at fin_seq would, so the
    // initial retransmit fires with outstanding = snd_max - snd_una = 1
    // (the phantom FIN byte, nothing behind it in the ring).
    tcb.cc.enter_recovery(1, fin.wrapping_add(1));
    tcb.rxt_seq = fin;
    tcb.rxt_unacked = 0;
    tcb.now_ms = 100;

    tcb.tick()
        .expect("tick must not overflow when only the FIN is outstanding");
}

/// A FIN that is the *sole* outstanding segment and gets lost must be
/// retransmitted on RTO, or the close would stall forever.
#[test]
fn lost_fin_is_retransmitted_after_rto() {
    let mut tcb: Tcb = Tcb::new(cfg(1000)).expect("tcb");

    let fin = 5_000u32;
    tcb.state = State::FinWait1;
    tcb.snd_wnd = 65_535;
    tcb.rcv_nxt = 9_000;
    tcb.snd_una = fin;
    tcb.snd_nxt = fin.wrapping_add(1);
    tcb.snd_max = fin.wrapping_add(1);
    tcb.fin_sent = true;
    tcb.fin_seq = fin;
    // FIN is in flight behind an armed RTO that is now due (it was lost).
    tcb.rto_ms = 200;
    tcb.rto_deadline = Some(50);
    tcb.now_ms = 100;

    tcb.tick().expect("tick");

    // The RTO rewinds snd_nxt onto fin_seq, and the FIN block resends it.
    let mut buf = [0u8; tcp_sans_io::MAX_PACKET];
    let n = tcb.extract_packet(&mut buf).expect("extract");
    assert!(n > 0, "a FIN retransmit should have been staged");
    let seg = tcp_sans_io::wire::parse(&buf[..n]).expect("parse");
    assert!(
        seg.has(tcp_sans_io::wire::flags::FIN),
        "retransmit must carry the FIN flag",
    );
    assert_eq!(seg.seq, fin, "FIN retransmit sits at fin_seq");
    assert_eq!(
        tcb.snd_nxt,
        fin.wrapping_add(1),
        "snd_nxt advances past the FIN again",
    );
}

/// State: ESTABLISHED, in fast recovery with `snd_credit == 0`, the pipe
/// fully drained (`snd_nxt == snd_una`, so `flight == 0`), but a segment
/// at `snd_una` is still un-ACKed (`snd_max > snd_una`) and the send ring
/// holds data. With no credit the lost segment could never be resent, and no
/// ACK would arrive to replenish the credit. So recovery is left in this state,
/// and `snd_una` is re-sent to restart the ACK clock.
#[test]
fn prr_empty_pipe_zero_credit_does_not_deadlock() {
    let mut tcb: Tcb = Tcb::new(cfg(1000)).expect("tcb");
    tcb.state = State::Established;
    tcb.snd_wnd = 65_535;
    tcb.rcv_nxt = 9_000;
    let una = 5_000u32;
    tcb.snd_una = una;
    tcb.snd_nxt = una; // flight == 0: nothing newly in flight
    tcb.snd_max = una.wrapping_add(2_000); // 2000 bytes sent-but-unacked (lost)
    let n = tcb.send_ring.write(&[0x5A; 8_000]);
    assert_eq!(n, 8_000, "send ring must hold the unacked + unsent data");

    // Drive PRR into recovery and exhaust the send credit, as after
    // a timeout.
    tcb.cc.enter_recovery(2_000, tcb.snd_max);
    let c = tcb.cc.snd_credit();
    tcb.cc.on_send(c);
    assert_eq!(tcb.cc.snd_credit(), 0);
    assert!(tcb.cc.in_recovery());
    tcb.rxt_seq = una;
    tcb.rxt_unacked = 0;
    tcb.now_ms = 1_000;

    tcb.tick().expect("tick");
    let mut buf = [0u8; tcp_sans_io::MAX_PACKET];
    let m = tcb.extract_packet(&mut buf).expect("extract");
    assert!(m > 0, "stack must emit a segment to restart the ACK clock");
    let seg = tcp_sans_io::wire::parse(&buf[..m]).expect("parse");
    assert_eq!(
        seg.seq, una,
        "the emitted segment must start at snd_una (the lost data)",
    );
    assert!(!seg.payload.is_empty(), "it must carry the buffered bytes");
    assert!(
        !tcb.cc.in_recovery(),
        "the empty-pipe/zero-credit recovery must have been force-exited",
    );
    assert!(
        tcb.debug_check_liveness().is_ok(),
        "after the force-exit a retransmit timer must be armed (live again)",
    );
}

/// The liveness oracle (`debug_check_liveness`) must flag a dead ACK
/// clock: sequence space that is sent-but-unacknowledged with *no*
/// retransmit timer behind it can never be re-sent, so the peer's ACK
/// never comes. The oracle is not vacuous.
#[test]
fn liveness_oracle_flags_outstanding_data_with_no_timer() {
    let mut tcb: Tcb = Tcb::new(cfg(1000)).expect("tcb");
    tcb.state = State::Established;
    tcb.snd_wnd = 65_535;
    tcb.rcv_nxt = 9_000;
    tcb.snd_una = 5_000;
    tcb.snd_nxt = 5_000;
    tcb.snd_max = 7_000; // 2000 bytes sent-but-unacked

    // Healthy: a retransmit timer is armed over the outstanding data.
    tcb.rto_deadline = Some(1_200);
    tcb.tlp_deadline = None;
    tcb.rack_deadline = None;
    assert!(
        tcb.debug_check_liveness().is_ok(),
        "armed RTO over outstanding data is live",
    );

    // Black hole: every retransmit timer disarmed while data is unacked.
    tcb.rto_deadline = None;
    assert_eq!(
        tcb.debug_check_liveness(),
        Err("liveness: outstanding data with no retransmit timer"),
    );

    // TLP or RACK alone is enough to keep the ACK clock alive.
    tcb.tlp_deadline = Some(1_100);
    assert!(tcb.debug_check_liveness().is_ok());
    tcb.tlp_deadline = None;
    tcb.rack_deadline = Some(1_050);
    assert!(tcb.debug_check_liveness().is_ok());

    // Fully acknowledged: no outstanding data, vacuously live.
    tcb.rack_deadline = None;
    tcb.snd_una = tcb.snd_max;
    assert!(
        tcb.debug_check_liveness().is_ok(),
        "no outstanding data is vacuously live",
    );
}

/// The liveness oracle must also flag a stalled persist: data queued to
/// send under a slammed-shut peer window with nothing in flight and no
/// persist timer can never make progress.
#[test]
fn liveness_oracle_flags_zero_window_without_persist() {
    let mut tcb: Tcb = Tcb::new(cfg(1000)).expect("tcb");
    tcb.state = State::Established;
    tcb.rcv_nxt = 9_000;
    tcb.snd_una = 5_000;
    tcb.snd_nxt = 5_000;
    tcb.snd_max = 5_000; // nothing in flight
    tcb.snd_wnd = 0; // peer advertised a zero window
    let n = tcb.send_ring.write(&[0x5A; 1_000]);
    assert_eq!(n, 1_000, "send ring must hold the window-blocked data");

    tcb.persist_deadline = None;
    assert_eq!(
        tcb.debug_check_liveness(),
        Err("liveness: data queued under zero window with no persist timer"),
    );

    // A scheduled persist probe will reopen the window: live again.
    tcb.persist_deadline = Some(1_500);
    assert!(tcb.debug_check_liveness().is_ok());
}

/// In a two-way transfer, once *both*
/// directions rewind `snd_nxt` below the peer's `rcv_nxt` after loss,
/// every pure ACK arrives "old" (`SEG.SEQ < RCV.NXT`). Such a segment is
/// unacceptable per RFC 9293 §3.10.7.4 step 1, but its cumulative ACK must
/// still be processed (it is exactly a duplicate ACK, RFC 5681 §3.2).
/// Dropping the whole segment would make both senders retransmit
/// already-received data forever.
#[test]
fn old_duplicate_ack_still_advances_snd_una() {
    let mut tcb: Tcb = Tcb::new(cfg(1000)).expect("tcb");
    tcb.state = State::Established;
    tcb.snd_wnd = 65_535;
    // We put [5000, 7048) on the wire (snd_max = 7048); an RTO rewound
    // snd_nxt to 6460 (one segment resent), so snd_una still lags.
    tcb.snd_una = 5_000;
    tcb.snd_nxt = 6_460;
    tcb.snd_max = 7_048;
    let n = tcb.send_ring.write(&[0xAB; 2_048]);
    assert_eq!(n, 2_048, "send ring must hold the outstanding bytes");
    // Our receive side has already advanced (we got the peer's data).
    tcb.rcv_nxt = 9_000;
    tcb.rcv_wnd = 8_192;

    // Peer's pure ACK: SEQ = 8700 (300 below our rcv_nxt → an old
    // duplicate), ACK = 7048 (acknowledges *all* our outstanding data).
    let opts = tcp_sans_io::wire::TcpOptions::none();
    let mut buf = [0u8; tcp_sans_io::MAX_PACKET];
    let len = tcp_sans_io::wire::emit(
        &mut buf,
        [10, 0, 0, 2], // src = remote
        [10, 0, 0, 1], // dst = local
        80,
        49152,
        8_700, // SEQ below our rcv_nxt: old duplicate
        7_048, // ACK covers snd_max
        tcp_sans_io::wire::flags::ACK,
        65_535,
        &opts,
        &[],
        1,
        tcp_sans_io::wire::ecn::NOT_ECT,
    )
    .expect("emit");
    tcb.inject_packet(&buf[..len]).expect("inject");

    assert_eq!(
        tcb.snd_una, 7_048,
        "an old-duplicate pure ACK must still advance snd_una to the acked high-water",
    );
}

/// A pure FIN owes no receive-window
/// space, so it must be emitted even when the peer's advertised window is
/// 0, or a close in which the peer's window is momentarily 0 (and never
/// refreshed, because the peer has nothing left to send) would never end.
#[test]
fn fin_is_emitted_into_a_zero_window() {
    let mut tcb: Tcb = Tcb::new(cfg(1000)).expect("tcb");
    tcb.state = State::FinWait1;
    tcb.snd_wnd = 0; // peer advertised a zero window
    tcb.snd_una = 5_000;
    tcb.snd_nxt = 5_000;
    tcb.snd_max = 5_000; // all data acked → send ring empty
    tcb.rcv_nxt = 9_000;
    tcb.now_ms = 1_000;

    tcb.tick().expect("tick");
    let mut buf = [0u8; tcp_sans_io::MAX_PACKET];
    let n = tcb.extract_packet(&mut buf).expect("extract");
    assert!(n > 0, "a FIN must be emitted even into a zero window");
    let seg = tcp_sans_io::wire::parse(&buf[..n]).expect("parse");
    assert!(
        seg.has(tcp_sans_io::wire::flags::FIN),
        "the emitted segment must carry FIN",
    );
    assert_eq!(seg.seq, 5_000, "the FIN sits at snd_nxt");
    assert!(tcb.fin_sent, "fin_sent must be pinned after emission");
    assert_eq!(tcb.fin_seq, 5_000, "fin_seq must record the FIN's sequence");
}

/// RFC 9293 §3.8.3 (R2): a synchronized connection whose peer goes silent
/// must abort after `MAX_RETRANSMITS` unacknowledged retransmission
/// timeouts rather than retransmit forever.
#[test]
fn r2_aborts_after_max_retransmits_without_ack() {
    let mut tcb: Tcb = Tcb::new(cfg(1000)).expect("tcb");
    tcb.state = State::Established;
    tcb.set_user_timeout(0); // isolate R2 (count-based) from USER TIMEOUT
    tcb.snd_wnd = 65_535;
    tcb.rcv_nxt = 9_000;
    tcb.snd_una = 5_000;
    tcb.snd_nxt = 6_460;
    tcb.snd_max = 6_460; // one 1460-byte segment in flight, unacked
    let n = tcb.send_ring.write(&[0xAB; 1_460]);
    assert_eq!(n, 1_460);
    tcb.now_ms = 0;
    tcb.rto_ms = 200;
    tcb.arm_rto_for(tcb.snd_nxt);

    let mut fired = 0u32;
    let mut buf = [0u8; tcp_sans_io::MAX_PACKET];
    for _ in 0..(tcp_sans_io::tcb::MAX_RETRANSMITS as u32 + 5) {
        let dl = tcb.debug_snapshot().rto_deadline;
        if dl == u64::MAX {
            break; // no RTO armed
        }
        tcb.set_now(dl + 1);
        tcb.tick().expect("tick");
        fired += 1;
        if tcb.state() == State::Closed {
            break;
        }
        while tcb.extract_packet(&mut buf).expect("extract") > 0 {}
    }

    assert_eq!(
        fired,
        tcp_sans_io::tcb::MAX_RETRANSMITS as u32 + 1,
        "abort must fire exactly one timeout past the budget",
    );
    assert_eq!(tcb.state(), State::Closed, "R2 must abort the connection");
    assert_eq!(
        tcb.error,
        Some(tcp_sans_io::TcpError::ConnectionReset),
        "the R2 abort surfaces as a local reset",
    );
}

/// The R2 counter resets on any forward ACK progress, so a peer that keeps
/// acknowledging — however slowly — is never spuriously aborted.
#[test]
fn r2_counter_resets_on_ack_progress() {
    let mut tcb: Tcb = Tcb::new(cfg(1000)).expect("tcb");
    tcb.state = State::Established;
    tcb.set_user_timeout(0); // isolate R2 from USER TIMEOUT
    tcb.snd_wnd = 65_535;
    tcb.rcv_nxt = 9_000;
    tcb.snd_una = 5_000;
    tcb.snd_nxt = 6_460;
    tcb.snd_max = 6_460;
    let n = tcb.send_ring.write(&[0xAB; 1_460]);
    assert_eq!(n, 1_460);
    tcb.now_ms = 0;
    tcb.rto_ms = 200;
    tcb.arm_rto_for(tcb.snd_nxt);

    // Fire a few RTOs short of the budget — no abort yet.
    let mut buf = [0u8; tcp_sans_io::MAX_PACKET];
    for _ in 0..(tcp_sans_io::tcb::MAX_RETRANSMITS as u32 - 2) {
        let dl = tcb.debug_snapshot().rto_deadline;
        tcb.set_now(dl + 1);
        tcb.tick().expect("tick");
        while tcb.extract_packet(&mut buf).expect("extract") > 0 {}
    }
    assert!(tcb.rtx_count > 0, "the counter should have accrued");
    assert_eq!(tcb.state(), State::Established, "must not have aborted yet");

    // A cumulative ACK advancing snd_una proves the peer is alive.
    let opts = tcp_sans_io::wire::TcpOptions::none();
    let mut pkt = [0u8; tcp_sans_io::MAX_PACKET];
    let len = tcp_sans_io::wire::emit(
        &mut pkt,
        [10, 0, 0, 2],
        [10, 0, 0, 1],
        80,
        49152,
        9_000, // seq == our rcv_nxt
        5_730, // acks 730 of the outstanding bytes
        tcp_sans_io::wire::flags::ACK,
        65_535,
        &opts,
        &[],
        1,
        tcp_sans_io::wire::ecn::NOT_ECT,
    )
    .expect("emit");
    tcb.inject_packet(&pkt[..len]).expect("inject");

    assert_eq!(tcb.snd_una, 5_730, "the ACK must have advanced snd_una");
    assert_eq!(
        tcb.rtx_count, 0,
        "forward ACK progress must reset the R2 retransmit counter",
    );
}

fn drain_all(tcb: &mut Tcb) -> bool {
    let mut buf = [0u8; tcp_sans_io::MAX_PACKET];
    let mut emitted = false;
    while tcb.extract_packet(&mut buf).expect("extract") > 0 {
        emitted = true;
    }
    emitted
}

fn inject_peer_ack(tcb: &mut Tcb, seq: u32, ack: u32) {
    inject_peer_ack_win(tcb, seq, ack, 65_535);
}

fn inject_peer_ack_win(tcb: &mut Tcb, seq: u32, ack: u32, window: u16) {
    let opts = tcp_sans_io::wire::TcpOptions::none();
    let mut pkt = [0u8; tcp_sans_io::MAX_PACKET];
    let len = tcp_sans_io::wire::emit(
        &mut pkt,
        [10, 0, 0, 2],
        [10, 0, 0, 1],
        80,
        49152,
        seq,
        ack,
        tcp_sans_io::wire::flags::ACK,
        window,
        &opts,
        &[],
        1,
        tcp_sans_io::wire::ecn::NOT_ECT,
    )
    .expect("emit");
    tcb.inject_packet(&pkt[..len]).expect("inject");
}

/// Drive RTO firings (no inbound traffic) until the connection aborts or a
/// generous cap is hit; returns the number of timeouts that fired.
fn run_rtos_until_closed(tcb: &mut Tcb) -> u32 {
    let mut fired = 0u32;
    for _ in 0..(tcp_sans_io::tcb::MAX_RETRANSMITS as u32 + 5) {
        let dl = tcb.debug_snapshot().rto_deadline;
        if dl == u64::MAX {
            break;
        }
        tcb.set_now(dl + 1);
        tcb.tick().expect("tick");
        fired += 1;
        if tcb.state() == State::Closed {
            break;
        }
        drain_all(tcb);
    }
    fired
}

/// Vanished peer on the **connect** path: an unanswered SYN must time out
/// (R2 applies to SYN_SENT) rather than retransmit forever.
#[test]
fn r2_aborts_silent_peer_during_connect() {
    let mut tcb: Tcb = Tcb::new(cfg(1000)).expect("tcb");
    tcb.set_now(0);
    tcb.set_user_timeout(0); // isolate R2 from USER TIMEOUT
    tcb.connect().expect("connect");
    assert_eq!(tcb.state(), State::SynSent);
    drain_all(&mut tcb);

    let fired = run_rtos_until_closed(&mut tcb);
    assert_eq!(
        tcb.state(),
        State::Closed,
        "connect to a silent peer must time out"
    );
    assert_eq!(fired, tcp_sans_io::tcb::MAX_RETRANSMITS as u32 + 1);
}

/// Vanished peer on the **close** path: an unanswered FIN must time out
/// rather than leave us in FIN_WAIT_1 forever.
#[test]
fn r2_aborts_silent_peer_during_close() {
    let mut tcb: Tcb = Tcb::new(cfg(1000)).expect("tcb");
    tcb.state = State::Established;
    tcb.set_user_timeout(0); // isolate R2 from USER TIMEOUT
    tcb.snd_wnd = 65_535;
    tcb.rcv_nxt = 9_000;
    tcb.snd_una = 5_000;
    tcb.snd_nxt = 5_000;
    tcb.snd_max = 5_000;
    tcb.now_ms = 0;
    tcb.rto_ms = 200;
    tcb.close().expect("close");
    assert_eq!(tcb.state(), State::FinWait1);
    drain_all(&mut tcb);

    run_rtos_until_closed(&mut tcb);
    assert_eq!(
        tcb.state(),
        State::Closed,
        "a silent peer during close must time out"
    );
}

/// Proof-of-life isolation: with the USER TIMEOUT disabled, the **R2**
/// retransmit counter alone must never abort a peer that keeps answering
/// (even with non-advancing zero-window / duplicate ACKs) — R2's job is to
/// catch a *silent* peer, and any sign of life resets it. (The
/// no-forward-progress abort of such a stalling-but-alive peer is the USER
/// TIMEOUT's job, covered separately.)
#[test]
fn r2_survives_flow_controlled_alive_peer() {
    let mut tcb: Tcb = Tcb::new(cfg(1000)).expect("tcb");
    tcb.state = State::Established;
    tcb.set_user_timeout(0); // isolate R2: USER TIMEOUT would otherwise abort
    tcb.snd_wnd = 65_535;
    tcb.rcv_nxt = 9_000;
    tcb.snd_una = 5_000;
    tcb.snd_nxt = 6_460;
    tcb.snd_max = 6_460;
    let _ = tcb.send_ring.write(&[0xAB; 1_460]);
    tcb.now_ms = 0;
    tcb.rto_ms = 200;
    tcb.arm_rto_for(tcb.snd_nxt);

    for _ in 0..(tcp_sans_io::tcb::MAX_RETRANSMITS as u32 * 3) {
        let dl = tcb.debug_snapshot().rto_deadline;
        tcb.set_now(dl + 1);
        tcb.tick().expect("tick");
        drain_all(&mut tcb);
        // Peer answers each retransmit with a duplicate ACK (no progress).
        inject_peer_ack(&mut tcb, 9_000, 5_000);
        assert_ne!(
            tcb.state(),
            State::Closed,
            "an answering peer must not be aborted"
        );
    }
    assert_eq!(tcb.state(), State::Established);
    assert!(tcb.rtx_count <= 1, "each answer resets the R2 counter");
}

/// Keepalive catches a vanished peer on an **idle** connection that no
/// other timer would notice (nothing in flight, both sides quiet).
#[test]
fn keepalive_aborts_vanished_idle_peer() {
    let mut tcb: Tcb = Tcb::new(cfg(1000)).expect("tcb");
    tcb.state = State::Established;
    tcb.snd_wnd = 65_535;
    tcb.rcv_nxt = 9_000;
    tcb.snd_una = 5_000;
    tcb.snd_nxt = 5_000;
    tcb.snd_max = 5_000; // idle: nothing in flight
    tcb.set_now(0);
    tcb.set_keepalive(1_000, 200, 3);

    let mut probes = 0u32;
    for _ in 0..10 {
        let dl = match tcb.debug_next_deadline() {
            Some(d) => d,
            None => break,
        };
        tcb.set_now(dl + 1);
        tcb.tick().expect("tick");
        if drain_all(&mut tcb) {
            probes += 1;
        }
        if tcb.state() == State::Closed {
            break;
        }
    }
    assert_eq!(
        tcb.state(),
        State::Closed,
        "keepalive must abort a vanished idle peer"
    );
    assert_eq!(
        probes, 3,
        "exactly keepalive_count probes precede the abort"
    );
}

/// A peer that answers keepalive probes is alive: the connection must
/// survive indefinitely.
#[test]
fn keepalive_survives_responding_peer() {
    let mut tcb: Tcb = Tcb::new(cfg(1000)).expect("tcb");
    tcb.state = State::Established;
    tcb.snd_wnd = 65_535;
    tcb.rcv_nxt = 9_000;
    tcb.snd_una = 5_000;
    tcb.snd_nxt = 5_000;
    tcb.snd_max = 5_000;
    tcb.set_now(0);
    tcb.set_keepalive(1_000, 200, 3);

    for _ in 0..20 {
        let dl = tcb.debug_next_deadline().expect("keepalive armed");
        tcb.set_now(dl + 1);
        tcb.tick().expect("tick");
        drain_all(&mut tcb);
        // Peer answers the probe — proof of life.
        inject_peer_ack(&mut tcb, 9_000, 5_000);
        assert_ne!(tcb.state(), State::Closed, "an answering peer must survive");
    }
    assert_eq!(tcb.state(), State::Established);
}

/// Keepalive is not armed before a segment of the peer has arrived: such an
/// idle connection is left completely alone (no probes, no abort) no matter
/// how much time passes.
#[test]
fn keepalive_off_by_default_leaves_idle_connection_alone() {
    let mut tcb: Tcb = Tcb::new(cfg(1000)).expect("tcb");
    tcb.state = State::Established;
    tcb.snd_wnd = 65_535;
    tcb.rcv_nxt = 9_000;
    tcb.snd_una = 5_000;
    tcb.snd_nxt = 5_000;
    tcb.snd_max = 5_000;

    for i in 0..50u64 {
        tcb.set_now((i + 1) * 100_000); // advance 100 s per tick
        tcb.tick().expect("tick");
        assert!(!drain_all(&mut tcb), "no probes when keepalive is not armed");
        assert_eq!(tcb.state(), State::Established, "idle connection persists");
    }
}

/// The headline attack: a peer that is demonstrably **alive** (it ACKs
/// every zero-window persist probe, so R2 never fires) but **never opens
/// its window** must not pin the connection forever. The no-progress USER
/// TIMEOUT aborts it.
#[test]
fn user_timeout_aborts_alive_but_stalling_zero_window_peer() {
    let mut tcb: Tcb = Tcb::new(cfg(1000)).expect("tcb");
    tcb.state = State::Established;
    tcb.rcv_nxt = 9_000;
    tcb.snd_una = 5_000;
    tcb.snd_nxt = 5_000;
    tcb.snd_max = 5_000;
    tcb.snd_wnd = 0; // peer's window is slammed shut
    let n = tcb.send_ring.write(&[0xAB; 4_000]);
    assert_eq!(n, 4_000, "we have data we cannot send");
    tcb.set_now(0);
    tcb.set_user_timeout(10_000); // 10 s no-progress budget for the test

    // Prime the persist timer (the first tick arms it on the zero window).
    tcb.tick().expect("tick");
    drain_all(&mut tcb);

    let mut probed = false;
    for _ in 0..2_000 {
        let dl = tcb
            .debug_next_deadline()
            .expect("a timer is always armed here");
        tcb.set_now(dl + 1);
        tcb.tick().expect("tick");
        if tcb.state() == State::Closed {
            break;
        }
        // The peer answers the persist probe — proof of life (resets R2) —
        // but keeps advertising a zero window, so no progress is made.
        if drain_all(&mut tcb) {
            probed = true;
        }
        inject_peer_ack_win(&mut tcb, 9_000, 5_000, 0);
        assert_eq!(
            tcb.rtx_count, 0,
            "the answered probe keeps R2 from ever firing"
        );
    }
    assert!(
        probed,
        "the stack must have sent at least one zero-window probe"
    );
    assert_eq!(
        tcb.state(),
        State::Closed,
        "an alive-but-stalling peer must hit the USER TIMEOUT",
    );
    assert_eq!(tcb.error, Some(tcp_sans_io::TcpError::ConnectionReset));
    assert!(
        tcb.now_ms >= 10_000,
        "abort must not fire before the no-progress budget elapses",
    );
}

/// The USER TIMEOUT re-arms on real forward progress, so a peer that keeps
/// genuinely advancing `snd_una` — however slowly — is never aborted.
#[test]
fn user_timeout_resets_on_forward_progress() {
    let mut tcb: Tcb = Tcb::new(cfg(1000)).expect("tcb");
    tcb.state = State::Established;
    tcb.snd_wnd = 65_535;
    tcb.rcv_nxt = 9_000;
    tcb.snd_una = 5_000;
    tcb.snd_nxt = 5_000;
    tcb.snd_max = 5_000;
    tcb.set_now(0);
    tcb.set_user_timeout(10_000);

    let mut una = 5_000u32;
    // 30 rounds of slow-but-real progress, each well within the budget but
    // collectively far past it: the connection must survive.
    for r in 0..30u64 {
        let _ = tcb.send_ring.write(&[0xCD; 100]);
        tcb.set_now(r * 8_000 + 1); // 8 s between rounds (< 10 s budget)
        tcb.tick().expect("tick");
        drain_all(&mut tcb);
        una = una.wrapping_add(100); // peer acknowledges the new bytes
        inject_peer_ack_win(&mut tcb, 9_000, una, 65_535);
        assert_eq!(
            tcb.state(),
            State::Established,
            "progress must keep it alive"
        );
    }
    assert!(
        tcb.now_ms > 10_000,
        "we ran well past a single budget window"
    );
}

/// `set_user_timeout(0)` disables the no-progress abort entirely: a stalled
/// connection then persists indefinitely (host opted out of the defence).
#[test]
fn user_timeout_disabled_allows_indefinite_stall() {
    let mut tcb: Tcb = Tcb::new(cfg(1000)).expect("tcb");
    tcb.state = State::Established;
    tcb.rcv_nxt = 9_000;
    tcb.snd_una = 5_000;
    tcb.snd_nxt = 5_000;
    tcb.snd_max = 5_000;
    tcb.snd_wnd = 0;
    let _ = tcb.send_ring.write(&[0xAB; 4_000]);
    tcb.set_now(0);
    tcb.set_user_timeout(0); // disabled

    // Prime the persist timer, then stall indefinitely.
    tcb.tick().expect("tick");
    drain_all(&mut tcb);

    for _ in 0..200 {
        let dl = tcb.debug_next_deadline().expect("persist stays armed");
        tcb.set_now(dl + 1);
        tcb.tick().expect("tick");
        drain_all(&mut tcb);
        inject_peer_ack_win(&mut tcb, 9_000, 5_000, 0);
        assert_eq!(tcb.state(), State::Established, "no abort when disabled");
    }
    assert!(tcb.now_ms > 10_000_000, "ran for a very long virtual time");
}

/// USER TIMEOUT is on by default at `DEFAULT_USER_TIMEOUT_MS`.
#[test]
fn user_timeout_on_by_default() {
    let tcb: Tcb = Tcb::new(cfg(1000)).expect("tcb");
    assert_eq!(tcb.user_timeout_ms, tcp_sans_io::tcb::DEFAULT_USER_TIMEOUT_MS);
    assert_eq!(tcp_sans_io::tcb::DEFAULT_USER_TIMEOUT_MS, 300_000);
}

/// Recovery that is left by force leaves no retransmissions in the count behind.
#[test]
fn leaving_recovery_clears_the_retransmission_count() {
    let mut tcb: Tcb = Tcb::new(cfg(1000)).expect("tcb");
    tcb.state = State::Established;
    tcb.snd_wnd = 65_535;
    tcb.rcv_nxt = 9_000;
    tcb.snd_una = 5_000;
    tcb.snd_nxt = 5_000;
    tcb.snd_max = 7_000;
    assert_eq!(tcb.send_ring.write(&[0x5A; 8_000]), 8_000);
    tcb.cc.enter_recovery(2_000, tcb.snd_max);
    let c = tcb.cc.snd_credit();
    tcb.cc.on_send(c);
    tcb.rxt_seq = 5_000;
    tcb.rxt_unacked = 1_234;
    tcb.now_ms = 1_000;
    tcb.tick().expect("tick");
    assert!(!tcb.cc.in_recovery());
    assert_eq!(tcb.rxt_unacked, 0);
}

/// A retransmission timeout under a closed window leaves the retransmission timer
/// running for what is outstanding.
#[test]
fn a_timeout_under_a_closed_window_keeps_a_timer() {
    let mut tcb: Tcb = Tcb::new(cfg(1000)).expect("tcb");
    tcb.state = State::Established;
    tcb.rcv_nxt = 9_000;
    tcb.snd_una = 5_000;
    tcb.snd_nxt = 6_000;
    tcb.snd_max = 6_000;
    tcb.snd_wnd = 0;
    assert_eq!(tcb.send_ring.write(&[0x5A; 4_000]), 4_000);
    tcb.rto_deadline = Some(1_000);
    tcb.set_now(1_000);
    tcb.tick().expect("tick");
    assert!(!drain_all(&mut tcb));
    assert!(tcb.rto_deadline.is_some());
    assert!(tcb.persist_deadline.is_some());
    assert!(tcb.debug_check_liveness().is_ok());
}

/// Losses are queued as far as they are outstanding and not acknowledged.
#[test]
fn queued_losses_leave_out_what_is_acknowledged() {
    let mut board = tcp_sans_io::scoreboard::SackScoreboard::new();
    board.add_range(300, 400, 200, 900);
    board.add_range(600, 650, 200, 900);
    let mut q = tcp_sans_io::tcb::lost_queue::RackLostQueue::new();
    q.insert_all(&[(100, 500), (550, 1_000), (620, 640)], &board, 200, 900);
    let mut got = Vec::new();
    while let Some(r) = q.take_lowest() {
        got.push(r);
    }
    assert_eq!(got, [(200, 300), (400, 500), (550, 600), (650, 900)]);
}

#[test]
fn queued_losses_move_up_with_the_edge() {
    let mut q = tcp_sans_io::tcb::lost_queue::RackLostQueue::new();
    for (l, r) in [(700, 800), (100, 200), (300, 500), (320, 330)] {
        q.insert_sorted(l, r, 50);
    }
    q.drop_acked(400);
    assert_eq!(q.take_lowest(), Some((400, 500)));
    q.drop_acked(400);
    assert_eq!(q.take_lowest(), Some((700, 800)));
    assert!(q.is_empty());
    assert_eq!(q.take_lowest(), None);
}

/// A queued loss that the peer has come to hold meanwhile is not sent again.
#[test]
fn a_queued_loss_that_arrived_is_not_sent_again() {
    let mut tcb: Tcb = Tcb::new(cfg(1000)).expect("tcb");
    tcb.state = State::Established;
    tcb.rcv_nxt = 9_000;
    tcb.snd_wnd = 65_535;
    tcb.snd_una = 5_000;
    tcb.snd_nxt = 9_000;
    tcb.snd_max = 9_000;
    assert_eq!(tcb.send_ring.write(&[0x5A; 4_000]), 4_000);
    tcb.sack_enabled = true;
    tcb.cc.enter_recovery(4_000, 9_000);
    tcb.rxt_seq = 6_000;
    tcb.rxt_unacked = 1_000;
    tcb.rack_lost_queue.insert_sorted(6_000, 7_000, 5_000);
    tcb.sack_scoreboard.add_range(6_000, 7_000, 5_000, 9_000);
    tcb.tick().expect("tick");
    assert!(!drain_all(&mut tcb));
    assert!(tcb.rack_lost_queue.is_empty());
    assert_eq!(tcb.rxt_unacked, 1_000);

    // What is missing of another one is.
    tcb.rack_lost_queue.insert_sorted(6_500, 7_400, 5_000);
    tcb.tick().expect("tick");
    let mut buf = [0u8; tcp_sans_io::MAX_PACKET];
    let n = tcb.extract_packet(&mut buf).expect("extract");
    let seg = tcp_sans_io::wire::parse(&buf[..n]).expect("parse");
    assert_eq!(seg.seq, 7_000);
    assert_eq!(seg.payload.len(), 400);
}

/// The snapshot shows the first run that is held out of order.
#[test]
fn the_snapshot_shows_the_first_run() {
    let mut tcb: Tcb = Tcb::new(cfg(1000)).expect("tcb");
    tcb.rcv_nxt = 0xFFFF_FF00;
    assert_eq!(tcb.debug_snapshot().oo_start, 0);
    tcb.reasm.insert(0x200, &[1; 10], tcb.rcv_nxt);
    assert_eq!(tcb.debug_snapshot().oo_start, 0x200);
    tcb.reasm.insert(0xFFFF_FF10, &[2; 20], tcb.rcv_nxt);
    tcb.reasm.insert(0x100, &[3; 30], tcb.rcv_nxt);
    let d = tcb.debug_snapshot();
    assert_eq!(d.oo_start, 0xFFFF_FF10);
    assert_eq!(d.oo_len, 60);
}
