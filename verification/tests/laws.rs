//! What holds of connections in general, on concrete sessions.

use tcp_sans_io::state::allowed_transition;
use tcp_sans_io::tcb::events;
use tcp_sans_io::wire::{self, flags, SackBlocks, TcpOptions};
use tcp_sans_io::{Endpoint, State, TcbConfig, TcpError, MAX_PACKET};

type Tcb = tcp_sans_io::Tcb<65536>;

const C_IP: [u8; 4] = [10, 0, 0, 1];
const S_IP: [u8; 4] = [10, 0, 0, 2];
const C_PORT: u16 = 49152;
const S_PORT: u16 = 80;
const OUR_ISS: u32 = 0x1000_0000;
const PEER_ISS: u32 = 0x9000_0000;

fn make_tcb() -> Tcb {
    Tcb::new(TcbConfig {
        local: Endpoint { ip: C_IP, port: C_PORT },
        remote: Endpoint { ip: S_IP, port: S_PORT },
        iss: OUR_ISS,
        initial_rto_ms: 1000,
    })
    .expect("tcb")
}

fn make_listener() -> Tcb {
    let mut t = make_tcb();
    t.listen().expect("listen");
    t
}

fn peer_pkt(seq: u32, ack: u32, bits: u8, opts: &TcpOptions, payload: &[u8]) -> Vec<u8> {
    let mut buf = vec![0u8; MAX_PACKET];
    let n = wire::emit(
        &mut buf, S_IP, C_IP, S_PORT, C_PORT, seq, ack, bits, 0xFFFF, opts, payload, 0,
        wire::ecn::NOT_ECT,
    )
    .expect("emit");
    buf.truncate(n);
    buf
}

fn bare(seq: u32, ack: u32, bits: u8) -> Vec<u8> {
    peer_pkt(seq, ack, bits, &TcpOptions::none(), &[])
}

/// Takes every packet that waits, checks where it comes from and goes to, and
/// returns it.
fn drain(t: &mut Tcb) -> Vec<Vec<u8>> {
    let mut out = Vec::new();
    let mut buf = vec![0u8; MAX_PACKET];
    loop {
        let n = t.extract_packet(&mut buf).expect("extract");
        if n == 0 {
            return out;
        }
        let seg = wire::parse(&buf[..n]).expect("own packets parse");
        assert_eq!((seg.src_ip, seg.src_port), (C_IP, C_PORT));
        assert_eq!((seg.dst_ip, seg.dst_port), (S_IP, S_PORT));
        out.push(buf[..n].to_vec());
        assert!(out.len() <= 32);
    }
}

fn check(t: &Tcb) {
    t.debug_validate_invariants().expect("consistent");
}

/// Highest sequence number behind the packets.
fn top(pkts: &[Vec<u8>], mut hi: u32) -> u32 {
    for p in pkts {
        let seg = wire::parse(p).expect("parse");
        let extra = u32::from(seg.flags & (flags::SYN | flags::FIN) != 0);
        let end = seg.seq.wrapping_add(seg.payload.len() as u32 + extra);
        if (end.wrapping_sub(hi) as i32) > 0 {
            hi = end;
        }
    }
    hi
}

fn complete_handshake() -> Tcb {
    let mut t = make_tcb();
    t.connect().expect("connect");
    drain(&mut t);
    let mut opts = TcpOptions::none();
    opts.mss = Some(1460);
    opts.sack_permitted = true;
    let p = peer_pkt(PEER_ISS, OUR_ISS.wrapping_add(1), flags::SYN | flags::ACK, &opts, &[]);
    t.inject_packet(&p).expect("inject");
    assert_eq!(t.state(), State::Established);
    drain(&mut t);
    check(&t);
    t
}

#[test]
fn no_loss_session_converges() {
    let mut t = complete_handshake();
    let mut hi = OUR_ISS.wrapping_add(1);
    let mut now = 0;
    for _ in 0..8 {
        let _ = t.send(&[0xAB; 700]);
        now += 1;
        t.set_now(now);
        t.tick().expect("tick");
        hi = top(&drain(&mut t), hi);
        t.inject_packet(&bare(PEER_ISS.wrapping_add(1), hi, flags::ACK)).expect("ack");
        hi = top(&drain(&mut t), hi);
        check(&t);
    }
    t.close().expect("close");
    now += 1;
    t.set_now(now);
    t.tick().expect("tick");
    hi = top(&drain(&mut t), hi);
    t.inject_packet(&bare(PEER_ISS.wrapping_add(1), hi, flags::ACK)).expect("ack");
    let snap = t.debug_snapshot();
    assert_eq!(snap.send_ring_len, 0);
    assert_eq!(snap.snd_una, snap.snd_nxt);
    assert_eq!(t.state(), State::FinWait2);
    check(&t);
}

#[test]
fn ack_of_unsent_data_moves_nothing() {
    let mut t = complete_handshake();
    t.send(&[1; 500]).expect("send");
    t.tick().expect("tick");
    drain(&mut t);
    let before = t.debug_snapshot();
    t.inject_packet(&bare(PEER_ISS.wrapping_add(1), before.snd_nxt.wrapping_add(9), flags::ACK))
        .expect("inject");
    let after = t.debug_snapshot();
    assert_eq!(after.snd_una, before.snd_una);
    assert_eq!(after.snd_nxt, before.snd_nxt);
    assert_eq!(after.snd_wnd, before.snd_wnd);
    assert_eq!(after.send_ring_len, before.send_ring_len);
    assert_eq!(after.state, before.state);
    assert_eq!(drain(&mut t).len(), 1);
}

#[test]
fn repeated_ack_moves_nothing() {
    let mut t = complete_handshake();
    t.send(&[1; 500]).expect("send");
    t.tick().expect("tick");
    drain(&mut t);
    let before = t.debug_snapshot();
    t.inject_packet(&bare(PEER_ISS.wrapping_add(1), before.snd_una, flags::ACK)).expect("inject");
    let after = t.debug_snapshot();
    assert_eq!(after.snd_una, before.snd_una);
    assert_eq!(after.snd_nxt, before.snd_nxt);
    assert_eq!(after.send_ring_len, before.send_ring_len);
    assert_eq!(after.state, before.state);
}

#[test]
fn partial_ack_takes_exactly_what_it_covers() {
    let mut t = complete_handshake();
    t.send(&[1; 500]).expect("send");
    t.tick().expect("tick");
    drain(&mut t);
    let una = t.debug_snapshot().snd_una;
    t.inject_packet(&bare(PEER_ISS.wrapping_add(1), una.wrapping_add(123), flags::ACK))
        .expect("inject");
    assert_eq!(t.debug_snapshot().snd_una, una.wrapping_add(123));
    assert_eq!(t.debug_snapshot().send_ring_len, 377);
    check(&t);
}

#[test]
fn a_reset_leaves_nothing_outstanding() {
    // Refused while the SYN is outstanding.
    let mut t = make_tcb();
    t.connect().expect("connect");
    t.inject_packet(&bare(0, OUR_ISS.wrapping_add(1), flags::RST | flags::ACK)).expect("rst");
    assert_eq!(t.state(), State::Closed);
    check(&t);
    // Reset while our FIN is outstanding.
    let mut t = complete_handshake();
    t.close().expect("close");
    t.inject_packet(&bare(PEER_ISS.wrapping_add(1), 0, flags::RST)).expect("rst");
    assert_eq!(t.state(), State::Closed);
    check(&t);
    assert_eq!(t.recv(&mut [0; 4]), Err(TcpError::ConnectionReset));
}

#[test]
fn closing_twice_is_closing_once() {
    let mut t = complete_handshake();
    t.close().expect("close");
    let first = drain(&mut t);
    assert_eq!(first.len(), 1);
    assert!(wire::parse(&first[0]).expect("parse").has(flags::FIN));
    t.close().expect("close");
    assert_eq!(t.state(), State::FinWait1);
    assert!(drain(&mut t).is_empty());
    check(&t);
}

#[test]
fn tearing_down_empties_and_silences() {
    let mut t = complete_handshake();
    t.send(&[1; 50]).expect("send");
    t.abort().expect("abort");
    assert_eq!(t.state(), State::Closed);
    let out = drain(&mut t);
    assert_eq!(out.len(), 1);
    assert!(wire::parse(&out[0]).expect("parse").has(flags::RST));
    t.abort().expect("abort");
    assert!(drain(&mut t).is_empty());
    assert_eq!(t.debug_snapshot().send_ring_len, 0);
    for now in [1, 1000, 100_000] {
        t.set_now(now);
        t.tick().expect("tick");
        assert!(drain(&mut t).is_empty());
    }
    assert_eq!(
        t.inject_packet(&bare(PEER_ISS.wrapping_add(1), 0, flags::ACK)),
        Err(TcpError::InvalidState)
    );
    assert!(drain(&mut t).is_empty());
}

#[test]
fn a_silent_peer_is_given_up() {
    let mut t = complete_handshake();
    t.set_user_timeout(0);
    t.send(&[1; 50]).expect("send");
    let mut now = 0;
    let mut sent = 0;
    while t.state() == State::Established {
        now += 1000;
        t.set_now(now);
        t.tick().expect("tick");
        sent += drain(&mut t).len();
        check(&t);
        assert!(t.debug_check_liveness().is_ok());
        assert!(now < 3_000_000);
    }
    assert_eq!(t.state(), State::Closed);
    assert!(t.poll() & events::ERROR != 0);
    assert!(sent >= 10);
    assert!(drain(&mut t).is_empty());
}

#[test]
fn a_stuck_connection_is_given_up() {
    let mut t = complete_handshake();
    t.set_user_timeout(5000);
    t.send(&[1; 50]).expect("send");
    t.tick().expect("tick");
    drain(&mut t);
    t.set_now(4000);
    t.tick().expect("tick");
    assert_eq!(t.state(), State::Established);
    t.set_now(5001);
    t.tick().expect("tick");
    assert_eq!(t.state(), State::Closed);
    check(&t);
}

#[test]
fn a_vanished_peer_is_given_up() {
    let mut t = complete_handshake();
    t.set_keepalive(100, 10, 2);
    let mut probes = 0;
    for now in (0..400).step_by(10) {
        t.set_now(now);
        t.tick().expect("tick");
        probes += drain(&mut t).len();
    }
    assert_eq!(probes, 2);
    assert_eq!(t.state(), State::Closed);
}

#[test]
fn transitions_follow_the_diagram() {
    assert!(allowed_transition(State::Closed, State::SynSent));
    assert!(allowed_transition(State::Established, State::CloseWait));
    assert!(allowed_transition(State::FinWait1, State::TimeWait));
    assert!(allowed_transition(State::LastAck, State::LastAck));
    assert!(!allowed_transition(State::Closed, State::Established));
    assert!(!allowed_transition(State::CloseWait, State::Established));
    assert!(!allowed_transition(State::TimeWait, State::Listen));
    assert!(!allowed_transition(State::LastAck, State::TimeWait));

    let mut t = complete_handshake();
    let mut prev = t.state();
    let mut seen = vec![prev];
    t.inject_packet(&bare(PEER_ISS.wrapping_add(1), 0, flags::FIN)).expect("fin");
    t.close().expect("close");
    for now in [1, 2, 3] {
        t.set_now(now);
        t.tick().expect("tick");
        let hi = top(&drain(&mut t), OUR_ISS.wrapping_add(1));
        let next = t.state();
        assert!(allowed_transition(prev, next) || prev == State::Established && next == State::LastAck);
        prev = next;
        seen.push(next);
        let _ = t.inject_packet(&bare(PEER_ISS.wrapping_add(2), hi, flags::ACK));
    }
    assert_eq!(t.state(), State::Closed);
    assert!(seen.contains(&State::LastAck));
}

#[test]
fn a_listener_knows_its_cookie_again() {
    for (later, accepted) in [(0u64, true), (60_000, true), (10_000_000, false)] {
        let mut t = make_listener();
        t.set_cookie_secret(&[7; 16]);
        let before = t.debug_snapshot();
        let mut opts = TcpOptions::none();
        opts.mss = Some(1400);
        t.inject_packet(&peer_pkt(PEER_ISS, 0, flags::SYN, &opts, &[])).expect("syn");
        let after = t.debug_snapshot();
        assert_eq!(t.state(), State::Listen);
        assert_eq!((after.snd_una, after.rcv_nxt), (before.snd_una, before.rcv_nxt));
        let mut buf = vec![0u8; MAX_PACKET];
        let n = t.extract_packet(&mut buf).expect("extract");
        let cookie = wire::parse(&buf[..n]).expect("parse").seq;
        t.set_now(later);
        t.inject_packet(&bare(PEER_ISS.wrapping_add(1), cookie.wrapping_add(1), flags::ACK))
            .expect("ack");
        let expected = if accepted { State::Established } else { State::Listen };
        assert_eq!(t.state(), expected, "after {later} ms");
        check(&t);
    }
}

#[test]
fn our_window_shift_is_the_least_that_fits() {
    fn offered<const BUF: usize>() -> Option<u8> {
        let mut t = tcp_sans_io::Tcb::<BUF>::new(TcbConfig {
            local: Endpoint { ip: C_IP, port: C_PORT },
            remote: Endpoint { ip: S_IP, port: S_PORT },
            iss: 1,
            initial_rto_ms: 1000,
        })
        .expect("tcb");
        t.connect().expect("connect");
        let mut buf = vec![0u8; MAX_PACKET];
        let n = t.extract_packet(&mut buf).expect("extract");
        wire::parse(&buf[..n]).expect("parse").options.wscale
    }
    assert_eq!(offered::<32768>(), Some(0));
    assert_eq!(offered::<65536>(), Some(1));
    assert_eq!(offered::<1048576>(), Some(5));
}

#[test]
fn event_bits_tell_what_there_is() {
    let mut t = complete_handshake();
    assert_eq!(t.poll(), events::WRITABLE | events::ESTABLISHED);
    t.inject_packet(&peer_pkt(
        PEER_ISS.wrapping_add(1),
        OUR_ISS.wrapping_add(1),
        flags::ACK,
        &TcpOptions::none(),
        b"abc",
    ))
    .expect("data");
    assert_eq!(t.poll() & events::READABLE, events::READABLE);
    assert_eq!(make_listener().poll(), events::LISTENING);
    assert_eq!(make_tcb().poll(), events::CLOSED);
}

#[test]
fn what_is_read_is_what_was_sent_in_any_order() {
    let mut t = complete_handshake();
    let stream: Vec<u8> = (0..200u32).map(|i| (i * 7) as u8).collect();
    let base = PEER_ISS.wrapping_add(1);
    // Out of order, overlapping and repeated. A segment that starts before what is
    // expected next adds nothing.
    for (from, to) in [(50, 100), (150, 200), (0, 30), (90, 150), (0, 50), (30, 50), (0, 200)] {
        let p = peer_pkt(
            base.wrapping_add(from as u32),
            OUR_ISS.wrapping_add(1),
            flags::ACK,
            &TcpOptions::none(),
            &stream[from..to],
        );
        t.inject_packet(&p).expect("inject");
        check(&t);
    }
    let mut got = Vec::new();
    let mut buf = [0u8; 33];
    loop {
        let n = t.recv(&mut buf).expect("recv");
        if n == 0 {
            break;
        }
        got.extend_from_slice(&buf[..n]);
    }
    assert_eq!(got, stream);
}

#[test]
fn lost_data_is_sent_again_with_the_same_bytes() {
    let mut t = complete_handshake();
    let data: Vec<u8> = (0..3000u32).map(|i| (i * 13) as u8).collect();
    t.send(&data).expect("send");
    t.tick().expect("tick");
    let mut copy = vec![None; data.len()];
    let mut note = |pkts: Vec<Vec<u8>>| {
        for p in &pkts {
            let seg = wire::parse(p).expect("parse");
            for (i, b) in seg.payload.iter().enumerate() {
                let at = seg.seq.wrapping_sub(OUR_ISS.wrapping_add(1)) as usize + i;
                assert_eq!(*b, data[at]);
                copy[at] = Some(*b);
            }
        }
    };
    note(drain(&mut t));
    // A selective acknowledgement, then silence until the timer runs out.
    let mut opts = TcpOptions::none();
    opts.sack = SackBlocks::one(OUR_ISS.wrapping_add(1461), OUR_ISS.wrapping_add(2000));
    let p = peer_pkt(PEER_ISS.wrapping_add(1), OUR_ISS.wrapping_add(1), flags::ACK, &opts, &[]);
    t.inject_packet(&p).expect("sack");
    note(drain(&mut t));
    for now in (100..5000).step_by(100) {
        t.set_now(now);
        t.tick().expect("tick");
        note(drain(&mut t));
        check(&t);
        assert!(t.debug_check_liveness().is_ok());
    }
    assert!(copy.iter().all(|b| b.is_some()));
}

#[test]
fn a_closed_window_is_probed() {
    let mut t = complete_handshake();
    let mut buf = vec![0u8; MAX_PACKET];
    let n = wire::emit(
        &mut buf, S_IP, C_IP, S_PORT, C_PORT, PEER_ISS.wrapping_add(1), OUR_ISS.wrapping_add(1),
        flags::ACK, 0, &TcpOptions::none(), &[], 0, wire::ecn::NOT_ECT,
    )
    .expect("emit");
    t.inject_packet(&buf[..n]).expect("close window");
    t.send(b"waiting").expect("send");
    t.tick().expect("tick");
    assert!(drain(&mut t).is_empty());
    assert!(t.debug_check_liveness().is_ok());
    t.set_now(2000);
    t.tick().expect("tick");
    let out = drain(&mut t);
    assert_eq!(out.len(), 1);
    assert_eq!(wire::parse(&out[0]).expect("parse").payload, b"w");
    check(&t);
}

#[test]
fn only_expected_errors_come_back() {
    let mut t = complete_handshake();
    assert_eq!(t.inject_packet(&[0; 60]), Err(TcpError::MalformedPacket));
    let mut other = vec![0u8; MAX_PACKET];
    let n = wire::emit(
        &mut other, S_IP, C_IP, 81, C_PORT, 0, 0, flags::ACK, 0, &TcpOptions::none(), &[], 0,
        wire::ecn::NOT_ECT,
    )
    .expect("emit");
    assert_eq!(t.inject_packet(&other[..n]), Err(TcpError::NotForUs));
    assert_eq!(t.send(&vec![0; 70_000]), Ok(65536));
    assert_eq!(t.send(&[0]), Err(TcpError::WouldBlock));
    assert_eq!(make_listener().send(&[0]), Err(TcpError::InvalidState));
    assert_eq!(make_tcb().recv(&mut [0]), Err(TcpError::ConnectionClosed));
}

#[test]
fn an_owed_acknowledgement_is_sent() {
    let mut t = complete_handshake();
    let p = peer_pkt(
        PEER_ISS.wrapping_add(1),
        OUR_ISS.wrapping_add(1),
        flags::ACK,
        &TcpOptions::none(),
        b"abc",
    );
    t.inject_packet(&p).expect("data");
    assert!(drain(&mut t).is_empty());
    t.set_now(1000);
    t.tick().expect("tick");
    let out = drain(&mut t);
    assert_eq!(out.len(), 1);
    assert_eq!(wire::parse(&out[0]).expect("parse").ack, PEER_ISS.wrapping_add(4));
}

#[test]
fn nothing_is_sent_before_the_next_deadline() {
    let mut t = complete_handshake();
    t.set_keepalive(0, 0, 0);
    t.send(&[9; 100]).expect("send");
    t.tick().expect("tick");
    assert_eq!(drain(&mut t).len(), 1);
    let next = t.debug_next_deadline().expect("a timer runs");
    assert!(next > 0);
    for now in 0..next {
        t.set_now(now);
        t.tick().expect("tick");
        assert!(drain(&mut t).is_empty());
    }
    t.set_now(next);
    t.tick().expect("tick");
    assert_eq!(drain(&mut t).len(), 1);
}

#[test]
fn a_timeout_sends_the_oldest_bytes_again() {
    let mut t = complete_handshake();
    t.send(&[1, 2, 3, 4, 5]).expect("send");
    t.tick().expect("tick");
    drain(&mut t);
    t.inject_packet(&bare(PEER_ISS.wrapping_add(1), OUR_ISS.wrapping_add(3), flags::ACK))
        .expect("ack");
    drain(&mut t);
    t.set_now(10_000);
    t.tick().expect("tick");
    let out = drain(&mut t);
    let seg = wire::parse(&out[0]).expect("parse");
    assert_eq!(seg.seq, OUR_ISS.wrapping_add(3));
    assert_eq!(seg.payload, &[3, 4, 5]);
}

#[test]
fn every_round_trip_makes_progress() {
    // Only the first packet of each timeout reaches the peer.
    let mut t = complete_handshake();
    t.set_user_timeout(0);
    let data: Vec<u8> = (0..20_000u32).map(|i| (i % 253) as u8).collect();
    t.send(&data).expect("send");
    t.tick().expect("tick");
    drain(&mut t);
    let mut got: Vec<u8> = Vec::new();
    let mut now = 0;
    let mut rounds = 0;
    while got.len() < data.len() {
        now += 200_000;
        t.set_now(now);
        t.tick().expect("tick");
        let out = drain(&mut t);
        let seg = wire::parse(&out[0]).expect("parse");
        assert_eq!(seg.seq, OUR_ISS.wrapping_add(1 + got.len() as u32));
        assert!(!seg.payload.is_empty());
        got.extend_from_slice(seg.payload);
        let left = t.debug_snapshot().send_ring_len;
        let ack = OUR_ISS.wrapping_add(1 + got.len() as u32);
        t.inject_packet(&bare(PEER_ISS.wrapping_add(1), ack, flags::ACK)).expect("ack");
        drain(&mut t);
        assert!(t.debug_snapshot().send_ring_len < left);
        check(&t);
        rounds += 1;
        assert!(rounds <= data.len());
    }
    assert_eq!(got, data);
}

#[test]
fn what_was_received_is_never_taken_back() {
    let mut t = complete_handshake();
    let mut rcv = t.debug_snapshot().rcv_nxt;
    let base = PEER_ISS.wrapping_add(1);
    for (seq, len, bits) in [
        (0u32, 100usize, flags::ACK),
        (0, 100, flags::ACK),
        (500, 50, flags::ACK),
        (50, 60, flags::ACK),
        (100, 400, flags::ACK),
        (0xFFFF_0000, 10, flags::ACK),
        (550, 5, flags::ACK | flags::FIN),
        (10, 10, flags::ACK),
    ] {
        let p = peer_pkt(
            base.wrapping_add(seq),
            OUR_ISS.wrapping_add(1),
            bits,
            &TcpOptions::none(),
            &vec![7; len],
        );
        t.inject_packet(&p).expect("inject");
        let next = t.debug_snapshot().rcv_nxt;
        assert!((next.wrapping_sub(rcv) as i32) >= 0);
        rcv = next;
    }
    assert_eq!(rcv, base.wrapping_add(556));
}

#[test]
fn tearing_down_tells_the_peer_from_our_side() {
    let mut t = complete_handshake();
    t.send(&[5; 10]).expect("send");
    t.tick().expect("tick");
    t.abort().expect("abort");
    // The helper checks the addresses of every packet.
    let out = drain(&mut t);
    assert_eq!(out.len(), 2);
    assert_eq!(wire::parse(&out[0]).expect("parse").payload, &[5; 10]);
}

/// While bytes wait to be read, asking for none is no error, whatever the state; once
/// all have been read, the stream is over.
#[test]
fn the_stream_is_over_once_it_is_read() {
    let mut t = complete_handshake();
    let seq = PEER_ISS.wrapping_add(1);
    let ack = OUR_ISS.wrapping_add(1);
    let p = peer_pkt(seq, ack, flags::ACK | flags::FIN, &TcpOptions::none(), b"bye");
    t.inject_packet(&p).expect("inject");
    assert_eq!(t.state(), State::CloseWait);
    assert_eq!(t.recv(&mut []), Ok(0));
    let mut buf = [0u8; 2];
    assert_eq!(t.recv(&mut buf), Ok(2));
    assert_eq!(t.recv(&mut []), Ok(0));
    t.close().expect("close");
    assert_eq!(t.state(), State::LastAck);
    assert_eq!(t.recv(&mut []), Ok(0));
    assert_eq!(t.recv(&mut buf), Ok(1));
    assert_eq!(t.recv(&mut []), Err(TcpError::ConnectionClosed));
    assert_eq!(t.recv(&mut buf), Err(TcpError::ConnectionClosed));
}

/// A SYN-ACK answers an offer of window scaling, with a shift of zero where the window
/// needs none.
#[test]
fn window_scaling_is_answered_with_any_shift() {
    for (offer, answer) in [(Some(8), Some(0)), (None, None)] {
        let mut t = tcp_sans_io::Tcb::<16384>::new(TcbConfig {
            local: Endpoint { ip: C_IP, port: C_PORT },
            remote: Endpoint { ip: S_IP, port: S_PORT },
            iss: OUR_ISS,
            initial_rto_ms: 1000,
        })
        .expect("tcb");
        t.listen().expect("listen");
        let mut opts = TcpOptions::none();
        opts.wscale = offer;
        t.inject_packet(&peer_pkt(PEER_ISS, 0, flags::SYN, &opts, &[])).expect("inject");
        let mut buf = vec![0u8; MAX_PACKET];
        let n = t.extract_packet(&mut buf).expect("extract");
        let seg = wire::parse(&buf[..n]).expect("parse");
        assert!(seg.has(flags::SYN) && seg.has(flags::ACK));
        assert_eq!(seg.options.wscale, answer);
    }
}

/// A congestion echo starts recovery at the oldest unacknowledged byte.
#[test]
fn a_congestion_echo_starts_recovery_at_the_oldest_byte() {
    let mut t = make_tcb();
    t.connect().expect("connect");
    drain(&mut t);
    let ack = OUR_ISS.wrapping_add(1);
    let seq = PEER_ISS.wrapping_add(1);
    t.inject_packet(&bare(PEER_ISS, ack, flags::SYN | flags::ACK | flags::ECE)).expect("syn-ack");
    drain(&mut t);
    t.send(&[5; 3000]).expect("send");
    t.tick().expect("tick");
    assert!(!drain(&mut t).is_empty());
    t.rxt_unacked = 99;
    t.inject_packet(&bare(seq, ack, flags::ACK | flags::ECE)).expect("echo");
    assert!(t.cc.in_recovery());
    let out = drain(&mut t);
    let first = wire::parse(&out[0]).expect("parse");
    assert_eq!(first.seq, ack);
    assert!(first.has(flags::CWR));
    assert_eq!(t.rxt_unacked, first.payload.len() as u32);
    assert_eq!(t.rxt_seq, ack.wrapping_add(first.payload.len() as u32));
    check(&t);
}

/// The keepalive schedule of an idle connection whose peer is gone.
#[test]
fn keepalive_probes_come_on_schedule() {
    let mut t = complete_handshake();
    t.set_now(50);
    t.set_keepalive(1000, 200, 3);
    assert_eq!(t.debug_next_deadline(), Some(1050));
    for (early, on_time) in [(1049, 1050), (1249, 1250), (1449, 1450)] {
        t.set_now(early);
        t.tick().expect("tick");
        assert!(drain(&mut t).is_empty());
        t.set_now(on_time);
        t.tick().expect("tick");
        let out = drain(&mut t);
        assert_eq!(out.len(), 1);
        let probe = wire::parse(&out[0]).expect("parse");
        assert_eq!(probe.flags, flags::ACK);
        assert_eq!(probe.seq, OUR_ISS);
        assert!(probe.payload.is_empty());
        assert_eq!(t.debug_next_deadline(), Some(on_time + 200));
    }
    t.set_now(1650);
    t.tick().expect("tick");
    assert!(drain(&mut t).is_empty());
    assert_eq!(t.state(), State::Closed);
    assert!(t.poll() & events::ERROR != 0);
}

#[test]
fn keepalive_can_be_switched_off() {
    let mut t = complete_handshake();
    t.set_keepalive(0, 200, 3);
    assert_eq!(t.debug_next_deadline(), None);
    for now in [1, 1_000_000, 1_000_000_000] {
        t.set_now(now);
        t.tick().expect("tick");
        assert!(drain(&mut t).is_empty());
    }
    assert_eq!(t.state(), State::Established);
}

/// The user timeout is armed for work only, and gives up at its deadline, in silence.
#[test]
fn the_user_timeout_comes_at_its_deadline() {
    let mut t = complete_handshake();
    t.set_now(100);
    t.set_user_timeout(900);
    assert_eq!(t.user_timeout_deadline, None);
    t.send(&[1; 50]).expect("send");
    t.set_user_timeout(0);
    assert_eq!(t.user_timeout_deadline, None);
    t.set_user_timeout(900);
    assert_eq!(t.user_timeout_deadline, Some(1000));
    for now in [100, 500, 999] {
        t.set_now(now);
        t.tick().expect("tick");
        drain(&mut t);
        assert_eq!(t.state(), State::Established);
    }
    t.set_now(1000);
    t.tick().expect("tick");
    assert_eq!(t.state(), State::Closed);
    for p in drain(&mut t) {
        assert!(!wire::parse(&p).expect("parse").has(flags::RST));
    }
    assert_eq!(t.recv(&mut [0; 4]), Err(TcpError::ConnectionReset));
}

/// A close stages one FIN at the next sequence number, or nothing where there is no
/// peer yet.
#[test]
fn a_close_stages_one_fin() {
    let mut t = complete_handshake();
    t.close().expect("close");
    let out = drain(&mut t);
    assert_eq!(out.len(), 1);
    let fin = wire::parse(&out[0]).expect("parse");
    assert_eq!(fin.flags, flags::FIN | flags::ACK);
    assert_eq!(fin.seq, OUR_ISS.wrapping_add(1));
    assert_eq!(t.state(), State::FinWait1);

    let mut t = complete_handshake();
    let fin = bare(PEER_ISS.wrapping_add(1), OUR_ISS.wrapping_add(1), flags::FIN | flags::ACK);
    t.inject_packet(&fin).expect("inject");
    drain(&mut t);
    t.close().expect("close");
    assert_eq!(t.state(), State::LastAck);
    assert_eq!(drain(&mut t).len(), 1);

    let mut t = make_tcb();
    t.connect().expect("connect");
    drain(&mut t);
    t.close().expect("close");
    assert_eq!(t.state(), State::Closed);
    assert!(drain(&mut t).is_empty());

    let mut t = make_listener();
    t.close().expect("close");
    assert_eq!(t.state(), State::Closed);
    assert!(drain(&mut t).is_empty());
}

/// An acknowledgement that completes a handshake and carries the peer's FIN goes two
/// edges at once.
#[test]
fn a_handshake_may_end_with_the_peers_fin() {
    let mut t = make_listener();
    t.inject_packet(&bare(PEER_ISS, 0, flags::SYN)).expect("syn");
    assert_eq!(t.state(), State::SynRcvd);
    let ack = OUR_ISS.wrapping_add(1);
    t.inject_packet(&bare(PEER_ISS.wrapping_add(1), ack, flags::ACK | flags::FIN)).expect("ack");
    assert_eq!(t.state(), State::CloseWait);
    check(&t);
}

/// One that returns a cookie may do so too.
#[test]
fn a_cookie_may_come_back_with_the_peers_fin() {
    let mut t = make_listener();
    t.set_cookie_secret(&[7; 16]);
    t.inject_packet(&bare(PEER_ISS, 0, flags::SYN)).expect("syn");
    assert_eq!(t.state(), State::Listen);
    let mut buf = vec![0u8; MAX_PACKET];
    let n = t.extract_packet(&mut buf).expect("extract");
    let cookie = wire::parse(&buf[..n]).expect("parse").seq;
    let seq = PEER_ISS.wrapping_add(1);
    t.inject_packet(&bare(seq, cookie.wrapping_add(1), flags::ACK | flags::FIN)).expect("ack");
    assert_eq!(t.state(), State::CloseWait);
}

/// A SYN, the SYN-ACK for it, and the client is established; nothing is sent before.
#[test]
fn a_connection_opens_over_a_wire() {
    let mut c = make_tcb();
    c.connect().expect("connect");
    let mut s = Tcb::new(TcbConfig {
        local: Endpoint { ip: S_IP, port: S_PORT },
        remote: Endpoint { ip: C_IP, port: C_PORT },
        iss: PEER_ISS,
        initial_rto_ms: 1000,
    })
    .expect("tcb");
    s.listen().expect("listen");
    let syn = drain(&mut c);
    assert_eq!(syn.len(), 1);
    c.set_now(999);
    c.tick().expect("tick");
    assert!(drain(&mut c).is_empty());
    assert_eq!(c.state(), State::SynSent);
    s.inject_packet(&syn[0]).expect("syn");
    assert_eq!(s.state(), State::SynRcvd);
    let mut buf = vec![0u8; MAX_PACKET];
    let n = s.extract_packet(&mut buf).expect("extract");
    let g = wire::parse(&buf[..n]).expect("parse");
    assert!(g.has(flags::SYN) && g.has(flags::ACK));
    assert_eq!(g.ack, OUR_ISS.wrapping_add(1));
    c.inject_packet(&buf[..n]).expect("syn-ack");
    assert_eq!(c.state(), State::Established);
}

/// Acknowledgements that repeat the last one, writes and reads leave the user timeout as
/// it was set.
#[test]
fn the_user_timeout_runs_whatever_happens() {
    let mut t = complete_handshake();
    t.send(&[1; 50]).expect("send");
    t.set_user_timeout(900);
    let end = t.user_timeout_deadline.expect("armed");
    for now in [end - 800, end - 500, end - 1] {
        t.set_now(now);
        t.inject_packet(&bare(PEER_ISS.wrapping_add(1), OUR_ISS.wrapping_add(1), flags::ACK))
            .expect("ack");
        t.send(&[2; 10]).expect("send");
        let _ = t.recv(&mut [0; 8]);
        t.tick().expect("tick");
        drain(&mut t);
        assert_eq!(t.user_timeout_deadline, Some(end));
        assert_eq!(t.state(), State::Established);
    }
    t.set_now(end);
    t.tick().expect("tick");
    assert_eq!(t.state(), State::Closed);
}
