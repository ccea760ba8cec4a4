//! Handles of foreign hosts.

use tcp_sans_io::handle::{TcpStreamHandle, MAGIC_DEAD, MAGIC_LIVE, NO_STATE};
use tcp_sans_io::tcb::events;
use tcp_sans_io::{State, TcpError, MAX_PACKET};

const A: [u8; 4] = [10, 0, 0, 1];
const B: [u8; 4] = [10, 0, 0, 2];

fn handle(local: [u8; 4], remote: [u8; 4], port: (u16, u16), iss: u32) -> TcpStreamHandle {
    match TcpStreamHandle::init(Some(local), port.0, Some(remote), port.1, iss, 1000) {
        Ok(h) => h,
        Err(code) => panic!("init: {code}"),
    }
}

fn carry(from: &mut TcpStreamHandle, to: &mut TcpStreamHandle, now: u64) -> usize {
    let mut buf = vec![0u8; MAX_PACKET];
    let mut count = 0;
    loop {
        let (code, n) = from.extract_packet(&mut buf);
        assert_eq!(code, 0);
        match n {
            Some(0) => return count,
            Some(n) => assert_eq!(to.inject_packet(&buf[..n], now), 0),
            None => panic!("a call that succeeds has a count"),
        }
        count += 1;
    }
}

#[test]
fn addresses_have_to_be_there() {
    let code = TcpError::NullPointer.as_code();
    assert_eq!(TcpStreamHandle::init(None, 1, Some(B), 2, 3, 1000).err(), Some(code));
    assert_eq!(TcpStreamHandle::init(Some(A), 1, None, 2, 3, 1000).err(), Some(code));
    let h = handle(A, B, (1, 2), 3);
    assert!(h.is_live());
    assert_eq!(h.magic, MAGIC_LIVE);
    assert_eq!(h.state(), State::Closed.as_byte());
    assert_eq!(h.poll(), events::CLOSED);
}

#[test]
fn two_handles_talk() {
    let mut c = handle(A, B, (4000, 80), 100);
    let mut s = handle(B, A, (80, 4000), 900);
    assert_eq!(s.listen(1), 0);
    assert_eq!(c.connect(1), 0);
    assert_eq!(c.connect(1), TcpError::InvalidState.as_code());
    assert_eq!(c.listen(1), TcpError::InvalidState.as_code());
    assert_eq!(carry(&mut c, &mut s, 2), 1);
    assert_eq!(carry(&mut s, &mut c, 3), 1);
    assert_eq!(carry(&mut c, &mut s, 4), 1);
    assert_eq!(c.state(), State::Established.as_byte());
    assert_eq!(c.send(b"hello"), (0, Some(5)));
    assert_eq!(c.tick(5), 0);
    carry(&mut c, &mut s, 6);
    let mut buf = [0u8; 8];
    assert_eq!(s.recv(&mut buf), (0, Some(5)));
    assert_eq!(&buf, b"hello\0\0\0");
    assert_eq!(s.recv(&mut buf), (0, Some(0)));
    let snap = match c.debug_snapshot() {
        Ok(d) => d,
        Err(code) => panic!("snapshot: {code}"),
    };
    assert_eq!(snap.send_ring_len, 5);
    assert_eq!(snap.now_ms, 5);
    assert_eq!(c.close(7), 0);
    assert_eq!(c.state(), State::FinWait1.as_byte());
    assert_eq!(c.send(b"x"), (TcpError::InvalidState.as_code(), None));
}

#[test]
fn a_small_buffer_keeps_the_packet() {
    let mut c = handle(A, B, (4000, 80), 100);
    assert_eq!(c.connect(1), 0);
    let mut small = [7u8; 10];
    assert_eq!(c.extract_packet(&mut small), (TcpError::BufferTooSmall.as_code(), None));
    assert_eq!(small, [7u8; 10]);
    let mut buf = vec![0u8; MAX_PACKET];
    assert!(matches!(c.extract_packet(&mut buf), (0, Some(n)) if n >= 40));
    assert_eq!(c.extract_packet(&mut buf), (0, Some(0)));
}

#[test]
fn a_handle_that_was_torn_down_refuses_every_call() {
    let mut c = handle(A, B, (4000, 80), 100);
    assert_eq!(c.destroy(), 0);
    assert_eq!(c.magic, MAGIC_DEAD);
    assert!(!c.is_live());
    let null = TcpError::NullPointer.as_code();
    let mut buf = [3u8; 4];
    assert_eq!(c.connect(1), null);
    assert_eq!(c.listen(1), null);
    assert_eq!(c.close(1), null);
    assert_eq!(c.tick(1), null);
    assert_eq!(c.set_cookie_secret(Some([0; 16])), null);
    assert_eq!(c.send(&[1]), (null, None));
    assert_eq!(c.recv(&mut buf), (null, None));
    assert_eq!(c.extract_packet(&mut buf), (null, None));
    assert_eq!(c.inject_packet(&[1], 1), null);
    assert_eq!(buf, [3u8; 4]);
    assert_eq!(c.state(), NO_STATE);
    assert_eq!(c.poll(), 0);
    let invalid = TcpError::InvalidState.as_code();
    assert_eq!(c.debug_snapshot().err(), Some(invalid));
    assert_eq!(c.destroy(), invalid);
}

#[test]
fn cookies_need_a_key() {
    let mut s = handle(B, A, (80, 4000), 900);
    assert_eq!(s.set_cookie_secret(None), TcpError::NullPointer.as_code());
    assert_eq!(s.set_cookie_secret(Some([1; 16])), 0);
    assert_eq!(s.listen(1), 0);
    let mut c = handle(A, B, (4000, 80), 100);
    assert_eq!(c.connect(1), 0);
    carry(&mut c, &mut s, 1);
    // A listener with a key keeps no state for a SYN.
    assert_eq!(s.state(), State::Listen.as_byte());
    carry(&mut s, &mut c, 2);
    carry(&mut c, &mut s, 3);
    assert_eq!(s.state(), State::Established.as_byte());
    assert_eq!(s.inject_packet(&[0; 20], 4), TcpError::MalformedPacket.as_code());
}
