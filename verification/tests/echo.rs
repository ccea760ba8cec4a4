//! The echo server.

use tcp_sans_io::server::conn::find_line_end;
use tcp_sans_io::server::demux::parse_dest_index;
use tcp_sans_io::server::pool::{over_budget, Server};
use tcp_sans_io::wire::{self, flags, TcpOptions};
use tcp_sans_io::{Endpoint, State, TcbConfig, MAX_PACKET};

const IP: [u8; 4] = [10, 99, 0, 2];
const BASE: u16 = 30000;
const BUF: usize = 4096;

type Client = tcp_sans_io::Tcb<BUF>;

fn client(port: u16) -> Client {
    let mut c = Client::new(TcbConfig {
        local: Endpoint { ip: [10, 99, 0, 1], port: 50000 },
        remote: Endpoint { ip: IP, port },
        iss: 77,
        initial_rto_ms: 1000,
    })
    .expect("client");
    c.connect().expect("connect");
    c
}

fn server(secret: Option<[u8; 16]>) -> Server<BUF> {
    Server::new(IP, BASE, &vec![1000, 2000, 3000], secret).expect("server")
}

/// Carries packets both ways and lets the server work, for some rounds; returns
/// what the client has read.
fn converse(s: &mut Server<BUF>, c: &mut Client, from: u64, rounds: u64) -> Vec<u8> {
    let mut got = Vec::new();
    let mut buf = vec![0u8; MAX_PACKET];
    for now in from..from + rounds {
        c.set_now(now);
        c.tick().expect("tick");
        loop {
            let n = c.extract_packet(&mut buf).expect("extract");
            if n == 0 {
                break;
            }
            s.receive(&buf[..n], now);
        }
        let mut stay = Vec::new();
        for i in s.take_active() {
            s.begin_turn(i as usize, now);
            loop {
                let n = s.next_packet(i as usize, &mut buf);
                if n == 0 {
                    break;
                }
                let _ = c.inject_packet(&buf[..n]);
            }
            if s.end_turn(i as usize, now, 4000 + now as u32) {
                stay.push(i);
            }
        }
        s.keep_active(stay);
        let mut room = [0u8; 512];
        while let Ok(n) = c.recv(&mut room) {
            if n == 0 {
                break;
            }
            got.extend_from_slice(&room[..n]);
        }
    }
    got
}

#[test]
fn a_line_is_echoed_and_the_connection_closed() {
    let mut s = server(None);
    let mut c = client(BASE + 1);
    converse(&mut s, &mut c, 0, 10);
    assert_eq!(c.state(), State::Established);
    c.send(b"hello\nand more").expect("send");
    assert_eq!(converse(&mut s, &mut c, 10, 20), b"hello\n");
    assert_eq!(c.state(), State::CloseWait);
    assert_eq!(s.stats.connections_accepted, 1);
    assert_eq!(s.stats.bytes_echoed, 6);
    assert_eq!(s.stats.parse_rejects, 0);
    assert_eq!(s.conns[1].served, 1);
    // The peer closes too, and the listener starts over.
    c.close().expect("close");
    converse(&mut s, &mut c, 30, 20);
    assert_eq!(s.conns[1].tcb.state(), State::Listen);
    assert!(s.active.is_empty());
    assert!(!s.conns[1].active);
    assert_eq!(s.stats.active_now, 0);
    let mut again = client(BASE + 1);
    converse(&mut s, &mut again, 60, 10);
    again.send(b"x\n").expect("send");
    assert_eq!(converse(&mut s, &mut again, 70, 20), b"x\n");
    assert_eq!(s.conns[1].served, 2);
    assert!(s.stats.udp_rx > 0 && s.stats.udp_tx > 0);
}

#[test]
fn a_line_longer_than_the_ring_is_echoed_in_parts() {
    let mut s = server(None);
    let mut c = client(BASE);
    converse(&mut s, &mut c, 0, 10);
    let mut line: Vec<u8> = (0..9000u32).map(|i| b'a' + (i % 26) as u8).collect();
    line.push(b'\n');
    let mut sent = 0;
    let mut got = Vec::new();
    let mut now = 10;
    while sent < line.len() {
        sent += c.send(&line[sent..]).unwrap_or(0);
        got.extend(converse(&mut s, &mut c, now, 5));
        now += 5;
    }
    got.extend(converse(&mut s, &mut c, now, 600));
    assert_eq!(got, line);
    assert_eq!(s.stats.bytes_echoed, 9001);
    assert_eq!(s.stats.connections_accepted, 1);
}

#[test]
fn a_peer_that_closes_is_closed() {
    let mut s = server(None);
    let mut c = client(BASE);
    converse(&mut s, &mut c, 0, 10);
    c.send(b"no line").expect("send");
    converse(&mut s, &mut c, 10, 5);
    assert_eq!(s.conns[0].pending, b"no line");
    c.close().expect("close");
    assert_eq!(converse(&mut s, &mut c, 20, 20), b"no line");
    assert_eq!(c.state(), State::TimeWait);
    assert_eq!(s.conns[0].tcb.state(), State::Listen);
    assert_eq!(s.stats.connections_accepted, 0);
    assert_eq!(s.stats.bytes_echoed, 7);
}

/// A segment of the client that carries `payload` and its FIN.
fn last_segment(c: &Client, payload: &[u8]) -> Vec<u8> {
    let snap = c.debug_snapshot();
    let mut buf = vec![0u8; MAX_PACKET];
    let n = wire::emit(
        &mut buf,
        [10, 99, 0, 1],
        IP,
        50000,
        BASE,
        snap.snd_nxt,
        snap.rcv_nxt,
        flags::ACK | flags::PSH | flags::FIN,
        0xFFFF,
        &TcpOptions::none(),
        payload,
        0,
        wire::ecn::NOT_ECT,
    )
    .expect("emit");
    buf.truncate(n);
    buf
}

/// What comes together with the FIN is echoed too, in either framing; a request is
/// counted by its line feed.
#[test]
fn data_that_comes_with_the_fin_is_echoed() {
    let cases: [(&[u8], u64, u64); 3] = [(b"line\nrest", 5, 1), (b"no line", 7, 0), (b"", 0, 0)];
    for (payload, echoed, counted) in cases {
        let mut s = server(None);
        let mut c = client(BASE);
        converse(&mut s, &mut c, 0, 10);
        assert_eq!(s.receive(&last_segment(&c, payload), 20), Some(0));
        assert_eq!(s.conns[0].tcb.state(), State::CloseWait);
        s.begin_turn(0, 20);
        assert!(s.end_turn(0, 20, 5));
        assert_eq!(s.conns[0].tcb.state(), State::LastAck);
        assert_eq!(s.stats.bytes_echoed, echoed);
        assert_eq!(s.stats.connections_accepted, counted);
        assert_eq!(s.conns[0].served, counted);
    }
}

/// A line that has to wait for room is echoed through its line feed and no further,
/// also when the peer closes meanwhile. It is counted once, when its line feed comes.
#[test]
fn a_deferred_line_ends_at_its_line_feed() {
    let mut s = server(None);
    let mut c = client(BASE);
    converse(&mut s, &mut c, 0, 10);
    let mut line: Vec<u8> = (0..9000u32).map(|i| b'a' + (i % 26) as u8).collect();
    line.push(b'\n');
    s.conns[0].pending = line.clone();
    s.conns[0].pending.pop();
    assert_eq!(s.receive(&last_segment(&c, b"\nbeyond"), 20), Some(0));
    s.begin_turn(0, 20);
    assert!(s.end_turn(0, 20, 5));
    assert_eq!(s.stats.connections_accepted, 1);
    assert_eq!(s.stats.bytes_echoed, BUF as u64);
    assert_eq!(s.conns[0].tcb.state(), State::CloseWait);
    assert_eq!(s.conns[0].pending.len(), line.len() + 6 - BUF);
    // Room comes up as the peer acknowledges.
    let una = s.conns[0].tcb.snd_una;
    s.conns[0].tcb.send_ring.consume(BUF);
    s.conns[0].tcb.snd_una = una.wrapping_add(BUF as u32);
    s.conns[0].tcb.snd_nxt = s.conns[0].tcb.snd_una;
    s.conns[0].tcb.snd_max = s.conns[0].tcb.snd_una;
    assert!(s.end_turn(0, 21, 5));
    s.conns[0].tcb.send_ring.consume(BUF);
    assert!(s.end_turn(0, 22, 5));
    assert_eq!(s.stats.bytes_echoed, line.len() as u64);
    assert_eq!(s.stats.connections_accepted, 1);
    assert_eq!(s.conns[0].served, 1);
    assert!(s.conns[0].closing);
    assert!(s.conns[0].pending.is_empty());
}

#[test]
fn cookies_are_validated() {
    let mut s = server(Some([9; 16]));
    let mut c = client(BASE + 2);
    converse(&mut s, &mut c, 0, 10);
    assert_eq!(c.state(), State::Established);
    assert_eq!(s.stats.cookie_validations, 1);
    c.send(b"hi\n").expect("send");
    assert_eq!(converse(&mut s, &mut c, 10, 20), b"hi\n");
}

#[test]
fn stray_datagrams_are_turned_away() {
    let mut s = server(None);
    let mut c = client(BASE + 3);
    let mut buf = vec![0u8; MAX_PACKET];
    let n = c.extract_packet(&mut buf).expect("extract");
    assert_eq!(s.receive(&buf[..n], 0), None);
    assert_eq!(s.receive(b"junk", 0), None);
    assert_eq!((s.stats.udp_rx, s.stats.parse_rejects), (2, 2));
    let mut c = client(BASE + 2);
    let n = c.extract_packet(&mut buf).expect("extract");
    buf[n - 1] ^= 1;
    assert_eq!(s.receive(&buf[..n], 0), None);
    assert_eq!(s.stats.parse_rejects, 3);
    buf[n - 1] ^= 1;
    assert_eq!(s.receive(&buf[..n], 0), Some(2));
    assert_eq!(s.active, vec![2]);
}

#[test]
fn datagrams_go_by_address_and_port() {
    let mut c = client(BASE + 2);
    let mut buf = vec![0u8; MAX_PACKET];
    let n = c.extract_packet(&mut buf).expect("extract");
    let p = &buf[..n];
    assert_eq!(parse_dest_index(p, IP, BASE, 3), Some(2));
    assert_eq!(parse_dest_index(p, IP, BASE, 2), None);
    assert_eq!(parse_dest_index(p, IP, BASE + 3, 3), None);
    assert_eq!(parse_dest_index(p, [1, 2, 3, 4], BASE, 3), None);
    assert_eq!(parse_dest_index(&p[..39], IP, BASE, 3), None);
    let mut q = p.to_vec();
    q[0] = 0x65;
    assert_eq!(parse_dest_index(&q, IP, BASE, 3), None);
    q[0] = 0x44;
    assert_eq!(parse_dest_index(&q, IP, BASE, 3), None);
    q[0] = 0x45;
    q[9] = 17;
    assert_eq!(parse_dest_index(&q, IP, BASE, 3), None);
}

#[test]
fn lines_end_at_the_first_line_feed() {
    assert_eq!(find_line_end(b"ab\ncd\n"), 2);
    assert_eq!(find_line_end(b"abc"), 3);
    assert_eq!(find_line_end(b""), 0);
}

#[test]
fn memory_is_budgeted() {
    assert_eq!(over_budget(1 << 20, 16, 16), None);
    assert_eq!(over_budget(1 << 20, 17, 16), Some(17));
    assert_eq!(over_budget(usize::MAX, 2, 5), Some(usize::MAX >> 20));
    assert!(Server::<1000>::new(IP, BASE, &vec![1], None).is_err());
    assert!(Server::<1000>::new(IP, BASE, &vec![], None).is_ok());
}

#[test]
fn the_active_set_names_a_connection_once() {
    let mut s = server(None);
    let mut c = client(BASE + 1);
    let mut buf = vec![0u8; MAX_PACKET];
    let n = c.extract_packet(&mut buf).expect("extract");
    for _ in 0..3 {
        assert_eq!(s.receive(&buf[..n], 0), Some(1));
        assert_eq!(s.active, vec![1]);
        assert!(s.conns[1].active);
    }
    let mut other = client(BASE);
    let n = other.extract_packet(&mut buf).expect("extract");
    assert_eq!(s.receive(&buf[..n], 0), Some(0));
    assert_eq!(s.active, vec![1, 0]);
    assert!(!s.conns[2].active);
}
