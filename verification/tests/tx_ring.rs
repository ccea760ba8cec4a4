use tcp_sans_io::error::TcpError;
use tcp_sans_io::tx_ring::{TxRing, TX_RING_CAP};
use tcp_sans_io::MAX_PACKET;

#[test]
fn empty_ring_pops_nothing() {
    let mut r = TxRing::new();
    let mut buf = [0u8; MAX_PACKET];
    assert_eq!(r.pop_into(&mut buf).unwrap(), 0);
    assert!(r.is_empty());
    assert!(!r.is_full());
    assert_eq!(r.peek_head_len(), None);
}

#[test]
fn push_then_pop_roundtrips_bytes() {
    let mut r = TxRing::new();
    assert!(r
        .push_with(|b| {
            b[..3].copy_from_slice(b"abc");
            Ok(3)
        })
        .unwrap());
    assert_eq!(r.len(), 1);
    assert_eq!(r.peek_head_len(), Some(3));
    let mut out = [0u8; 32];
    assert_eq!(r.pop_into(&mut out).unwrap(), 3);
    assert_eq!(&out[..3], b"abc");
    assert!(r.is_empty());
}

#[test]
fn fills_to_capacity_then_refuses() {
    let mut r = TxRing::new();
    for i in 0..TX_RING_CAP {
        assert!(r
            .push_with(|b| {
                b[0] = i as u8;
                Ok(1)
            })
            .unwrap());
    }
    assert!(r.is_full());
    // 33rd push: ring full, returns false (not Err).
    assert!(!r
        .push_with(|b| {
            b[0] = 0xFF;
            Ok(1)
        })
        .unwrap());
    assert_eq!(r.len(), TX_RING_CAP);
}

#[test]
fn fifo_order_preserved() {
    let mut r = TxRing::new();
    for i in 0..5u8 {
        r.push_with(|b| {
            b[0] = i;
            Ok(1)
        })
        .unwrap();
    }
    let mut out = [0u8; 8];
    for i in 0..5u8 {
        assert_eq!(r.pop_into(&mut out).unwrap(), 1);
        assert_eq!(out[0], i);
    }
    assert!(r.is_empty());
}

#[test]
fn push_with_zero_length_errors() {
    let mut r = TxRing::new();
    assert!(matches!(r.push_with(|_| Ok(0)), Err(TcpError::Overflow)));
    assert!(r.is_empty());
}

#[test]
fn push_with_oversize_length_errors() {
    let mut r = TxRing::new();
    assert!(matches!(
        r.push_with(|_| Ok(MAX_PACKET + 1)),
        Err(TcpError::Overflow)
    ));
    assert!(r.is_empty());
}

#[test]
fn pop_into_small_buffer_returns_error_and_keeps_slot() {
    let mut r = TxRing::new();
    r.push_with(|b| {
        b[..4].copy_from_slice(b"data");
        Ok(4)
    })
    .unwrap();
    let mut small = [0u8; 2];
    assert!(matches!(
        r.pop_into(&mut small),
        Err(TcpError::BufferTooSmall)
    ));
    assert_eq!(r.len(), 1, "slot kept on error");
    let mut big = [0u8; 8];
    assert_eq!(r.pop_into(&mut big).unwrap(), 4);
    assert_eq!(&big[..4], b"data");
}

#[test]
fn clear_drops_all_pending() {
    let mut r = TxRing::new();
    for _ in 0..3 {
        r.push_with(|b| {
            b[0] = 1;
            Ok(1)
        })
        .unwrap();
    }
    r.clear();
    assert!(r.is_empty());
    let mut out = [0u8; 8];
    assert_eq!(r.pop_into(&mut out).unwrap(), 0);
}

#[test]
fn ring_wraps_correctly_under_sustained_push_pop() {
    let mut r = TxRing::new();
    let mut buf = [0u8; 8];
    // Push 10, pop 10, push 30, pop 30 — exercises wraparound.
    for i in 0..10u8 {
        r.push_with(|b| {
            b[0] = i;
            Ok(1)
        })
        .unwrap();
    }
    for i in 0..10u8 {
        r.pop_into(&mut buf).unwrap();
        assert_eq!(buf[0], i);
    }
    for i in 0..30u8 {
        r.push_with(|b| {
            b[0] = i;
            Ok(1)
        })
        .unwrap();
    }
    for i in 0..30u8 {
        r.pop_into(&mut buf).unwrap();
        assert_eq!(buf[0], i);
    }
    assert!(r.is_empty());
}
