use tcp_sans_io::tcb::siphash24;

/// Standard test vector from the SipHash reference (Appendix A of the
/// 2012 paper): key = 0x00..0f, message = 0x00..0e (15 bytes), output
/// 0xa129ca6149be45e5.
#[test]
fn vector_15_bytes() {
    let key: [u8; 16] = [
        0x00, 0x01, 0x02, 0x03, 0x04, 0x05, 0x06, 0x07, 0x08, 0x09, 0x0a, 0x0b, 0x0c, 0x0d,
        0x0e, 0x0f,
    ];
    let msg: [u8; 15] = [
        0x00, 0x01, 0x02, 0x03, 0x04, 0x05, 0x06, 0x07, 0x08, 0x09, 0x0a, 0x0b, 0x0c, 0x0d,
        0x0e,
    ];
    assert_eq!(siphash24(&key, &msg), 0xa129_ca61_49be_45e5);
}

/// Empty-message vector: 0x726fdb47dd0e0e31.
#[test]
fn vector_empty() {
    let key: [u8; 16] = [
        0x00, 0x01, 0x02, 0x03, 0x04, 0x05, 0x06, 0x07, 0x08, 0x09, 0x0a, 0x0b, 0x0c, 0x0d,
        0x0e, 0x0f,
    ];
    assert_eq!(siphash24(&key, &[]), 0x726f_db47_dd0e_0e31);
}
