use tcp_sans_io::selftest::{result, self_conformance};
use tcp_sans_io::sim::stream::pat;

#[test]
fn self_conformance_passes() {
    assert_eq!(self_conformance(), result::OK);
}

#[test]
fn pattern_depends_on_stream_and_offset() {
    // 1 * 2_654_435_761 = 0x9E37_79B1.
    assert_eq!(pat(0, 1), 0x9E);
    assert_eq!(pat(1, 0), 0x9E);
    assert_eq!(pat(1, 1), 0);
    assert_ne!(pat(1, 2), pat(0x8000_0001, 2));
}
