//! The echo server's command line.

use tcp_sans_io::server::number::{
    hex_digit, parse_decimal, parse_hex32, parse_ip4, Ip4Fault, NumFault,
};
use tcp_sans_io::server::settings::{
    key_from_seed, parse_args, ArgError, Fault, Request, Settings,
};

fn read(args: &[&str]) -> Result<Request, ArgError> {
    let bytes: Vec<Vec<u8>> = args.iter().map(|a| a.as_bytes().to_vec()).collect();
    let addrs: Vec<bool> =
        args.iter().map(|a| a.contains(':')).collect();
    parse_args(&bytes, &addrs, 0)
}

fn settings(args: &[&str]) -> Settings {
    match read(args) {
        Ok(Request::Run(s)) => s,
        Ok(Request::Help) => panic!("help"),
        Err(e) => panic!("{e:?}"),
    }
}

fn error(args: &[&str]) -> ArgError {
    match read(args) {
        Err(e) => e,
        Ok(_) => panic!("accepted"),
    }
}

#[test]
fn nothing_given_gives_the_defaults() {
    let s = settings(&[]);
    assert_eq!(s.server_ip, [10, 99, 0, 2]);
    assert_eq!(s.base_port, 30000);
    assert_eq!(s.num_listeners, 16);
    assert_eq!(s.memory_cap_mib, 4096);
    assert_eq!(s.cookie_secret, None);
    assert_eq!((s.listen_udp, s.peer_udp), (None, None));
    assert!(!s.quiet);
}

#[test]
fn every_option_is_taken() {
    let s = settings(&[
        "--listen-udp", "127.0.0.1:1", "--peer-udp", "127.0.0.1:2", "--server-ip", "1.2.3.4",
        "--base-port", "+100", "--num-listeners", "7", "--cookies",
        "000102030405060708090a0B0c0D0e0F", "--memory-cap-mib", "12", "--quiet",
    ]);
    assert_eq!((s.listen_udp, s.peer_udp), (Some(1), Some(3)));
    assert_eq!(s.server_ip, [1, 2, 3, 4]);
    assert_eq!((s.base_port, s.num_listeners), (100, 7));
    assert_eq!(
        s.cookie_secret,
        Some([0, 1, 2, 3, 4, 5, 6, 7, 8, 9, 10, 11, 12, 13, 14, 15])
    );
    assert_eq!(s.memory_cap_mib, 12);
    assert!(s.quiet);
}

#[test]
fn the_last_value_of_an_option_counts() {
    let s = settings(&["--cookies", "random", "--cookies", "none", "--base-port", "1",
        "--base-port", "2"]);
    assert_eq!(s.cookie_secret, None);
    assert_eq!(s.base_port, 2);
}

#[test]
fn help_comes_before_later_faults() {
    assert!(matches!(read(&["-h", "--nonsense"]), Ok(Request::Help)));
    assert!(matches!(read(&["--help"]), Ok(Request::Help)));
    assert_eq!(error(&["--nonsense", "-h"]), ArgError::Unknown(0));
}

#[test]
fn faults_are_told_apart() {
    assert_eq!(error(&["--quiet", "--base-port"]), ArgError::NoValue(1));
    assert_eq!(error(&["--listen-udp", "nowhere"]), ArgError::BadValue(0, Fault::Address));
    assert_eq!(error(&["--peer-udp", "1.2.3.4"]), ArgError::BadValue(0, Fault::Address));
    assert_eq!(
        error(&["--server-ip", "1.2.3"]),
        ArgError::BadValue(0, Fault::Ip4(Ip4Fault::Parts))
    );
    assert_eq!(
        error(&["--server-ip", "1.2.256.4"]),
        ArgError::BadValue(0, Fault::Ip4(Ip4Fault::Octet(2, NumFault::TooLarge)))
    );
    assert_eq!(
        error(&["--base-port", "65536"]),
        ArgError::BadValue(0, Fault::Number(NumFault::TooLarge))
    );
    assert_eq!(
        error(&["--num-listeners", "4x"]),
        ArgError::BadValue(0, Fault::Number(NumFault::InvalidDigit))
    );
    assert_eq!(
        error(&["--memory-cap-mib", ""]),
        ArgError::BadValue(0, Fault::Number(NumFault::Empty))
    );
    assert_eq!(error(&["--cookies", "0123"]), ArgError::BadValue(0, Fault::Key));
    assert_eq!(error(&["--num-listeners", "0"]), ArgError::Listeners(0));
    assert_eq!(error(&["--num-listeners", "65536"]), ArgError::Listeners(65536));
    assert_eq!(
        error(&["--base-port", "65535", "--num-listeners", "2"]),
        ArgError::Ports(65535, 2)
    );
    assert_eq!(settings(&["--base-port", "65535", "--num-listeners", "1"]).num_listeners, 1);
}

#[test]
fn a_random_key_grows_from_the_seed() {
    let expected = [
        0x32, 0x6d, 0xba, 0x84, 0x11, 0xee, 0x08, 0x1a, 0x19, 0x81, 0x72, 0x2e, 0x22, 0x78, 0xf6,
        0x9a,
    ];
    assert_eq!(key_from_seed(0), expected);
    assert_eq!(settings(&["--cookies", "random"]).cookie_secret, Some(expected));
    assert_ne!(key_from_seed(1), expected);
}

#[test]
fn decimals() {
    assert_eq!(parse_decimal(b"0", 9), Ok(0));
    assert_eq!(parse_decimal(b"007", 9), Ok(7));
    assert_eq!(parse_decimal(b"10", 9), Err(NumFault::TooLarge));
    assert_eq!(parse_decimal(b"99x", 9), Err(NumFault::TooLarge));
    assert_eq!(parse_decimal(b"9x9", 9), Err(NumFault::InvalidDigit));
    assert_eq!(parse_decimal(b"+", 9), Err(NumFault::InvalidDigit));
    assert_eq!(parse_decimal(b"-1", 9), Err(NumFault::InvalidDigit));
    assert_eq!(parse_decimal(b"", 9), Err(NumFault::Empty));
    assert_eq!(parse_decimal(b"18446744073709551615", u64::MAX), Ok(u64::MAX));
    assert_eq!(parse_decimal(b"18446744073709551616", u64::MAX), Err(NumFault::TooLarge));
}

#[test]
fn addresses() {
    assert_eq!(parse_ip4(b"255.0.10.1"), Ok([255, 0, 10, 1]));
    assert_eq!(parse_ip4(b"1.2.3.4.5"), Err(Ip4Fault::Parts));
    assert_eq!(parse_ip4(b""), Err(Ip4Fault::Parts));
    assert_eq!(parse_ip4(b"..."), Err(Ip4Fault::Octet(0, NumFault::Empty)));
    assert_eq!(parse_ip4(b"1.2.3."), Err(Ip4Fault::Octet(3, NumFault::Empty)));
}

#[test]
fn hexadecimal() {
    assert_eq!(hex_digit(b'7'), Some(7));
    assert_eq!(hex_digit(b'c'), Some(12));
    assert_eq!(hex_digit(b'F'), Some(15));
    assert_eq!(hex_digit(b'g'), None);
    assert_eq!(parse_hex32(b"ffffffffffffffffffffffffffffffff"), Some([255; 16]));
    assert_eq!(parse_hex32(b"fffffffffffffffffffffffffffffff"), None);
    assert_eq!(parse_hex32(b"fffffffffffffffffffffffffffffffg"), None);
}
