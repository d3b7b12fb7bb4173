use vanillachat::address::{parse_ipv4, parse_port, AddressError, DEFAULT_PORT};

#[test]
fn ports_parse_like_unsigned_integers() {
    assert_eq!(parse_port(b"9567"), Some(9567));
    assert_eq!(parse_port(b"+80"), Some(80));
    assert_eq!(parse_port(b"0"), Some(0));
    assert_eq!(parse_port(b"65535"), Some(65535));
    assert_eq!(parse_port(b"65536"), None);
    assert_eq!(parse_port(b""), None);
    assert_eq!(parse_port(b"+"), None);
    assert_eq!(parse_port(b"-1"), None);
    assert_eq!(parse_port(b"12a"), None);
    assert_eq!(parse_port(b"99999999999"), None);
    assert_eq!(DEFAULT_PORT, 9567);
}

#[test]
fn dotted_quad_parses() {
    assert_eq!(parse_ipv4(b"127.0.0.1"), Ok([127, 0, 0, 1]));
    assert_eq!(parse_ipv4(b"255.255.255.255"), Ok([255, 255, 255, 255]));
}

#[test]
fn unparseable_octet_counts_as_zero() {
    assert_eq!(parse_ipv4(b"10.x.3.4"), Ok([10, 0, 3, 4]));
    assert_eq!(parse_ipv4(b"300.1.1.1"), Ok([0, 1, 1, 1]));
    assert_eq!(parse_ipv4(b"..."), Ok([0, 0, 0, 0]));
}

#[test]
fn address_needs_four_parts() {
    assert_eq!(parse_ipv4(b"1.2.3"), Err(AddressError::WrongPartCount));
    assert_eq!(parse_ipv4(b"1.2.3.4.5"), Err(AddressError::WrongPartCount));
    assert_eq!(parse_ipv4(b"localhost"), Err(AddressError::WrongPartCount));
}
