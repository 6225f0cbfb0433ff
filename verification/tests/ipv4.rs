use lib::ipv4::{parse_ipv4, parse_octet};

#[test]
fn parses_dotted_quads() {
    assert_eq!(parse_ipv4(b"0.0.0.0"), Some(0));
    assert_eq!(parse_ipv4(b"255.255.255.255"), Some(0xFFFF_FFFF));
    assert_eq!(parse_ipv4(b"1.2.3.4"), Some(0x0102_0304));
    assert_eq!(parse_ipv4(b"192.168.10.200"), Some(0xC0A8_0AC8));
    assert_eq!(parse_ipv4(b"10.0.0.1"), Some(0x0A00_0001));
}

#[test]
fn rejects_leading_zeros() {
    assert_eq!(parse_ipv4(b"01.2.3.4"), None);
    assert_eq!(parse_ipv4(b"1.2.3.04"), None);
    assert_eq!(parse_ipv4(b"1.00.3.4"), None);
    assert_eq!(parse_ipv4(b"1.2.3.000"), None);
}

#[test]
fn rejects_out_of_range_and_long_parts() {
    assert_eq!(parse_ipv4(b"256.0.0.0"), None);
    assert_eq!(parse_ipv4(b"1.2.3.999"), None);
    assert_eq!(parse_ipv4(b"1.2.3.1000"), None);
    assert_eq!(parse_ipv4(b"0001.2.3.4"), None);
}

#[test]
fn rejects_wrong_shapes() {
    assert_eq!(parse_ipv4(b""), None);
    assert_eq!(parse_ipv4(b"1.2.3"), None);
    assert_eq!(parse_ipv4(b"1.2.3.4.5"), None);
    assert_eq!(parse_ipv4(b"1.2.3.4."), None);
    assert_eq!(parse_ipv4(b".1.2.3.4"), None);
    assert_eq!(parse_ipv4(b"1..3.4"), None);
    assert_eq!(parse_ipv4(b"1.2.3.4 "), None);
    assert_eq!(parse_ipv4(b" 1.2.3.4"), None);
    assert_eq!(parse_ipv4(b"+1.2.3.4"), None);
    assert_eq!(parse_ipv4(b"1,2,3,4"), None);
    assert_eq!(parse_ipv4(b"a.b.c.d"), None);
}

#[test]
fn octets_end_at_the_first_non_digit() {
    assert_eq!(parse_octet(b"12.5", 0), Some((12, 2)));
    assert_eq!(parse_octet(b"12.5", 3), Some((5, 4)));
    assert_eq!(parse_octet(b"0x", 0), Some((0, 1)));
    assert_eq!(parse_octet(b"255", 0), Some((255, 3)));
    assert_eq!(parse_octet(b"256", 0), None);
    assert_eq!(parse_octet(b"07", 0), None);
    assert_eq!(parse_octet(b"x1", 0), None);
    assert_eq!(parse_octet(b"1", 1), None);
}

#[test]
fn formatted_addresses_parse_back() {
    for &(a, b, c, d) in &[(0u8, 0u8, 0u8, 0u8), (9, 10, 99, 100), (255, 0, 128, 7), (172, 16, 254, 1)] {
        let text = format!("{}.{}.{}.{}", a, b, c, d);
        let expected = u32::from_be_bytes([a, b, c, d]);
        assert_eq!(parse_ipv4(text.as_bytes()), Some(expected));
    }
}
