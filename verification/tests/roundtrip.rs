//! The canonical round trip and the byte-span entry point.

use ppp::{Addresses, BinaryParseError, Header, Ipv4Address, Ipv6Address, ParseError};

#[test]
fn canonical_tcp4_round_trips() {
    let input = "PROXY TCP4 127.0.1.2 192.168.1.101 80 443\r\n";
    let header = Header::parse(input).unwrap();
    assert_eq!(header.addresses.to_text(), input);
    assert_eq!(header.addresses.to_bytes(), input.as_bytes());
}

#[test]
fn canonical_tcp6_round_trips() {
    let input = "PROXY TCP6 1234:5678:90ab:cdef:fedc:ba09:8765:4321 4321:8765:ba09:fedc:cdef:90ab:5678:1234 443 65535\r\n";
    let header = Header::parse(input).unwrap();
    assert_eq!(header.addresses.to_text(), input);
}

#[test]
fn canonical_unknown_round_trips() {
    let input = "PROXY UNKNOWN\r\n";
    let header = Header::parse(input).unwrap();
    assert_eq!(header.addresses.to_text(), input);
}

#[test]
fn unknown_payload_is_dropped_by_design() {
    let header = Header::parse("PROXY UNKNOWN 1.2.3.4 5.6.7.8 80 443\r\n").unwrap();
    assert_eq!(header.addresses, Addresses::Unknown);
    assert_eq!(header.addresses.to_text(), "PROXY UNKNOWN\r\n");
}

#[test]
fn formatting_renders_minimal_decimal_and_hex() {
    let a4 = Addresses::new_tcp4(Ipv4Address::new(0, 0, 0, 0), Ipv4Address::new(10, 0, 0, 7), 0, 65535);
    assert_eq!(a4.to_text(), "PROXY TCP4 0.0.0.0 10.0.0.7 0 65535\r\n");

    let a6 = Addresses::new_tcp6(
        Ipv6Address::new(0, 0, 0, 0, 0, 0, 0, 1),
        Ipv6Address::new(0xff00, 0, 0x1a, 0, 0, 0, 0xbeef, 2),
        7,
        65000,
    );
    assert_eq!(a6.to_text(), "PROXY TCP6 0:0:0:0:0:0:0:1 ff00:0:1a:0:0:0:beef:2 7 65000\r\n");
}

#[test]
fn format_of_parsed_canonical_is_identical() {
    let canonical = [
        "PROXY TCP4 1.2.3.4 5.6.7.8 80 443\r\n",
        "PROXY TCP6 0:0:0:0:0:0:0:0 ffff:ffff:ffff:ffff:ffff:ffff:ffff:ffff 1 2\r\n",
        "PROXY UNKNOWN\r\n",
    ];
    for h in canonical {
        assert_eq!(Header::parse(h).unwrap().addresses.to_text(), h);
    }
}

#[test]
fn compressed_ipv6_forms_parse() {
    let header = Header::parse("PROXY TCP6 ::1 1:2::7:8 80 443\r\n").unwrap();
    assert_eq!(
        header.addresses,
        Addresses::new_tcp6(
            Ipv6Address::new(0, 0, 0, 0, 0, 0, 0, 1),
            Ipv6Address::new(1, 2, 0, 0, 0, 0, 7, 8),
            80,
            443,
        )
    );

    let all_zero = Header::parse("PROXY TCP6 :: 1:: 80 443\r\n").unwrap();
    assert_eq!(
        all_zero.addresses,
        Addresses::new_tcp6(
            Ipv6Address::new(0, 0, 0, 0, 0, 0, 0, 0),
            Ipv6Address::new(1, 0, 0, 0, 0, 0, 0, 0),
            80,
            443,
        )
    );

    let upper = Header::parse("PROXY TCP6 AB::CD ab::cd 80 443\r\n").unwrap();
    assert_eq!(
        upper.addresses,
        Addresses::new_tcp6(
            Ipv6Address::new(0xab, 0, 0, 0, 0, 0, 0, 0xcd),
            Ipv6Address::new(0xab, 0, 0, 0, 0, 0, 0, 0xcd),
            80,
            443,
        )
    );
}

#[test]
fn malformed_ipv6_forms_are_rejected() {
    for bad in [
        "1:2:3",
        ":::",
        "1::2::3",
        "1:2:3:4:5:6:7:8:9",
        "1:2:3:4:5:6:7:8::",
        "12345::",
        "g::1",
        "1:2:3:4:5:6:7:",
        ":1:2:3:4:5:6:7",
        "",
    ] {
        let line = format!("PROXY TCP6 {} ::1 80 443\r\n", bad);
        assert_eq!(
            Header::parse(&line).unwrap_err(),
            ParseError::InvalidSourceAddress(ppp::AddressError),
            "{}",
            bad
        );
    }
}

#[test]
fn full_ipv6_needs_exactly_eight_groups() {
    let line = "PROXY TCP6 1:2:3:4:5:6:7 ::1 80 443\r\n";
    assert_eq!(
        Header::parse(line).unwrap_err(),
        ParseError::InvalidSourceAddress(ppp::AddressError)
    );
}

#[test]
fn parse_bytes_accepts_binary_payload_after_header() {
    let mut data = b"PROXY TCP4 1.2.3.4 5.6.7.8 80 443\r\n".to_vec();
    data.extend_from_slice(&[0xff, 0xfe, 0x00, 0x80]);
    let header = Header::parse_bytes(&data).unwrap();
    assert_eq!(header.header, "PROXY TCP4 1.2.3.4 5.6.7.8 80 443\r\n");
    assert_eq!(
        header.addresses,
        Addresses::new_tcp4(Ipv4Address::new(1, 2, 3, 4), Ipv4Address::new(5, 6, 7, 8), 80, 443)
    );
}

#[test]
fn parse_bytes_rejects_invalid_utf8_in_span() {
    let mut data = b"PROXY UNKNOWN ".to_vec();
    data.push(0xff);
    data.extend_from_slice(b"\r\n");
    assert_eq!(Header::parse_bytes(&data).unwrap_err(), BinaryParseError::InvalidUtf8);
}

#[test]
fn parse_bytes_wraps_text_errors_unchanged() {
    assert_eq!(
        Header::parse_bytes(b"PROXY tcp4\r\n").unwrap_err(),
        BinaryParseError::Parse(ParseError::InvalidProtocol)
    );
    assert_eq!(
        Header::parse_bytes(b"PROXY TCP4 1.2.3.4").unwrap_err(),
        BinaryParseError::Parse(ParseError::MissingNewLine)
    );
}

#[test]
fn parse_bytes_decodes_multibyte_unknown_payload() {
    let input = "PROXY UNKNOWN caf\u{e9}\r\n";
    let header = Header::parse_bytes(input.as_bytes()).unwrap();
    assert_eq!(header.header, input);
    assert_eq!(header.addresses_str(), "caf\u{e9}");
}
