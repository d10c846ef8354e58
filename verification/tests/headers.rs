//! Parsing well-formed headers of each variant, and the derived accessors.

use ppp::{Addresses, Header, Ipv4Address, Ipv6Address};

#[test]
fn parses_tcp4_header() {
    let input = "PROXY TCP4 127.0.1.2 192.168.1.101 80 443\r\n";
    let header = Header::parse(input).unwrap();

    assert_eq!(
        header,
        Header::new(
            input,
            Addresses::new_tcp4(
                Ipv4Address::new(127, 0, 1, 2),
                Ipv4Address::new(192, 168, 1, 101),
                80,
                443,
            ),
        )
    );
    assert_eq!(header.protocol(), "TCP4");
    assert_eq!(header.addresses_str(), "127.0.1.2 192.168.1.101 80 443");
}

#[test]
fn parses_tcp6_header() {
    let input = "PROXY TCP6 1234:5678:90ab:cdef:fedc:ba09:8765:4321 4321:8765:ba09:fedc:cdef:90ab:5678:1234 443 65535\r\n";
    let header = Header::parse(input).unwrap();

    assert_eq!(
        header,
        Header::new(
            input,
            Addresses::new_tcp6(
                Ipv6Address::new(0x1234, 0x5678, 0x90ab, 0xcdef, 0xfedc, 0xba09, 0x8765, 0x4321),
                Ipv6Address::new(0x4321, 0x8765, 0xba09, 0xfedc, 0xcdef, 0x90ab, 0x5678, 0x1234),
                443,
                65535,
            ),
        )
    );
    assert_eq!(header.protocol(), "TCP6");
    assert_eq!(
        header.addresses_str(),
        "1234:5678:90ab:cdef:fedc:ba09:8765:4321 4321:8765:ba09:fedc:cdef:90ab:5678:1234 443 65535"
    );
}

#[test]
fn unknown_consumes_only_the_line() {
    let input = "PROXY UNKNOWN\r\nhello";
    let header = Header::parse(input).unwrap();

    assert_eq!(header, Header::new("PROXY UNKNOWN\r\n", Addresses::Unknown));
    assert_eq!(header.header, "PROXY UNKNOWN\r\n");
    assert_eq!(header.protocol(), "UNKNOWN");
    assert_eq!(header.addresses_str(), "");
}

#[test]
fn unknown_keeps_advisory_text_in_view() {
    let input =
        "PROXY UNKNOWN ffff:ffff:ffff:ffff:ffff:ffff:ffff:ffff ffff:ffff:ffff:ffff:ffff:ffff:ffff:ffff 65535 65535\r\n";
    let header = Header::parse(input).unwrap();

    assert_eq!(header, Header::new(input, Addresses::Unknown));
    assert_eq!(header.protocol(), "UNKNOWN");
    assert_eq!(
        header.addresses_str(),
        "ffff:ffff:ffff:ffff:ffff:ffff:ffff:ffff ffff:ffff:ffff:ffff:ffff:ffff:ffff:ffff 65535 65535"
    );
}

#[test]
fn trailing_bytes_are_not_consumed() {
    let input = "PROXY TCP4 1.2.3.4 5.6.7.8 80 443\r\nGET / HTTP/1.1\r\n";
    let header = Header::parse(input).unwrap();

    assert_eq!(header.header, "PROXY TCP4 1.2.3.4 5.6.7.8 80 443\r\n");
}

#[test]
fn unknown_payload_may_hold_multibyte_text() {
    let input = "PROXY UNKNOWN caf\u{e9}\r\n";
    let header = Header::parse(input).unwrap();

    assert_eq!(header.addresses, Addresses::Unknown);
    assert_eq!(header.addresses_str(), "caf\u{e9}");
}

#[test]
fn port_zero_and_leading_zero_ports_parse() {
    let header = Header::parse("PROXY TCP4 0.0.0.0 255.255.255.255 0 00443\r\n").unwrap();

    assert_eq!(
        header.addresses,
        Addresses::new_tcp4(
            Ipv4Address::new(0, 0, 0, 0),
            Ipv4Address::new(255, 255, 255, 255),
            0,
            443,
        )
    );
}

#[test]
fn protocol_of_addresses() {
    assert_eq!(Addresses::Unknown.protocol(), "UNKNOWN");
    assert_eq!(
        Addresses::new_tcp4(Ipv4Address::new(1, 2, 3, 4), Ipv4Address::new(5, 6, 7, 8), 1, 2)
            .protocol(),
        "TCP4"
    );
    assert_eq!(
        Addresses::new_tcp6(
            Ipv6Address::new(0, 0, 0, 0, 0, 0, 0, 1),
            Ipv6Address::new(0, 0, 0, 0, 0, 0, 0, 2),
            1,
            2,
        )
        .protocol(),
        "TCP6"
    );
}

#[test]
fn default_addresses_is_unknown() {
    assert_eq!(Addresses::default(), Addresses::Unknown);
}

#[test]
fn from_pairs_build_the_typed_variants() {
    let four = ppp::IPv4::new(Ipv4Address::new(1, 2, 3, 4), Ipv4Address::new(5, 6, 7, 8), 80, 443);
    assert_eq!(Addresses::from(four), Addresses::Tcp4(four));

    let six = ppp::IPv6::new(
        Ipv6Address::new(0, 0, 0, 0, 0, 0, 0, 1),
        Ipv6Address::new(0, 0, 0, 0, 0, 0, 0, 2),
        80,
        443,
    );
    assert_eq!(Addresses::from(six), Addresses::Tcp6(six));
}

#[test]
fn addresses_parse_discards_the_text() {
    assert_eq!(
        Addresses::parse("PROXY TCP4 1.2.3.4 5.6.7.8 80 443\r\njunk"),
        Ok(Addresses::new_tcp4(
            Ipv4Address::new(1, 2, 3, 4),
            Ipv4Address::new(5, 6, 7, 8),
            80,
            443,
        ))
    );
    assert_eq!(Addresses::parse("PROXY tcp4\r\n"), Err(ppp::ParseError::InvalidProtocol));
}
