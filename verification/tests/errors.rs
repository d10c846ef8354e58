//! Every error variant, reached from a concrete input.

use ppp::{Header, ParseError, PortError};

fn parse_err(input: &str) -> ParseError {
    Header::parse(input).unwrap_err()
}

#[test]
fn rejects_wrong_prefix() {
    assert_eq!(parse_err("BOGUS TCP4 1.2.3.4 5.6.7.8 80 443\r\n"), ParseError::InvalidPrefix);
    assert_eq!(parse_err("PROXY\r\n"), ParseError::InvalidPrefix);
    assert_eq!(parse_err("PROX\r\n"), ParseError::InvalidPrefix);
}

#[test]
fn incomplete_without_line_ending() {
    assert_eq!(parse_err("PROXY TCP4 1.2.3.4"), ParseError::MissingNewLine);
    assert_eq!(parse_err("PROXY UNKNOWN\r"), ParseError::MissingNewLine);
    assert_eq!(parse_err(""), ParseError::MissingNewLine);
}

#[test]
fn missing_protocol() {
    assert_eq!(parse_err("PROXY \r\n"), ParseError::MissingProtocol);
}

#[test]
fn lowercase_protocol_is_invalid() {
    assert_eq!(parse_err("PROXY tcp4\r\n"), ParseError::InvalidProtocol);
    assert_eq!(parse_err("PROXY tcp6 ::1 ::2 80 443\r\n"), ParseError::InvalidProtocol);
    assert_eq!(parse_err("PROXY Unknown\r\n"), ParseError::InvalidProtocol);
    assert_eq!(parse_err("PROXY TCP5 1.2.3.4 5.6.7.8 80 443\r\n"), ParseError::InvalidProtocol);
}

#[test]
fn missing_fields_left_to_right() {
    assert_eq!(parse_err("PROXY TCP4\r\n"), ParseError::MissingSourceAddress);
    assert_eq!(parse_err("PROXY TCP4 1.2.3.4\r\n"), ParseError::MissingDestinationAddress);
    assert_eq!(parse_err("PROXY TCP4 1.2.3.4 5.6.7.8\r\n"), ParseError::MissingSourcePort);
    assert_eq!(parse_err("PROXY TCP4 1.2.3.4 5.6.7.8 80\r\n"), ParseError::MissingDestinationPort);
    assert_eq!(parse_err("PROXY TCP6\r\n"), ParseError::MissingSourceAddress);
}

#[test]
fn unexpected_characters_after_destination_port() {
    assert_eq!(
        parse_err("PROXY TCP4 1.2.3.4 5.6.7.8 80 443 extra\r\n"),
        ParseError::UnexpectedCharacters
    );
    assert_eq!(
        parse_err("PROXY TCP4 1.2.3.4 5.6.7.8 80 443 \r\n"),
        ParseError::UnexpectedCharacters
    );
}

#[test]
fn invalid_source_address_syntax() {
    assert_eq!(
        parse_err("PROXY TCP4 1.2.3 5.6.7.8 80 443\r\n"),
        ParseError::InvalidSourceAddress(ppp::AddressError)
    );
    assert_eq!(
        parse_err("PROXY TCP4 256.2.3.4 5.6.7.8 80 443\r\n"),
        ParseError::InvalidSourceAddress(ppp::AddressError)
    );
    assert_eq!(
        parse_err("PROXY TCP4 01.2.3.4 5.6.7.8 80 443\r\n"),
        ParseError::InvalidSourceAddress(ppp::AddressError)
    );
    assert_eq!(
        parse_err("PROXY TCP4  1.2.3.4 5.6.7.8 80 443\r\n"),
        ParseError::InvalidSourceAddress(ppp::AddressError)
    );
}

#[test]
fn invalid_destination_address_syntax() {
    assert_eq!(
        parse_err("PROXY TCP4 1.2.3.4 5.6.7.8.9 80 443\r\n"),
        ParseError::InvalidDestinationAddress(ppp::AddressError)
    );
    assert_eq!(
        parse_err("PROXY TCP6 ::1 fffff::2 80 443\r\n"),
        ParseError::InvalidDestinationAddress(ppp::AddressError)
    );
}

#[test]
fn swapped_family_is_an_address_error() {
    assert_eq!(
        parse_err("PROXY TCP4 ::1 192.168.1.1 80 443\r\n"),
        ParseError::InvalidSourceAddress(ppp::AddressError)
    );
    assert_eq!(
        parse_err("PROXY TCP6 1.2.3.4 ::1 80 443\r\n"),
        ParseError::InvalidSourceAddress(ppp::AddressError)
    );
}

#[test]
fn empty_port_field_has_no_underlying_error() {
    assert_eq!(
        parse_err("PROXY TCP4 1.2.3.4 5.6.7.8  443\r\n"),
        ParseError::InvalidSourcePort(None)
    );
    assert_eq!(
        parse_err("PROXY TCP4 1.2.3.4 5.6.7.8 80  \r\n"),
        ParseError::InvalidDestinationPort(None)
    );
}

#[test]
fn malformed_port_fields() {
    assert_eq!(
        parse_err("PROXY TCP4 1.2.3.4 5.6.7.8 80a 443\r\n"),
        ParseError::InvalidSourcePort(Some(PortError::InvalidDigit))
    );
    assert_eq!(
        parse_err("PROXY TCP4 1.2.3.4 5.6.7.8 -80 443\r\n"),
        ParseError::InvalidSourcePort(Some(PortError::InvalidDigit))
    );
    assert_eq!(
        parse_err("PROXY TCP4 1.2.3.4 5.6.7.8 65536 443\r\n"),
        ParseError::InvalidSourcePort(Some(PortError::Overflow))
    );
    assert_eq!(
        parse_err("PROXY TCP4 1.2.3.4 5.6.7.8 80 99999999999999999999\r\n"),
        ParseError::InvalidDestinationPort(Some(PortError::Overflow))
    );
}

#[test]
fn oversized_content_is_too_long() {
    let mut line = String::from("PROXY UNKNOWN ");
    while line.len() <= 107 {
        line.push('x');
    }
    line.push_str("\r\n");
    assert_eq!(parse_err(&line), ParseError::HeaderTooLong);
}

#[test]
fn long_line_without_ending_is_too_long() {
    let line: String = std::iter::repeat('x').take(200).collect();
    assert_eq!(parse_err(&line), ParseError::HeaderTooLong);
}

#[test]
fn short_line_without_ending_is_incomplete() {
    let line: String = std::iter::repeat('x').take(100).collect();
    assert_eq!(parse_err(&line), ParseError::MissingNewLine);
}

#[test]
fn truncations_of_a_valid_header_are_incomplete() {
    let input = "PROXY TCP6 ff00::1 ff00::2 80 443\r\n";
    for cut in 0..input.len() - 1 {
        assert_eq!(parse_err(&input[..cut]), ParseError::MissingNewLine);
    }
}

#[test]
fn error_messages_are_stable() {
    assert_eq!(ParseError::InvalidPrefix.message(), "Header must start with 'PROXY'.");
    assert_eq!(ParseError::MissingNewLine.message(), "Header does not end with the string '\\r\\n'.");
    assert_eq!(
        ppp::BinaryParseError::InvalidUtf8.message(),
        "Header is not valid UTF-8."
    );
    assert_eq!(
        ppp::BinaryParseError::from(ParseError::MissingProtocol).message(),
        "Header missing protocol."
    );
}
