//! The error taxonomy for parsing text PROXY protocol headers.

use vstd::prelude::*;

verus! {

/// Why a port field failed to parse as a decimal 16-bit number.
#[derive(Clone, Copy, Debug, PartialEq, Eq, Structural)]
pub enum PortError {
    /// The field contains a byte that is not an ASCII decimal digit.
    InvalidDigit,
    /// The field is all digits but its value does not fit in 16 bits.
    Overflow,
}

/// An address field did not satisfy the declared family's textual syntax.
#[derive(Clone, Copy, Debug, PartialEq, Eq, Structural)]
pub struct AddressError;

/// An error in parsing a text PROXY protocol header.
/// Partial headers are missing their new line suffix (`MissingNewLine`);
/// all other parse errors are non-retryable: more data will not change the
/// outcome.
#[derive(Clone, Copy, Debug, PartialEq, Eq, Structural)]
pub enum ParseError {
    /// The header does not start with `PROXY` followed by a space.
    InvalidPrefix,
    /// No `\r\n` line ending was found within the size bound; the caller
    /// should supply more bytes and retry.
    MissingNewLine,
    /// Nothing follows the `PROXY ` prefix before the line ending.
    MissingProtocol,
    /// No source address field is present.
    MissingSourceAddress,
    /// No destination address field is present.
    MissingDestinationAddress,
    /// No source port field is present.
    MissingSourcePort,
    /// No destination port field is present.
    MissingDestinationPort,
    /// Content follows the destination port before the line ending.
    UnexpectedCharacters,
    /// The content before the line ending exceeds the 107-byte bound.
    HeaderTooLong,
    /// The protocol token is not exactly `TCP4`, `TCP6` or `UNKNOWN`.
    InvalidProtocol,
    /// The source address field is not a valid address of the declared
    /// family.
    InvalidSourceAddress(AddressError),
    /// The destination address field is not a valid address of the declared
    /// family.
    InvalidDestinationAddress(AddressError),
    /// The source port field is empty (`None`) or not a plain decimal
    /// 16-bit number (`Some`).
    InvalidSourcePort(Option<PortError>),
    /// The destination port field is empty (`None`) or not a plain decimal
    /// 16-bit number (`Some`).
    InvalidDestinationPort(Option<PortError>),
}

/// An error in parsing a text PROXY protocol header represented as a byte
/// slice.
#[derive(Clone, Copy, Debug, PartialEq, Eq, Structural)]
pub enum BinaryParseError {
    /// A text-level parse error, wrapped unchanged.
    Parse(ParseError),
    /// The consumed byte span is not valid UTF-8.
    InvalidUtf8,
}

impl ParseError {
    /// A human-readable description of this error.
    pub fn message(&self) -> (r: &'static str)
        ensures
            r@.len() > 0,
    {
        proof {
            reveal_strlit("Header must start with 'PROXY'.");
            reveal_strlit("Header does not end with the string '\\r\\n'.");
            reveal_strlit("Header missing protocol.");
            reveal_strlit("Header missing source address.");
            reveal_strlit("Header missing destination address.");
            reveal_strlit("Header missing source port.");
            reveal_strlit("Header missing destination port.");
            reveal_strlit(
                "Header contains additional characters after the destination port, but before the '\\r\\n'.",
            );
            reveal_strlit(
                "Header does not fit within the expected buffer size of 107 bytes (plus 1 byte for null-terminated strings).",
            );
            reveal_strlit("Header has an invalid protocol.");
            reveal_strlit("Header contains invalid IP address for the source.");
            reveal_strlit("Header contains invalid IP address for the destination.");
            reveal_strlit("Header contains invalid TCP port for the source.");
            reveal_strlit("Header contains invalid TCP port for the destination.");
        }
        match self {
            ParseError::InvalidPrefix => "Header must start with 'PROXY'.",
            ParseError::MissingNewLine => "Header does not end with the string '\\r\\n'.",
            ParseError::MissingProtocol => "Header missing protocol.",
            ParseError::MissingSourceAddress => "Header missing source address.",
            ParseError::MissingDestinationAddress => "Header missing destination address.",
            ParseError::MissingSourcePort => "Header missing source port.",
            ParseError::MissingDestinationPort => "Header missing destination port.",
            ParseError::UnexpectedCharacters => "Header contains additional characters after the destination port, but before the '\\r\\n'.",
            ParseError::HeaderTooLong => "Header does not fit within the expected buffer size of 107 bytes (plus 1 byte for null-terminated strings).",
            ParseError::InvalidProtocol => "Header has an invalid protocol.",
            ParseError::InvalidSourceAddress(_) => "Header contains invalid IP address for the source.",
            ParseError::InvalidDestinationAddress(_) => "Header contains invalid IP address for the destination.",
            ParseError::InvalidSourcePort(_) => "Header contains invalid TCP port for the source.",
            ParseError::InvalidDestinationPort(_) => "Header contains invalid TCP port for the destination.",
        }
    }
}

impl BinaryParseError {
    /// A human-readable description of this error.
    pub fn message(&self) -> (r: &'static str)
        ensures
            r@.len() > 0,
    {
        proof {
            reveal_strlit("Header is not valid UTF-8.");
        }
        match self {
            BinaryParseError::Parse(e) => e.message(),
            BinaryParseError::InvalidUtf8 => "Header is not valid UTF-8.",
        }
    }
}

impl From<ParseError> for BinaryParseError {
    fn from(e: ParseError) -> (r: Self) {
        BinaryParseError::Parse(e)
    }
}

impl vstd::std_specs::convert::FromSpecImpl<ParseError> for BinaryParseError {
    open spec fn obeys_from_spec() -> bool {
        true
    }

    open spec fn from_spec(e: ParseError) -> Self {
        BinaryParseError::Parse(e)
    }
}

} // verus!
