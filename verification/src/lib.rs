//! Parser and canonical formatter for the text (v1) variant of the PROXY
//! protocol header: the line a TCP proxy prepends to a forwarded connection
//! to convey the original client and server endpoints.
//!
//! The parser distinguishes "not enough bytes yet" from "permanently
//! malformed", enforces the fixed maximum header size, validates
//! family-specific address syntax, and guarantees a byte-exact round trip
//! for canonical headers.

mod error;
mod format;
mod ipv4;
mod ipv6;
pub mod laws;
mod model;
mod parse;
mod text;

pub use format::format_bytes;
pub use format::format_content;
pub use ipv4::ipv4_text;
pub use ipv4::parse_ipv4_model;
pub use ipv4::Ipv4Address;
pub use ipv6::ipv6_text;
pub use ipv6::parse_ipv6_model;
pub use ipv6::Ipv6Address;
pub use model::crlf_bytes;
pub use model::prefix_bytes;
pub use model::protocol_token;
pub use model::tcp4_token;
pub use model::tcp6_token;
pub use model::unknown_token;
pub use model::Addresses;
pub use model::Header;
pub use model::IPv4;
pub use model::IPv6;
pub use parse::addresses_str_model;
pub use parse::content_model;
pub use parse::header_span;
pub use parse::parse_bytes_model;
pub use parse::parse_model;
pub use parse::MAX_CONTENT_LENGTH;
pub use error::AddressError;
pub use error::BinaryParseError;
pub use error::ParseError;
pub use error::PortError;
