//! The address model and the zero-copy header view.

use vstd::prelude::*;
use vstd::string::StringSliceAdditionalSpecFns;

use crate::ipv4::Ipv4Address;
use crate::ipv6::Ipv6Address;

verus! {

/// The source and destination of a TCP-over-IPv4 connection.
#[derive(Clone, Copy, Debug, PartialEq, Eq, Structural)]
pub struct IPv4 {
    pub source_address: Ipv4Address,
    pub source_port: u16,
    pub destination_address: Ipv4Address,
    pub destination_port: u16,
}

impl IPv4 {
    /// Creates a new IPv4 address pair.
    pub fn new(
        source_address: Ipv4Address,
        destination_address: Ipv4Address,
        source_port: u16,
        destination_port: u16,
    ) -> (r: Self)
        ensures
            r == (IPv4 { source_address, source_port, destination_address, destination_port }),
    {
        IPv4 { source_address, source_port, destination_address, destination_port }
    }
}

/// The source and destination of a TCP-over-IPv6 connection.
#[derive(Clone, Copy, Debug, PartialEq, Eq, Structural)]
pub struct IPv6 {
    pub source_address: Ipv6Address,
    pub source_port: u16,
    pub destination_address: Ipv6Address,
    pub destination_port: u16,
}

impl IPv6 {
    /// Creates a new IPv6 address pair.
    pub fn new(
        source_address: Ipv6Address,
        destination_address: Ipv6Address,
        source_port: u16,
        destination_port: u16,
    ) -> (r: Self)
        ensures
            r == (IPv6 { source_address, source_port, destination_address, destination_port }),
    {
        IPv6 { source_address, source_port, destination_address, destination_port }
    }
}

/// The source and destination of a header: IP addresses and TCP ports for
/// the typed variants, nothing for the unknown protocol.
#[derive(Clone, Copy, Debug, PartialEq, Eq, Structural)]
pub enum Addresses {
    Unknown,
    Tcp4(IPv4),
    Tcp6(IPv6),
}

/// The bytes of the literal `PROXY ` that every header starts with.
pub open spec fn prefix_bytes() -> Seq<u8> {
    seq![0x50u8, 0x52, 0x4f, 0x58, 0x59, 0x20]
}

/// The bytes of the two-byte line ending that every header ends with.
pub open spec fn crlf_bytes() -> Seq<u8> {
    seq![0x0du8, 0x0a]
}

/// The bytes of the protocol token `TCP4`.
pub open spec fn tcp4_token() -> Seq<u8> {
    seq![0x54u8, 0x43, 0x50, 0x34]
}

/// The bytes of the protocol token `TCP6`.
pub open spec fn tcp6_token() -> Seq<u8> {
    seq![0x54u8, 0x43, 0x50, 0x36]
}

/// The bytes of the protocol token `UNKNOWN`.
pub open spec fn unknown_token() -> Seq<u8> {
    seq![0x55u8, 0x4e, 0x4b, 0x4e, 0x4f, 0x57, 0x4e]
}

/// The protocol token that the variant tag alone determines.
pub open spec fn protocol_token(a: Addresses) -> Seq<u8> {
    match a {
        Addresses::Tcp4(_) => tcp4_token(),
        Addresses::Tcp6(_) => tcp6_token(),
        Addresses::Unknown => unknown_token(),
    }
}

impl Addresses {
    /// Creates a new IPv4 TCP address pair.
    pub fn new_tcp4(
        source_address: Ipv4Address,
        destination_address: Ipv4Address,
        source_port: u16,
        destination_port: u16,
    ) -> (r: Self)
        ensures
            r == Addresses::Tcp4(
                IPv4 { source_address, source_port, destination_address, destination_port },
            ),
    {
        Addresses::Tcp4(
            IPv4 { source_address, source_port, destination_address, destination_port },
        )
    }

    /// Creates a new IPv6 TCP address pair.
    pub fn new_tcp6(
        source_address: Ipv6Address,
        destination_address: Ipv6Address,
        source_port: u16,
        destination_port: u16,
    ) -> (r: Self)
        ensures
            r == Addresses::Tcp6(
                IPv6 { source_address, source_port, destination_address, destination_port },
            ),
    {
        Addresses::Tcp6(
            IPv6 { source_address, source_port, destination_address, destination_port },
        )
    }

    /// The protocol portion of this `Addresses`.
    pub fn protocol(&self) -> (r: &'static str)
        ensures
            r.spec_bytes() == protocol_token(*self),
            r@.len() == protocol_token(*self).len(),
            r.is_ascii(),
    {
        proof {
            reveal_strlit("TCP4");
            reveal_strlit("TCP6");
            reveal_strlit("UNKNOWN");
            broadcast use vstd::string::is_ascii_spec_bytes;

            match self {
                Addresses::Tcp4(_) => {
                    assert(("TCP4")@ =~= seq!['T', 'C', 'P', '4']);
                    assert forall|i: int| 0 <= i < ("TCP4")@.len() implies '\0' <= #[trigger] (
                    ("TCP4")@[i]) <= '\u{7f}' by {
                        assert(("TCP4")@[i] == seq!['T', 'C', 'P', '4'][i]);
                    }
                    assert(vstd::utf8::is_ascii_chars(("TCP4")@));
                    assert(vstd::string::is_ascii(("TCP4")));
                    vstd::string::is_ascii_spec_bytes(("TCP4"));
                    assert(("TCP4").spec_bytes() =~= tcp4_token());
                },
                Addresses::Tcp6(_) => {
                    assert(("TCP6")@ =~= seq!['T', 'C', 'P', '6']);
                    assert forall|i: int| 0 <= i < ("TCP6")@.len() implies '\0' <= #[trigger] (
                    ("TCP6")@[i]) <= '\u{7f}' by {
                        assert(("TCP6")@[i] == seq!['T', 'C', 'P', '6'][i]);
                    }
                    assert(vstd::utf8::is_ascii_chars(("TCP6")@));
                    assert(vstd::string::is_ascii(("TCP6")));
                    vstd::string::is_ascii_spec_bytes(("TCP6"));
                    assert(("TCP6").spec_bytes() =~= tcp6_token());
                },
                Addresses::Unknown => {
                    assert(("UNKNOWN")@ =~= seq!['U', 'N', 'K', 'N', 'O', 'W', 'N']);
                    assert forall|i: int| 0 <= i < ("UNKNOWN")@.len() implies '\0' <= #[trigger] (
                    ("UNKNOWN")@[i]) <= '\u{7f}' by {
                        assert(("UNKNOWN")@[i] == seq!['U', 'N', 'K', 'N', 'O', 'W', 'N'][i]);
                    }
                    assert(vstd::utf8::is_ascii_chars(("UNKNOWN")@));
                    assert(vstd::string::is_ascii(("UNKNOWN")));
                    vstd::string::is_ascii_spec_bytes(("UNKNOWN"));
                    assert(("UNKNOWN").spec_bytes() =~= unknown_token());
                },
            }
        }
        match self {
            Addresses::Tcp4(_) => "TCP4",
            Addresses::Tcp6(_) => "TCP6",
            Addresses::Unknown => "UNKNOWN",
        }
    }
}

impl Default for Addresses {
    /// The unknown protocol, which carries no address data.
    fn default() -> (r: Self)
        ensures
            r == Addresses::Unknown,
    {
        Addresses::Unknown
    }
}

impl From<IPv4> for Addresses {
    fn from(addresses: IPv4) -> (r: Self) {
        Addresses::Tcp4(addresses)
    }
}

impl vstd::std_specs::convert::FromSpecImpl<IPv4> for Addresses {
    open spec fn obeys_from_spec() -> bool {
        true
    }

    open spec fn from_spec(addresses: IPv4) -> Self {
        Addresses::Tcp4(addresses)
    }
}

impl From<IPv6> for Addresses {
    fn from(addresses: IPv6) -> (r: Self) {
        Addresses::Tcp6(addresses)
    }
}

impl vstd::std_specs::convert::FromSpecImpl<IPv6> for Addresses {
    open spec fn obeys_from_spec() -> bool {
        true
    }

    open spec fn from_spec(addresses: IPv6) -> Self {
        Addresses::Tcp6(addresses)
    }
}

/// A text PROXY protocol header that borrows the input string: the exact
/// consumed text, line ending included, paired with the addresses it
/// decodes to.
#[derive(Clone, Copy, Debug, PartialEq)]
pub struct Header<'a> {
    pub header: &'a str,
    pub addresses: Addresses,
}

impl<'a> Header<'a> {
    /// Creates a new `Header` with the given addresses and a reference to
    /// the original input.
    pub fn new(header: &'a str, addresses: Addresses) -> (r: Self)
        ensures
            r.header == header,
            r.addresses == addresses,
    {
        Header { header, addresses }
    }

    /// The protocol portion of this `Header`.
    pub fn protocol(&self) -> (r: &'static str)
        ensures
            r.spec_bytes() == protocol_token(self.addresses),
            r@.len() == protocol_token(self.addresses).len(),
            r.is_ascii(),
    {
        self.addresses.protocol()
    }
}

} // verus!
