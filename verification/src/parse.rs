//! The grammar parser: turns a text slice or a byte span into a header
//! view or a precise error, sharing one line-ending and size-bound scan.

use vstd::prelude::*;
use vstd::slice::slice_subrange;
use vstd::string::StringSliceAdditionalSpecFns;

use crate::error::{AddressError, BinaryParseError, ParseError};
use crate::ipv4::{parse_ipv4, parse_ipv4_model};
use crate::ipv6::{parse_ipv6, parse_ipv6_model};
use crate::model::{
    prefix_bytes, protocol_token, tcp4_token, tcp6_token, unknown_token, Addresses, Header, IPv4,
    IPv6,
};
use crate::text::{
    bytes_as_str, field_of, find_byte_exec, find_pair, lemma_find_pair, lemma_find_pair_is,
    lemma_find_pair_none, lemma_token_end, pair_at, parse_port, parse_port_model, rest_of,
    token_end, CR, LF, SPACE,
};

verus! {

/// The size bound: at most this many bytes of content may precede the
/// line ending.
pub const MAX_CONTENT_LENGTH: usize = 107;

/// Where the consumed header would end: the index just past the line
/// ending, or the error the scan itself raises.  A missing line ending is
/// reported only while the scanned prefix is still within bound.
pub open spec fn header_span(s: Seq<u8>) -> Result<int, ParseError> {
    match find_pair(s, CR, LF) {
        Some(i) => if i <= MAX_CONTENT_LENGTH {
            Ok(i + 2)
        } else {
            Err(ParseError::HeaderTooLong)
        },
        None => if s.len() >= MAX_CONTENT_LENGTH + 2 {
            Err(ParseError::HeaderTooLong)
        } else {
            Err(ParseError::MissingNewLine)
        },
    }
}

/// How the four fields of a TCP-over-IPv4 header are read, left to right,
/// from what follows the protocol token's separator.
pub open spec fn parse_tcp4_fields(after: Option<Seq<u8>>) -> Result<IPv4, ParseError> {
    match after {
        None => Err(ParseError::MissingSourceAddress),
        Some(r1) => match parse_ipv4_model(field_of(r1)) {
            None => Err(ParseError::InvalidSourceAddress(AddressError)),
            Some(src) => match rest_of(r1) {
                None => Err(ParseError::MissingDestinationAddress),
                Some(r2) => match parse_ipv4_model(field_of(r2)) {
                    None => Err(ParseError::InvalidDestinationAddress(AddressError)),
                    Some(dst) => match rest_of(r2) {
                        None => Err(ParseError::MissingSourcePort),
                        Some(r3) => match parse_port_model(field_of(r3)) {
                            Err(pe) => Err(ParseError::InvalidSourcePort(pe)),
                            Ok(sp) => match rest_of(r3) {
                                None => Err(ParseError::MissingDestinationPort),
                                Some(r4) => match parse_port_model(field_of(r4)) {
                                    Err(pe) => Err(ParseError::InvalidDestinationPort(pe)),
                                    Ok(dp) => if token_end(r4) == r4.len() {
                                        Ok(
                                            IPv4 {
                                                source_address: src,
                                                source_port: sp,
                                                destination_address: dst,
                                                destination_port: dp,
                                            },
                                        )
                                    } else {
                                        Err(ParseError::UnexpectedCharacters)
                                    },
                                },
                            },
                        },
                    },
                },
            },
        },
    }
}

/// How the four fields of a TCP-over-IPv6 header are read, left to right,
/// from what follows the protocol token's separator.
pub open spec fn parse_tcp6_fields(after: Option<Seq<u8>>) -> Result<IPv6, ParseError> {
    match after {
        None => Err(ParseError::MissingSourceAddress),
        Some(r1) => match parse_ipv6_model(field_of(r1)) {
            None => Err(ParseError::InvalidSourceAddress(AddressError)),
            Some(src) => match rest_of(r1) {
                None => Err(ParseError::MissingDestinationAddress),
                Some(r2) => match parse_ipv6_model(field_of(r2)) {
                    None => Err(ParseError::InvalidDestinationAddress(AddressError)),
                    Some(dst) => match rest_of(r2) {
                        None => Err(ParseError::MissingSourcePort),
                        Some(r3) => match parse_port_model(field_of(r3)) {
                            Err(pe) => Err(ParseError::InvalidSourcePort(pe)),
                            Ok(sp) => match rest_of(r3) {
                                None => Err(ParseError::MissingDestinationPort),
                                Some(r4) => match parse_port_model(field_of(r4)) {
                                    Err(pe) => Err(ParseError::InvalidDestinationPort(pe)),
                                    Ok(dp) => if token_end(r4) == r4.len() {
                                        Ok(
                                            IPv6 {
                                                source_address: src,
                                                source_port: sp,
                                                destination_address: dst,
                                                destination_port: dp,
                                            },
                                        )
                                    } else {
                                        Err(ParseError::UnexpectedCharacters)
                                    },
                                },
                            },
                        },
                    },
                },
            },
        },
    }
}

/// How the content before the line ending is read: the `PROXY ` prefix,
/// the protocol token, then either the unvalidated remainder for the
/// unknown protocol or the four typed fields and an empty remainder.
pub open spec fn content_model(c: Seq<u8>) -> Result<Addresses, ParseError> {
    if !(c.len() >= 6 && c.subrange(0, 6) == prefix_bytes()) {
        Err(ParseError::InvalidPrefix)
    } else {
        let r0 = c.subrange(6, c.len() as int);
        if r0.len() == 0 {
            Err(ParseError::MissingProtocol)
        } else {
            let tok = field_of(r0);
            if tok == tcp4_token() {
                match parse_tcp4_fields(rest_of(r0)) {
                    Ok(ip) => Ok(Addresses::Tcp4(ip)),
                    Err(e) => Err(e),
                }
            } else if tok == tcp6_token() {
                match parse_tcp6_fields(rest_of(r0)) {
                    Ok(ip) => Ok(Addresses::Tcp6(ip)),
                    Err(e) => Err(e),
                }
            } else if tok == unknown_token() {
                Ok(Addresses::Unknown)
            } else {
                Err(ParseError::InvalidProtocol)
            }
        }
    }
}

/// How a whole input is read: the scan picks the consumed span, then the
/// grammar judges the content before the line ending.
pub open spec fn parse_model(s: Seq<u8>) -> Result<(Addresses, int), ParseError> {
    match header_span(s) {
        Ok(n) => match content_model(s.subrange(0, n - 2)) {
            Ok(a) => Ok((a, n)),
            Err(e) => Err(e),
        },
        Err(e) => Err(e),
    }
}

/// How a byte span is read: the same scan picks the candidate span, which
/// must be valid UTF-8 before the grammar judges it; text-level errors are
/// wrapped unchanged.
pub open spec fn parse_bytes_model(s: Seq<u8>) -> Result<(Addresses, int), BinaryParseError> {
    match header_span(s) {
        Err(e) => Err(BinaryParseError::Parse(e)),
        Ok(n) => if !vstd::utf8::valid_utf8(s.subrange(0, n)) {
            Err(BinaryParseError::InvalidUtf8)
        } else {
            match content_model(s.subrange(0, n - 2)) {
                Ok(a) => Ok((a, n)),
                Err(e) => Err(BinaryParseError::Parse(e)),
            }
        },
    }
}

/// A parse that succeeds consumes a span that reparses to the same result:
/// the outcome depends only on the consumed bytes.
pub proof fn lemma_parse_prefix(s: Seq<u8>, a: Addresses, n: int)
    requires
        parse_model(s) == Ok::<(Addresses, int), ParseError>((a, n)),
    ensures
        parse_model(s.subrange(0, n)) == parse_model(s),
{
    lemma_find_pair(s, CR, LF);
    let t = s.subrange(0, n);
    assert(pair_at(t, n - 2, CR, LF));
    assert forall|j: int| 0 <= j < n - 2 implies !pair_at(t, j, CR, LF) by {
        assert(!pair_at(s, j, CR, LF));
    }
    lemma_find_pair_is(t, CR, LF, n - 2);
    assert(header_span(t) == Ok::<int, ParseError>(n));
    assert(t.subrange(0, n - 2) =~= s.subrange(0, n - 2));
}

impl<'a> Header<'a> {
    /// True when the borrowed text is exactly the span a parse consumes
    /// and decodes to these addresses: the invariant of every header this
    /// library returns.
    pub open spec fn wf(self) -> bool {
        parse_model(self.header.spec_bytes()) == Ok::<(Addresses, int), ParseError>(
            (self.addresses, self.header.spec_bytes().len() as int),
        )
    }
}

/// Compares a token slice with the bytes of `TCP4`.
fn token_is_tcp4(t: &[u8]) -> (r: bool)
    ensures
        r == (t@ == tcp4_token()),
{
    let r = t.len() == 4 && t[0] == 0x54 && t[1] == 0x43 && t[2] == 0x50 && t[3] == 0x34;
    proof {
        if r {
            assert(t@ =~= tcp4_token());
        }
    }
    r
}

/// Compares a token slice with the bytes of `TCP6`.
fn token_is_tcp6(t: &[u8]) -> (r: bool)
    ensures
        r == (t@ == tcp6_token()),
{
    let r = t.len() == 4 && t[0] == 0x54 && t[1] == 0x43 && t[2] == 0x50 && t[3] == 0x36;
    proof {
        if r {
            assert(t@ =~= tcp6_token());
        }
    }
    r
}

/// Compares a token slice with the bytes of `UNKNOWN`.
fn token_is_unknown(t: &[u8]) -> (r: bool)
    ensures
        r == (t@ == unknown_token()),
{
    let r = t.len() == 7 && t[0] == 0x55 && t[1] == 0x4e && t[2] == 0x4b && t[3] == 0x4e && t[4]
        == 0x4f && t[5] == 0x57 && t[6] == 0x4e;
    proof {
        if r {
            assert(t@ =~= unknown_token());
        }
    }
    r
}

/// Splits off the space-delimited token that starts the slice, and what
/// follows the separator if one occurs.
fn split_field<'x>(r: &'x [u8]) -> (ret: (&'x [u8], Option<&'x [u8]>))
    ensures
        ret.0@ == field_of(r@),
        match ret.1 {
            Some(t) => rest_of(r@) == Some(t@),
            None => rest_of(r@) is None,
        },
        0 <= token_end(r@) <= r@.len(),
        (ret.1 is None) == (token_end(r@) == r@.len()),
{
    proof {
        lemma_token_end(r@);
    }
    let te = match find_byte_exec(r, SPACE) {
        Some(i) => i,
        None => r.len(),
    };
    let f = slice_subrange(r, 0, te);
    if te < r.len() {
        (f, Some(slice_subrange(r, te + 1, r.len())))
    } else {
        (f, None)
    }
}

/// Reads the four fields of a TCP-over-IPv4 header.
#[verifier::rlimit(80)]
fn parse_tcp4_fields_exec(after: Option<&[u8]>) -> (r: Result<IPv4, ParseError>)
    ensures
        r == parse_tcp4_fields(
            match after {
                Some(r1) => Some(r1@),
                None => None,
            },
        ),
{
    match after {
        None => Err(ParseError::MissingSourceAddress),
        Some(r1) => {
            let (f1, rest1) = split_field(r1);
            match parse_ipv4(f1) {
                None => Err(ParseError::InvalidSourceAddress(AddressError)),
                Some(src) => match rest1 {
                    None => Err(ParseError::MissingDestinationAddress),
                    Some(r2) => {
                        let (f2, rest2) = split_field(r2);
                        match parse_ipv4(f2) {
                            None => Err(ParseError::InvalidDestinationAddress(AddressError)),
                            Some(dst) => match rest2 {
                                None => Err(ParseError::MissingSourcePort),
                                Some(r3) => {
                                    let (f3, rest3) = split_field(r3);
                                    match parse_port(f3) {
                                        Err(pe) => Err(ParseError::InvalidSourcePort(pe)),
                                        Ok(sp) => match rest3 {
                                            None => Err(ParseError::MissingDestinationPort),
                                            Some(r4) => {
                                                let (f4, rest4) = split_field(r4);
                                                match parse_port(f4) {
                                                    Err(pe) => Err(
                                                        ParseError::InvalidDestinationPort(pe),
                                                    ),
                                                    Ok(dp) => match rest4 {
                                                        None => Ok(
                                                            IPv4 {
                                                                source_address: src,
                                                                source_port: sp,
                                                                destination_address: dst,
                                                                destination_port: dp,
                                                            },
                                                        ),
                                                        Some(_) => Err(
                                                            ParseError::UnexpectedCharacters,
                                                        ),
                                                    },
                                                }
                                            },
                                        },
                                    }
                                },
                            },
                        }
                    },
                },
            }
        },
    }
}

/// Reads the four fields of a TCP-over-IPv6 header.
#[verifier::rlimit(80)]
fn parse_tcp6_fields_exec(after: Option<&[u8]>) -> (r: Result<IPv6, ParseError>)
    ensures
        r == parse_tcp6_fields(
            match after {
                Some(r1) => Some(r1@),
                None => None,
            },
        ),
{
    match after {
        None => Err(ParseError::MissingSourceAddress),
        Some(r1) => {
            let (f1, rest1) = split_field(r1);
            match parse_ipv6(f1) {
                None => Err(ParseError::InvalidSourceAddress(AddressError)),
                Some(src) => match rest1 {
                    None => Err(ParseError::MissingDestinationAddress),
                    Some(r2) => {
                        let (f2, rest2) = split_field(r2);
                        match parse_ipv6(f2) {
                            None => Err(ParseError::InvalidDestinationAddress(AddressError)),
                            Some(dst) => match rest2 {
                                None => Err(ParseError::MissingSourcePort),
                                Some(r3) => {
                                    let (f3, rest3) = split_field(r3);
                                    match parse_port(f3) {
                                        Err(pe) => Err(ParseError::InvalidSourcePort(pe)),
                                        Ok(sp) => match rest3 {
                                            None => Err(ParseError::MissingDestinationPort),
                                            Some(r4) => {
                                                let (f4, rest4) = split_field(r4);
                                                match parse_port(f4) {
                                                    Err(pe) => Err(
                                                        ParseError::InvalidDestinationPort(pe),
                                                    ),
                                                    Ok(dp) => match rest4 {
                                                        None => Ok(
                                                            IPv6 {
                                                                source_address: src,
                                                                source_port: sp,
                                                                destination_address: dst,
                                                                destination_port: dp,
                                                            },
                                                        ),
                                                        Some(_) => Err(
                                                            ParseError::UnexpectedCharacters,
                                                        ),
                                                    },
                                                }
                                            },
                                        },
                                    }
                                },
                            },
                        }
                    },
                },
            }
        },
    }
}

/// Reads the content before the line ending.
fn parse_content(c: &[u8]) -> (r: Result<Addresses, ParseError>)
    ensures
        r == content_model(c@),
{
    let n = c.len();
    if n < 6 || c[0] != 0x50 || c[1] != 0x52 || c[2] != 0x4f || c[3] != 0x58 || c[4] != 0x59 || c[5]
        != 0x20 {
        proof {
            if n >= 6 {
                assert(c@.subrange(0, 6) != prefix_bytes()) by {
                    if c@.subrange(0, 6) == prefix_bytes() {
                        assert(c@[0] == prefix_bytes()[0]);
                        assert(c@[1] == prefix_bytes()[1]);
                        assert(c@[2] == prefix_bytes()[2]);
                        assert(c@[3] == prefix_bytes()[3]);
                        assert(c@[4] == prefix_bytes()[4]);
                        assert(c@[5] == prefix_bytes()[5]);
                    }
                }
            }
        }
        return Err(ParseError::InvalidPrefix);
    }
    proof {
        assert(c@.subrange(0, 6) =~= prefix_bytes());
    }
    let r0 = slice_subrange(c, 6, n);
    if r0.len() == 0 {
        return Err(ParseError::MissingProtocol);
    }
    let (tok, after) = split_field(r0);
    if token_is_tcp4(tok) {
        match parse_tcp4_fields_exec(after) {
            Ok(ip) => Ok(Addresses::Tcp4(ip)),
            Err(e) => Err(e),
        }
    } else if token_is_tcp6(tok) {
        match parse_tcp6_fields_exec(after) {
            Ok(ip) => Ok(Addresses::Tcp6(ip)),
            Err(e) => Err(e),
        }
    } else if token_is_unknown(tok) {
        Ok(Addresses::Unknown)
    } else {
        Err(ParseError::InvalidProtocol)
    }
}

/// Scans for the line ending under the size bound, as the spec's
/// `header_span` describes.
fn find_header_span(s: &[u8]) -> (r: Result<usize, ParseError>)
    ensures
        match r {
            Ok(n) => header_span(s@) == Ok::<int, ParseError>(n as int),
            Err(e) => header_span(s@) == Err::<int, ParseError>(e),
        },
{
    let n = s.len();
    let mut j: usize = 0;
    while j + 1 < n && j <= 107
        invariant
            0 <= j <= 108,
            n == s@.len(),
            forall|k: int| 0 <= k < j ==> !pair_at(s@, k, CR, LF),
        decreases n - j,
    {
        if s[j] == CR && s[j + 1] == LF {
            proof {
                lemma_find_pair_is(s@, CR, LF, j as int);
            }
            return Ok(j + 2);
        }
        j = j + 1;
    }
    if j + 1 >= n {
        proof {
            assert forall|k: int| !pair_at(s@, k, CR, LF) by {
                if 0 <= k && k + 2 <= n {
                    assert(k < j);
                }
            }
            lemma_find_pair_none(s@, CR, LF);
        }
        if n >= 109 {
            Err(ParseError::HeaderTooLong)
        } else {
            Err(ParseError::MissingNewLine)
        }
    } else {
        proof {
            lemma_find_pair(s@, CR, LF);
            match find_pair(s@, CR, LF) {
                Some(i) => {
                    assert(i >= j);
                },
                None => {
                    assert(n >= 109);
                },
            }
        }
        Err(ParseError::HeaderTooLong)
    }
}

/// After an ASCII byte of a valid UTF-8 sequence stands a character
/// boundary.
proof fn lemma_boundary_after_ascii(bytes: Seq<u8>, p: int)
    requires
        vstd::utf8::valid_utf8(bytes),
        0 <= p < bytes.len(),
        bytes[p] < 0x80,
    ensures
        vstd::utf8::is_char_boundary(bytes, p + 1),
{
    vstd::utf8::is_char_boundary_iff_not_is_continuation_byte(bytes, p);
    assert(vstd::utf8::is_char_boundary(bytes, p));
    vstd::utf8::valid_utf8_split(bytes, p);
    let suf = bytes.subrange(p, bytes.len() as int);
    assert(vstd::utf8::valid_utf8(suf));
    assert(suf[0] == bytes[p]);
    assert(vstd::utf8::is_leading_byte_width_1(suf[0]));
    assert(vstd::utf8::length_of_first_scalar(suf) == 1);
    if p + 1 < bytes.len() {
        let pop = vstd::utf8::pop_first_scalar(suf);
        assert(pop =~= bytes.subrange(p + 1, bytes.len() as int));
        assert(vstd::utf8::valid_utf8(pop));
        if vstd::utf8::is_continuation_byte(bytes[p + 1]) {
            assert(pop[0] == bytes[p + 1]);
            assert(!vstd::utf8::valid_first_scalar(pop));
            assert(false);
        }
        vstd::utf8::is_char_boundary_iff_not_is_continuation_byte(bytes, p + 1);
    } else {
        vstd::utf8::is_char_boundary_start_end_of_seq(bytes);
    }
}

impl<'a> Header<'a> {
    /// Parses a text PROXY protocol header from a text slice; trailing
    /// bytes beyond the consumed span are not part of the result.
    pub fn parse(input: &'a str) -> (r: Result<Self, ParseError>)
        ensures
            match r {
                Ok(h) => {
                    &&& parse_model(input.spec_bytes()) matches Ok(p) && p.0 == h.addresses
                        && h.header.spec_bytes() == input.spec_bytes().subrange(0, p.1)
                    &&& h.wf()
                },
                Err(e) => parse_model(input.spec_bytes()) == Err::<(Addresses, int), ParseError>(
                    e,
                ),
            },
    {
        let bytes = input.as_bytes();
        match find_header_span(bytes) {
            Err(e) => Err(e),
            Ok(nspan) => {
                proof {
                    lemma_find_pair(bytes@, CR, LF);
                }
                let content = slice_subrange(bytes, 0, nspan - 2);
                match parse_content(content) {
                    Err(e) => Err(e),
                    Ok(addresses) => {
                        proof {
                            broadcast use vstd::utf8::encode_utf8_valid_utf8;

                            lemma_find_pair(bytes@, CR, LF);
                            assert(bytes@[nspan - 1] == LF);
                            lemma_boundary_after_ascii(bytes@, nspan - 1);
                        }
                        let (head, _) = input.split_at(nspan);
                        proof {
                            assert(head.spec_bytes() =~= input.spec_bytes().subrange(
                                0,
                                nspan as int,
                            ));
                            lemma_parse_prefix(input.spec_bytes(), addresses, nspan as int);
                        }
                        Ok(Header { header: head, addresses })
                    },
                }
            },
        }
    }

    /// Parses a text PROXY protocol header from a byte span that may be
    /// followed by arbitrary binary payload; only the consumed span must
    /// be valid UTF-8.
    pub fn parse_bytes(input: &'a [u8]) -> (r: Result<Self, BinaryParseError>)
        ensures
            match r {
                Ok(h) => {
                    &&& parse_bytes_model(input@) matches Ok(p) && p.0 == h.addresses
                        && h.header.spec_bytes() == input@.subrange(0, p.1)
                    &&& h.wf()
                },
                Err(e) => parse_bytes_model(input@) == Err::<(Addresses, int), BinaryParseError>(
                    e,
                ),
            },
    {
        match find_header_span(input) {
            Err(e) => Err(BinaryParseError::Parse(e)),
            Ok(nspan) => {
                proof {
                    lemma_find_pair(input@, CR, LF);
                }
                let span = slice_subrange(input, 0, nspan);
                match bytes_as_str(span) {
                    None => Err(BinaryParseError::InvalidUtf8),
                    Some(head) => {
                        let content = slice_subrange(input, 0, nspan - 2);
                        match parse_content(content) {
                            Err(e) => Err(BinaryParseError::Parse(e)),
                            Ok(addresses) => {
                                proof {
                                    assert(head.spec_bytes() == input@.subrange(0, nspan as int));
                                    lemma_parse_prefix(input@, addresses, nspan as int);
                                    assert(head.spec_bytes().subrange(0, nspan - 2)
                                        =~= input@.subrange(0, nspan as int - 2));
                                }
                                Ok(Header { header: head, addresses })
                            },
                        }
                    },
                }
            },
        }
    }
}


/// Every byte of a protocol token lies in the ASCII range.
pub proof fn lemma_token_ascii(a: Addresses)
    ensures
        forall|j: int|
            0 <= j < protocol_token(a).len() ==> #[trigger] protocol_token(a)[j] < 0x80,
{
    let tok = protocol_token(a);
    match a {
        Addresses::Tcp4(_) => {
            assert(forall|j: int| 0 <= j < tok.len() ==> #[trigger] tok[j] == tcp4_token()[j]);
        },
        Addresses::Tcp6(_) => {
            assert(forall|j: int| 0 <= j < tok.len() ==> #[trigger] tok[j] == tcp6_token()[j]);
        },
        Addresses::Unknown => {
            assert(forall|j: int| 0 <= j < tok.len() ==> #[trigger] tok[j] == unknown_token()[j]);
        },
    }
}

/// What a successful parse says of the consumed bytes: the prefix, the
/// protocol token determined by the variant, the separator after it when
/// anything follows, and the line ending, all within the size bound.
pub proof fn lemma_parse_ok_structure(s: Seq<u8>, a: Addresses, n: int)
    requires
        parse_model(s) == Ok::<(Addresses, int), ParseError>((a, n)),
    ensures
        2 <= n <= 109,
        n <= s.len(),
        s[n - 2] == CR && s[n - 1] == LF,
        s.subrange(0, 6) == prefix_bytes(),
        6 + protocol_token(a).len() <= n - 2,
        s.subrange(6, 6 + protocol_token(a).len() as int) == protocol_token(a),
        6 + protocol_token(a).len() < n - 2 ==> s[6 + protocol_token(a).len() as int] == SPACE,
{
    lemma_find_pair(s, CR, LF);
    let c = s.subrange(0, n - 2);
    assert(forall|j: int| 0 <= j < c.len() ==> #[trigger] c[j] == s[j]);
    let r0 = c.subrange(6, c.len() as int);
    assert(forall|j: int| 0 <= j < r0.len() ==> #[trigger] r0[j] == c[j + 6]);
    lemma_token_end(r0);
    let tok = field_of(r0);
    let te = token_end(r0);
    assert(tok.len() == te);
    assert(tok == protocol_token(a));
    assert(s.subrange(0, 6) =~= c.subrange(0, 6));
    assert(s.subrange(6, 6 + tok.len() as int) =~= tok);
    if 6 + tok.len() < n - 2 {
        assert(te < r0.len());
        assert(r0[te] == SPACE);
    }
}

/// What the consumed text holds between the protocol token and the line
/// ending, its leading separator stripped when one is present.
pub open spec fn addresses_str_model(s: Seq<u8>, a: Addresses) -> Seq<u8> {
    let t = s.subrange(6 + protocol_token(a).len() as int, s.len() - 2);
    if t.len() > 0 && t[0] == SPACE {
        t.drop_first()
    } else {
        t
    }
}

impl<'a> Header<'a> {
    /// The source and destination addresses portion of this `Header`.
    #[verifier::rlimit(80)]
    pub fn addresses_str(&self) -> (r: &'a str)
        requires
            self.wf(),
        ensures
            r.spec_bytes() == addresses_str_model(self.header.spec_bytes(), self.addresses),
    {
        let ghost s = self.header.spec_bytes();
        proof {
            broadcast use vstd::utf8::encode_utf8_valid_utf8;

            lemma_parse_ok_structure(s, self.addresses, s.len() as int);
            lemma_token_ascii(self.addresses);
        }
        let tl = self.protocol().len();
        let start = 6 + tl;
        let end = self.header.len() - 2;
        proof {
            assert(s[start - 1] == protocol_token(self.addresses)[tl - 1]);
            lemma_boundary_after_ascii(s, start as int - 1);
            vstd::utf8::is_char_boundary_iff_not_is_continuation_byte(s, end as int);
        }
        let (_, tail) = self.header.split_at(start);
        proof {
            assert(tail.spec_bytes() =~= s.subrange(start as int, s.len() as int));
            if end > start {
                assert(tail.spec_bytes()[end - start] == s[end as int]);
                vstd::utf8::is_char_boundary_iff_not_is_continuation_byte(
                    tail.spec_bytes(),
                    end as int - start as int,
                );
            }
        }
        let body = tail.split_at(end - start).0;
        let ghost t = s.subrange(start as int, end as int);
        proof {
            assert(body.spec_bytes() =~= t);
        }
        let bb = body.as_bytes();
        if bb.len() > 0 && bb[0] == SPACE {
            proof {
                lemma_boundary_after_ascii(body.spec_bytes(), 0);
            }
            let stripped = body.split_at(1).1;
            proof {
                assert(stripped.spec_bytes() =~= t.drop_first());
            }
            stripped
        } else {
            body
        }
    }
}


impl Addresses {
    /// Parses the addresses of a text PROXY protocol header, discarding
    /// the consumed text.
    pub fn parse(input: &str) -> (r: Result<Addresses, ParseError>)
        ensures
            match r {
                Ok(a) => parse_model(input.spec_bytes()) matches Ok(p) && p.0 == a,
                Err(e) => parse_model(input.spec_bytes()) == Err::<(Addresses, int), ParseError>(
                    e,
                ),
            },
    {
        match Header::parse(input) {
            Ok(h) => Ok(h.addresses),
            Err(e) => Err(e),
        }
    }
}

} // verus!
