//! The laws of the library, stated over the parse and format models: the
//! canonical round trip, the lossy unknown-payload round trip, the
//! truncation and size-bound behaviour, protocol-token case sensitivity,
//! and family-strict address syntax.

use vstd::prelude::*;

use crate::error::{AddressError, ParseError};
use crate::format::{format_bytes, format_content, lemma_format_content};
use crate::ipv4::{ipv4_text, lemma_ipv4_rejects_colon, lemma_ipv4_roundtrip};
use crate::ipv6::{groups_text, ipv6_text, lemma_ipv6_roundtrip};
use crate::model::{
    crlf_bytes, prefix_bytes, tcp4_token, tcp6_token, unknown_token, Addresses, IPv4, IPv6,
};
use crate::parse::{
    content_model, header_span, parse_model, parse_tcp4_fields, parse_tcp6_fields,
};
use crate::text::{
    dec_rep, dec_val, field_of, find_pair, hex_rep, lemma_dec_rep, lemma_find_byte_is,
    lemma_find_byte_none, lemma_find_pair_is, lemma_find_pair_none, pair_at, parse_port_model,
    rest_of, token_end, COLON, CR, LF, SPACE,
};

verus! {

/// A space-free token followed by a separator is the field that starts
/// the sequence, and what follows the separator is the rest.
proof fn lemma_field_split(t: Seq<u8>, rest: Seq<u8>)
    requires
        forall|j: int| 0 <= j < t.len() ==> #[trigger] t[j] != SPACE,
    ensures
        field_of(t + seq![SPACE] + rest) == t,
        rest_of(t + seq![SPACE] + rest) == Some(rest),
{
    let s = t + seq![SPACE] + rest;
    assert(s[t.len() as int] == SPACE);
    assert(forall|j: int| 0 <= j < t.len() ==> #[trigger] s[j] == t[j]);
    lemma_find_byte_is(s, SPACE, t.len() as int);
    assert(s.subrange(0, t.len() as int) =~= t);
    assert(s.subrange(t.len() as int + 1, s.len() as int) =~= rest);
}

/// A space-free sequence is one whole field with nothing after it.
proof fn lemma_field_last(t: Seq<u8>)
    requires
        forall|j: int| 0 <= j < t.len() ==> #[trigger] t[j] != SPACE,
    ensures
        field_of(t) == t,
        rest_of(t) is None,
        token_end(t) == t.len(),
{
    lemma_find_byte_none(t, SPACE);
    assert(t.subrange(0, t.len() as int) =~= t);
}

/// The scan of a canonical rendering finds the line ending right after
/// the content.
proof fn lemma_canonical_span(a: Addresses)
    ensures
        header_span(format_bytes(a)) == Ok::<int, ParseError>(format_bytes(a).len() as int),
        format_bytes(a).subrange(0, format_content(a).len() as int) == format_content(a),
        format_bytes(a).subrange(0, 6) == prefix_bytes(),
{
    lemma_format_content(a);
    let c = format_content(a);
    let f = format_bytes(a);
    assert(f[c.len() as int] == crlf_bytes()[0]);
    assert(f[c.len() as int + 1] == crlf_bytes()[1]);
    assert(pair_at(f, c.len() as int, CR, LF));
    assert(forall|j: int| 0 <= j < c.len() ==> #[trigger] f[j] == c[j]);
    assert forall|j: int| 0 <= j < c.len() implies !pair_at(f, j, CR, LF) by {
        assert(c[j] != CR);
    }
    lemma_find_pair_is(f, CR, LF, c.len() as int);
    assert(f.subrange(0, c.len() as int) =~= c);
    assert(f.subrange(0, 6) =~= prefix_bytes());
}

/// The text of the four typed fields of a TCP-over-IPv4 model.
spec fn typed_rest4(ip: IPv4) -> Seq<u8> {
    ipv4_text(ip.source_address) + seq![SPACE] + ipv4_text(ip.destination_address) + seq![SPACE]
        + dec_rep(ip.source_port as nat) + seq![SPACE] + dec_rep(ip.destination_port as nat)
}

/// The text of the four typed fields of a TCP-over-IPv6 model.
spec fn typed_rest6(ip: IPv6) -> Seq<u8> {
    ipv6_text(ip.source_address) + seq![SPACE] + ipv6_text(ip.destination_address) + seq![SPACE]
        + dec_rep(ip.source_port as nat) + seq![SPACE] + dec_rep(ip.destination_port as nat)
}

/// The canonical field text of a TCP-over-IPv4 model reads back to it.
#[verifier::rlimit(100)]
proof fn lemma_tcp4_rest(ip: IPv4)
    ensures
        parse_tcp4_fields(Some(typed_rest4(ip))) == Ok::<IPv4, ParseError>(ip),
{
    let sa = ipv4_text(ip.source_address);
    let da = ipv4_text(ip.destination_address);
    let sp = dec_rep(ip.source_port as nat);
    let dp = dec_rep(ip.destination_port as nat);
    lemma_ipv4_roundtrip(ip.source_address);
    lemma_ipv4_roundtrip(ip.destination_address);
    lemma_dec_rep(ip.source_port as nat);
    lemma_dec_rep(ip.destination_port as nat);
    let rest1 = typed_rest4(ip);
    let rest2 = da + seq![SPACE] + sp + seq![SPACE] + dp;
    assert(rest1 =~= sa + seq![SPACE] + rest2);
    assert(forall|j: int| 0 <= j < sa.len() ==> #[trigger] sa[j] != SPACE);
    lemma_field_split(sa, rest2);
    let rest3 = sp + seq![SPACE] + dp;
    assert(rest2 =~= da + seq![SPACE] + rest3);
    assert(forall|j: int| 0 <= j < da.len() ==> #[trigger] da[j] != SPACE);
    lemma_field_split(da, rest3);
    assert(forall|j: int| 0 <= j < sp.len() ==> #[trigger] sp[j] != SPACE);
    lemma_field_split(sp, dp);
    assert(forall|j: int| 0 <= j < dp.len() ==> #[trigger] dp[j] != SPACE);
    lemma_field_last(dp);
    assert(parse_port_model(sp) == Ok::<u16, Option<crate::error::PortError>>(
        ip.source_port,
    )) by {
        assert(dec_val(sp) == ip.source_port as nat);
    }
    assert(parse_port_model(dp) == Ok::<u16, Option<crate::error::PortError>>(
        ip.destination_port,
    )) by {
        assert(dec_val(dp) == ip.destination_port as nat);
    }
}

/// The canonical field text of a TCP-over-IPv6 model reads back to it.
#[verifier::rlimit(100)]
proof fn lemma_tcp6_rest(ip: IPv6)
    ensures
        parse_tcp6_fields(Some(typed_rest6(ip))) == Ok::<IPv6, ParseError>(ip),
{
    let sa = ipv6_text(ip.source_address);
    let da = ipv6_text(ip.destination_address);
    let sp = dec_rep(ip.source_port as nat);
    let dp = dec_rep(ip.destination_port as nat);
    lemma_ipv6_roundtrip(ip.source_address);
    lemma_ipv6_roundtrip(ip.destination_address);
    lemma_dec_rep(ip.source_port as nat);
    lemma_dec_rep(ip.destination_port as nat);
    let rest1 = typed_rest6(ip);
    let rest2 = da + seq![SPACE] + sp + seq![SPACE] + dp;
    assert(rest1 =~= sa + seq![SPACE] + rest2);
    assert(forall|j: int| 0 <= j < sa.len() ==> #[trigger] sa[j] != SPACE);
    lemma_field_split(sa, rest2);
    let rest3 = sp + seq![SPACE] + dp;
    assert(rest2 =~= da + seq![SPACE] + rest3);
    assert(forall|j: int| 0 <= j < da.len() ==> #[trigger] da[j] != SPACE);
    lemma_field_split(da, rest3);
    assert(forall|j: int| 0 <= j < sp.len() ==> #[trigger] sp[j] != SPACE);
    lemma_field_split(sp, dp);
    assert(forall|j: int| 0 <= j < dp.len() ==> #[trigger] dp[j] != SPACE);
    lemma_field_last(dp);
    assert(parse_port_model(sp) == Ok::<u16, Option<crate::error::PortError>>(
        ip.source_port,
    )) by {
        assert(dec_val(sp) == ip.source_port as nat);
    }
    assert(parse_port_model(dp) == Ok::<u16, Option<crate::error::PortError>>(
        ip.destination_port,
    )) by {
        assert(dec_val(dp) == ip.destination_port as nat);
    }
}

/// The canonical rendering of a TCP-over-IPv4 model parses back to it.
#[verifier::rlimit(100)]
proof fn lemma_roundtrip_tcp4(ip: IPv4)
    ensures
        parse_model(format_bytes(Addresses::Tcp4(ip))) == Ok::<(Addresses, int), ParseError>(
            (Addresses::Tcp4(ip), format_bytes(Addresses::Tcp4(ip)).len() as int),
        ),
{
    let a = Addresses::Tcp4(ip);
    lemma_canonical_span(a);
    lemma_format_content(a);
    lemma_tcp4_rest(ip);
    let c = format_content(a);
    let r0 = c.subrange(6, c.len() as int);
    assert(c.subrange(0, 6) =~= prefix_bytes());
    assert(r0 =~= tcp4_token() + seq![SPACE] + typed_rest4(ip));
    assert(forall|j: int|
        0 <= j < tcp4_token().len() ==> #[trigger] tcp4_token()[j] != SPACE);
    lemma_field_split(tcp4_token(), typed_rest4(ip));
    assert(parse_tcp4_fields(rest_of(r0)) == Ok::<IPv4, ParseError>(ip));
    assert(content_model(c) == Ok::<Addresses, ParseError>(a));
}

/// The canonical content of a TCP-over-IPv6 model reads back to it.
#[verifier::rlimit(100)]
proof fn lemma_content_tcp6(ip: IPv6)
    ensures
        content_model(format_content(Addresses::Tcp6(ip))) == Ok::<Addresses, ParseError>(
            Addresses::Tcp6(ip),
        ),
{
    let a = Addresses::Tcp6(ip);
    lemma_format_content(a);
    lemma_tcp6_rest(ip);
    let c = format_content(a);
    let r0 = c.subrange(6, c.len() as int);
    assert(c.subrange(0, 6) =~= prefix_bytes());
    assert(r0 =~= tcp6_token() + seq![SPACE] + typed_rest6(ip));
    assert(forall|j: int|
        0 <= j < tcp6_token().len() ==> #[trigger] tcp6_token()[j] != SPACE);
    lemma_field_split(tcp6_token(), typed_rest6(ip));
    assert(tcp6_token() != tcp4_token()) by {
        assert(tcp4_token()[3] == 0x34 && tcp6_token()[3] == 0x36);
    }
    assert(parse_tcp6_fields(rest_of(r0)) == Ok::<IPv6, ParseError>(ip));
}

/// The canonical rendering of a TCP-over-IPv6 model parses back to it.
#[verifier::rlimit(100)]
proof fn lemma_roundtrip_tcp6(ip: IPv6)
    ensures
        parse_model(format_bytes(Addresses::Tcp6(ip))) == Ok::<(Addresses, int), ParseError>(
            (Addresses::Tcp6(ip), format_bytes(Addresses::Tcp6(ip)).len() as int),
        ),
{
    let a = Addresses::Tcp6(ip);
    lemma_canonical_span(a);
    lemma_content_tcp6(ip);
}

/// Parsing the canonical rendering of any address model recovers that
/// model and consumes exactly the rendering.
pub proof fn lemma_canonical_roundtrip(a: Addresses)
    ensures
        parse_model(format_bytes(a)) == Ok::<(Addresses, int), ParseError>(
            (a, format_bytes(a).len() as int),
        ),
{
    match a {
        Addresses::Unknown => {
            lemma_canonical_span(a);
            let c = format_content(a);
            let r0 = c.subrange(6, c.len() as int);
            assert(c.subrange(0, 6) =~= prefix_bytes());
            assert(r0 =~= unknown_token());
            assert(forall|j: int|
                0 <= j < r0.len() ==> #[trigger] r0[j] == unknown_token()[j]);
            assert forall|j: int| 0 <= j < r0.len() implies #[trigger] r0[j] != SPACE by {
                assert(r0[j] == unknown_token()[j]);
            }
            lemma_field_last(r0);
            assert(r0 != tcp4_token() && r0 != tcp6_token());
            assert(content_model(c) == Ok::<Addresses, ParseError>(a));
        },
        Addresses::Tcp4(ip) => {
            lemma_roundtrip_tcp4(ip);
        },
        Addresses::Tcp6(ip) => {
            lemma_roundtrip_tcp6(ip);
        },
    }
}

/// Formatting what a canonical header parses to reproduces that header
/// byte for byte: the round trip of every header in canonical form.
pub proof fn lemma_format_parse_canonical(h: Seq<u8>)
    requires
        exists|a: Addresses| h == format_bytes(a),
    ensures
        parse_model(h) matches Ok(p) && format_bytes(p.0) == h && p.1 == h.len(),
{
    let a = choose|a: Addresses| h == format_bytes(a);
    lemma_canonical_roundtrip(a);
}

/// Any header whose content is `PROXY UNKNOWN`, alone or followed by a
/// separator and arbitrary payload, parses to the unknown variant, whose
/// canonical rendering is the fixed line without the payload.
pub proof fn lemma_unknown_payload(s: Seq<u8>, i: int)
    requires
        find_pair(s, CR, LF) == Some(i),
        13 <= i <= 107,
        s.subrange(0, 13) == prefix_bytes() + unknown_token(),
        i == 13 || s[13] == SPACE,
    ensures
        parse_model(s) == Ok::<(Addresses, int), ParseError>((Addresses::Unknown, i + 2)),
        format_bytes(Addresses::Unknown) == prefix_bytes() + unknown_token() + crlf_bytes(),
{
    crate::text::lemma_find_pair(s, CR, LF);
    let c = s.subrange(0, i);
    let p = prefix_bytes() + unknown_token();
    assert(forall|j: int| 0 <= j < 13 ==> #[trigger] s[j] == p[j]);
    assert(c.subrange(0, 6) =~= prefix_bytes());
    let r0 = c.subrange(6, c.len() as int);
    assert(r0.len() == i - 6 >= 7);
    assert(forall|j: int| 0 <= j < 7 ==> #[trigger] r0[j] == unknown_token()[j]);
    if i == 13 {
        assert(forall|j: int| 0 <= j < r0.len() ==> #[trigger] r0[j] != SPACE);
        lemma_find_byte_none(r0, SPACE);
        assert(field_of(r0) =~= unknown_token());
    } else {
        assert(r0[7] == SPACE);
        assert forall|j: int| 0 <= j < 7 implies #[trigger] r0[j] != SPACE by {
            assert(r0[j] == unknown_token()[j]);
        }
        lemma_find_byte_is(r0, SPACE, 7);
        assert(field_of(r0) =~= unknown_token());
    }
    assert(unknown_token() != tcp4_token() && unknown_token() != tcp6_token());
    assert(content_model(c) == Ok::<Addresses, ParseError>(Addresses::Unknown));
}

/// Truncating a header that parses, anywhere before its line ending,
/// yields the incomplete-data error and no other: the prefix is always
/// within the size bound.
pub proof fn lemma_truncation_incomplete(s: Seq<u8>, a: Addresses, n: int, m: int)
    requires
        parse_model(s) == Ok::<(Addresses, int), ParseError>((a, n)),
        0 <= m < n,
    ensures
        parse_model(s.subrange(0, m)) == Err::<(Addresses, int), ParseError>(
            ParseError::MissingNewLine,
        ),
{
    crate::text::lemma_find_pair(s, CR, LF);
    let t = s.subrange(0, m);
    assert forall|j: int| !pair_at(t, j, CR, LF) by {
        if 0 <= j && j + 2 <= t.len() {
            assert(j < n - 2);
            assert(!pair_at(s, j, CR, LF));
        }
    }
    lemma_find_pair_none(t, CR, LF);
    assert(t.len() == m < 109);
}

/// A line ending found only past the bound means the size-exceeded
/// error, however well-formed the content.
pub proof fn lemma_oversize(s: Seq<u8>, i: int)
    requires
        find_pair(s, CR, LF) == Some(i),
        i > 107,
    ensures
        parse_model(s) == Err::<(Addresses, int), ParseError>(ParseError::HeaderTooLong),
{
}

/// A header whose protocol token is not byte-for-byte one of the three
/// recognized literals is rejected as an invalid protocol; a token
/// differing only in case is such a token.
pub proof fn lemma_invalid_protocol(s: Seq<u8>, n: int)
    requires
        header_span(s) == Ok::<int, ParseError>(n),
        s.subrange(0, n - 2).len() >= 6,
        s.subrange(0, 6) == s.subrange(0, n - 2).subrange(0, 6),
        s.subrange(0, 6) == prefix_bytes(),
        n - 2 > 6,
        field_of(s.subrange(0, n - 2).subrange(6, n - 2)) != tcp4_token(),
        field_of(s.subrange(0, n - 2).subrange(6, n - 2)) != tcp6_token(),
        field_of(s.subrange(0, n - 2).subrange(6, n - 2)) != unknown_token(),
    ensures
        parse_model(s) == Err::<(Addresses, int), ParseError>(ParseError::InvalidProtocol),
{
    crate::text::lemma_find_pair(s, CR, LF);
    let c = s.subrange(0, n - 2);
    assert(c.subrange(0, 6) =~= s.subrange(0, 6));
    assert(c.subrange(6, c.len() as int).len() > 0);
}

/// An IPv6-formatted address standing in a TCP4 source-address field is
/// an address-syntax error, never a silent misparse: the canonical text
/// of an IPv6 address always holds a colon, which no IPv4 field admits.
pub proof fn lemma_ipv6_field_in_tcp4(r1: Seq<u8>, a6: crate::ipv6::Ipv6Address)
    requires
        field_of(r1) == ipv6_text(a6),
    ensures
        parse_tcp4_fields(Some(r1)) == Err::<IPv4, ParseError>(
            ParseError::InvalidSourceAddress(AddressError),
        ),
{
    let gs = a6@;
    let t = ipv6_text(a6);
    assert(t == hex_rep(gs[0] as nat) + seq![COLON] + groups_text(gs.drop_first()));
    crate::text::lemma_hex_rep(gs[0] as nat);
    let k = hex_rep(gs[0] as nat).len() as int;
    assert(t[k] == COLON);
    assert(0 <= k < t.len());
    lemma_ipv4_rejects_colon(t, k);
}


/// Every error except the incomplete-data signal is permanent: appending
/// more bytes to the input cannot change the outcome.
pub proof fn lemma_errors_permanent(s: Seq<u8>, t: Seq<u8>, e: ParseError)
    requires
        parse_model(s) == Err::<(Addresses, int), ParseError>(e),
        e != ParseError::MissingNewLine,
    ensures
        parse_model(s + t) == Err::<(Addresses, int), ParseError>(e),
{
    crate::text::lemma_find_pair(s, CR, LF);
    crate::text::lemma_find_pair(s + t, CR, LF);
    let u = s + t;
    assert(forall|j: int| 0 <= j < s.len() ==> #[trigger] u[j] == s[j]);
    match find_pair(s, CR, LF) {
        Some(i) => {
            assert(pair_at(u, i, CR, LF));
            assert forall|j: int| 0 <= j < i implies !pair_at(u, j, CR, LF) by {
                assert(!pair_at(s, j, CR, LF));
            }
            lemma_find_pair_is(u, CR, LF, i);
            if i <= 107 {
                assert(u.subrange(0, i) =~= s.subrange(0, i));
            }
        },
        None => {
            assert(s.len() >= 109);
            match find_pair(u, CR, LF) {
                Some(j) => {
                    assert(j + 1 >= s.len()) by {
                        if j + 1 < s.len() {
                            assert(pair_at(s, j, CR, LF));
                        }
                    }
                    assert(j > 107);
                },
                None => {
                    assert(u.len() >= 109);
                },
            }
        },
    }
}

} // verus!
