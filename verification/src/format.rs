//! The canonical formatter: renders an address model back to the exact
//! wire text, independent of any originally parsed slice.

use vstd::prelude::*;
use vstd::string::StringExecFns;
use vstd::string::StringSliceAdditionalSpecFns;

use crate::ipv4::{ipv4_text, lemma_octets_text, octets_text, Ipv4Address};
use crate::ipv6::{groups_text, ipv6_text, lemma_groups_text, Ipv6Address};
use crate::model::{
    crlf_bytes, prefix_bytes, protocol_token, tcp4_token, tcp6_token, unknown_token, Addresses,
};
use crate::text::{
    bytes_as_str, dec_rep, hex_digit_rep, hex_rep, is_digit, is_hex_digit, lemma_dec_rep,
    lemma_hex_rep, bytes_ascii, COLON, CR, DOT, LF, SPACE,
};

verus! {

/// The canonical content of a header, without its line ending.
pub open spec fn format_content(a: Addresses) -> Seq<u8> {
    match a {
        Addresses::Unknown => prefix_bytes() + unknown_token(),
        Addresses::Tcp4(ip) => prefix_bytes() + tcp4_token() + seq![SPACE] + ipv4_text(
            ip.source_address,
        ) + seq![SPACE] + ipv4_text(ip.destination_address) + seq![SPACE] + dec_rep(
            ip.source_port as nat,
        ) + seq![SPACE] + dec_rep(ip.destination_port as nat),
        Addresses::Tcp6(ip) => prefix_bytes() + tcp6_token() + seq![SPACE] + ipv6_text(
            ip.source_address,
        ) + seq![SPACE] + ipv6_text(ip.destination_address) + seq![SPACE] + dec_rep(
            ip.source_port as nat,
        ) + seq![SPACE] + dec_rep(ip.destination_port as nat),
    }
}

/// The canonical wire text of an address model, as bytes: the content
/// followed by the line ending.
pub open spec fn format_bytes(a: Addresses) -> Seq<u8> {
    format_content(a) + crlf_bytes()
}

/// The canonical content is ASCII, at most 107 bytes long, and free of
/// carriage returns and line feeds.
pub proof fn lemma_format_content(a: Addresses)
    ensures
        13 <= format_content(a).len() <= 107,
        forall|j: int|
            0 <= j < format_content(a).len() ==> bytes_ascii(#[trigger] format_content(a)[j]),
        forall|j: int|
            0 <= j < format_content(a).len() ==> format_content(a)[j] != CR && format_content(
                a,
            )[j] != LF,
{
    let c = format_content(a);
    match a {
        Addresses::Unknown => {
            assert forall|j: int| 0 <= j < c.len() implies bytes_ascii(c[j]) && c[j] != CR && c[j]
                != LF by {
                if j < 6 {
                    assert(c[j] == prefix_bytes()[j]);
                } else {
                    assert(c[j] == unknown_token()[j - 6]);
                }
            }
        },
        Addresses::Tcp4(ip) => {
            lemma_octets_text(ip.source_address@);
            lemma_octets_text(ip.destination_address@);
            lemma_dec_rep(ip.source_port as nat);
            lemma_dec_rep(ip.destination_port as nat);
            let sa = ipv4_text(ip.source_address);
            let da = ipv4_text(ip.destination_address);
            let sp = dec_rep(ip.source_port as nat);
            let dp = dec_rep(ip.destination_port as nat);
            let l0 = 6int;
            let l1 = l0 + 4;
            let l2 = l1 + 1;
            let l3 = l2 + sa.len() as int;
            let l4 = l3 + 1;
            let l5 = l4 + da.len() as int;
            let l6 = l5 + 1;
            let l7 = l6 + sp.len() as int;
            let l8 = l7 + 1;
            assert forall|j: int| 0 <= j < c.len() implies bytes_ascii(c[j]) && c[j] != CR && c[j]
                != LF by {
                if j < l0 {
                    assert(c[j] == prefix_bytes()[j]);
                } else if j < l1 {
                    assert(c[j] == tcp4_token()[j - l0]);
                } else if j < l2 {
                    assert(c[j] == SPACE);
                } else if j < l3 {
                    assert(c[j] == sa[j - l2]);
                    assert(is_digit(sa[j - l2]) || sa[j - l2] == DOT);
                } else if j < l4 {
                    assert(c[j] == SPACE);
                } else if j < l5 {
                    assert(c[j] == da[j - l4]);
                    assert(is_digit(da[j - l4]) || da[j - l4] == DOT);
                } else if j < l6 {
                    assert(c[j] == SPACE);
                } else if j < l7 {
                    assert(c[j] == sp[j - l6]);
                    assert(is_digit(sp[j - l6]));
                } else if j < l8 {
                    assert(c[j] == SPACE);
                } else {
                    assert(c[j] == dp[j - l8]);
                    assert(is_digit(dp[j - l8]));
                }
            }
        },
        Addresses::Tcp6(ip) => {
            lemma_groups_text(ip.source_address@);
            lemma_groups_text(ip.destination_address@);
            lemma_dec_rep(ip.source_port as nat);
            lemma_dec_rep(ip.destination_port as nat);
            let sa = ipv6_text(ip.source_address);
            let da = ipv6_text(ip.destination_address);
            let sp = dec_rep(ip.source_port as nat);
            let dp = dec_rep(ip.destination_port as nat);
            let l0 = 6int;
            let l1 = l0 + 4;
            let l2 = l1 + 1;
            let l3 = l2 + sa.len() as int;
            let l4 = l3 + 1;
            let l5 = l4 + da.len() as int;
            let l6 = l5 + 1;
            let l7 = l6 + sp.len() as int;
            let l8 = l7 + 1;
            assert forall|j: int| 0 <= j < c.len() implies bytes_ascii(c[j]) && c[j] != CR && c[j]
                != LF by {
                if j < l0 {
                    assert(c[j] == prefix_bytes()[j]);
                } else if j < l1 {
                    assert(c[j] == tcp6_token()[j - l0]);
                } else if j < l2 {
                    assert(c[j] == SPACE);
                } else if j < l3 {
                    assert(c[j] == sa[j - l2]);
                    assert(is_hex_digit(sa[j - l2]) || sa[j - l2] == COLON);
                } else if j < l4 {
                    assert(c[j] == SPACE);
                } else if j < l5 {
                    assert(c[j] == da[j - l4]);
                    assert(is_hex_digit(da[j - l4]) || da[j - l4] == COLON);
                } else if j < l6 {
                    assert(c[j] == SPACE);
                } else if j < l7 {
                    assert(c[j] == sp[j - l6]);
                    assert(is_digit(sp[j - l6]));
                } else if j < l8 {
                    assert(c[j] == SPACE);
                } else {
                    assert(c[j] == dp[j - l8]);
                    assert(is_digit(dp[j - l8]));
                }
            }
        },
    }
}

/// Appends the canonical decimal rendering of `n`.
fn push_dec(v: &mut Vec<u8>, n: u16)
    ensures
        final(v)@ == old(v)@ + dec_rep(n as nat),
    decreases n,
{
    if n < 10 {
        v.push(0x30 + n as u8);
        proof {
            assert(final(v)@ =~= old(v)@ + dec_rep(n as nat));
        }
    } else {
        push_dec(v, n / 10);
        v.push(0x30 + (n % 10) as u8);
        proof {
            assert(final(v)@ =~= old(v)@ + dec_rep(n as nat));
        }
    }
}

/// Appends the canonical lowercase hexadecimal rendering of `n`.
fn push_hex(v: &mut Vec<u8>, n: u16)
    ensures
        final(v)@ == old(v)@ + hex_rep(n as nat),
    decreases n,
{
    let d: u16 = n % 16;
    let b: u8 = if d < 10 {
        0x30 + d as u8
    } else {
        0x61 + (d - 10) as u8
    };
    proof {
        assert(b == hex_digit_rep((n % 16) as nat));
    }
    if n < 16 {
        v.push(b);
        proof {
            assert(final(v)@ =~= old(v)@ + hex_rep(n as nat));
        }
    } else {
        push_hex(v, n / 16);
        v.push(b);
        proof {
            assert(final(v)@ =~= old(v)@ + hex_rep(n as nat));
        }
    }
}

/// Appends the canonical dotted-decimal text of an IPv4 address.
fn push_ipv4(v: &mut Vec<u8>, a: &Ipv4Address)
    ensures
        final(v)@ == old(v)@ + ipv4_text(*a),
{
    push_dec(v, a.o0 as u16);
    v.push(DOT);
    push_dec(v, a.o1 as u16);
    v.push(DOT);
    push_dec(v, a.o2 as u16);
    v.push(DOT);
    push_dec(v, a.o3 as u16);
    proof {
        reveal_with_fuel(octets_text, 5);
        let os = a@;
        assert(os.drop_first() =~= seq![a.o1, a.o2, a.o3]);
        assert(os.drop_first().drop_first() =~= seq![a.o2, a.o3]);
        assert(os.drop_first().drop_first().drop_first() =~= seq![a.o3]);
        assert(octets_text(seq![a.o3]) == dec_rep(a.o3 as nat));
        assert(octets_text(os) =~= dec_rep(a.o0 as nat) + seq![DOT] + (dec_rep(a.o1 as nat)
            + seq![DOT] + (dec_rep(a.o2 as nat) + seq![DOT] + dec_rep(a.o3 as nat))));
        assert(final(v)@ =~= old(v)@ + ipv4_text(*a));
    }
}

/// Appends the canonical full-form text of an IPv6 address.
#[verifier::rlimit(60)]
fn push_ipv6(v: &mut Vec<u8>, a: &Ipv6Address)
    ensures
        final(v)@ == old(v)@ + ipv6_text(*a),
{
    push_hex(v, a.g0);
    v.push(COLON);
    push_hex(v, a.g1);
    v.push(COLON);
    push_hex(v, a.g2);
    v.push(COLON);
    push_hex(v, a.g3);
    v.push(COLON);
    push_hex(v, a.g4);
    v.push(COLON);
    push_hex(v, a.g5);
    v.push(COLON);
    push_hex(v, a.g6);
    v.push(COLON);
    push_hex(v, a.g7);
    proof {
        reveal_with_fuel(groups_text, 9);
        let gs = a@;
        assert(gs.drop_first() =~= seq![a.g1, a.g2, a.g3, a.g4, a.g5, a.g6, a.g7]);
        assert(gs.drop_first().drop_first() =~= seq![a.g2, a.g3, a.g4, a.g5, a.g6, a.g7]);
        assert(gs.drop_first().drop_first().drop_first() =~= seq![a.g3, a.g4, a.g5, a.g6, a.g7]);
        assert(gs.drop_first().drop_first().drop_first().drop_first() =~= seq![
            a.g4,
            a.g5,
            a.g6,
            a.g7,
        ]);
        assert(gs.drop_first().drop_first().drop_first().drop_first().drop_first() =~= seq![
            a.g5,
            a.g6,
            a.g7,
        ]);
        assert(gs.drop_first().drop_first().drop_first().drop_first().drop_first().drop_first()
            =~= seq![a.g6, a.g7]);
        assert(gs.drop_first().drop_first().drop_first().drop_first().drop_first().drop_first().drop_first()
            =~= seq![a.g7]);
        assert(groups_text(seq![a.g7]) == hex_rep(a.g7 as nat));
        assert(groups_text(gs) =~= hex_rep(a.g0 as nat) + seq![COLON] + (hex_rep(a.g1 as nat)
            + seq![COLON] + (hex_rep(a.g2 as nat) + seq![COLON] + (hex_rep(a.g3 as nat)
            + seq![COLON] + (hex_rep(a.g4 as nat) + seq![COLON] + (hex_rep(a.g5 as nat)
            + seq![COLON] + (hex_rep(a.g6 as nat) + seq![COLON] + hex_rep(a.g7 as nat))))))));
        assert(final(v)@ =~= old(v)@ + ipv6_text(*a));
    }
}

/// Appends the literal `PROXY ` followed by the protocol token of `a`.
fn push_prefix_and_token(v: &mut Vec<u8>, a: &Addresses)
    ensures
        final(v)@ == old(v)@ + prefix_bytes() + protocol_token(*a),
{
    v.push(0x50);
    v.push(0x52);
    v.push(0x4f);
    v.push(0x58);
    v.push(0x59);
    v.push(0x20);
    match a {
        Addresses::Tcp4(_) => {
            v.push(0x54);
            v.push(0x43);
            v.push(0x50);
            v.push(0x34);
        },
        Addresses::Tcp6(_) => {
            v.push(0x54);
            v.push(0x43);
            v.push(0x50);
            v.push(0x36);
        },
        Addresses::Unknown => {
            v.push(0x55);
            v.push(0x4e);
            v.push(0x4b);
            v.push(0x4e);
            v.push(0x4f);
            v.push(0x57);
            v.push(0x4e);
        },
    }
    proof {
        assert(final(v)@ =~= old(v)@ + prefix_bytes() + protocol_token(*a));
    }
}

impl Addresses {
    /// The canonical wire text of this address model, as bytes.
    pub fn to_bytes(&self) -> (r: Vec<u8>)
        ensures
            r@ == format_bytes(*self),
    {
        let mut v: Vec<u8> = Vec::new();
        push_prefix_and_token(&mut v, self);
        match self {
            Addresses::Unknown => {},
            Addresses::Tcp4(ip) => {
                v.push(SPACE);
                push_ipv4(&mut v, &ip.source_address);
                v.push(SPACE);
                push_ipv4(&mut v, &ip.destination_address);
                v.push(SPACE);
                push_dec(&mut v, ip.source_port);
                v.push(SPACE);
                push_dec(&mut v, ip.destination_port);
            },
            Addresses::Tcp6(ip) => {
                v.push(SPACE);
                push_ipv6(&mut v, &ip.source_address);
                v.push(SPACE);
                push_ipv6(&mut v, &ip.destination_address);
                v.push(SPACE);
                push_dec(&mut v, ip.source_port);
                v.push(SPACE);
                push_dec(&mut v, ip.destination_port);
            },
        }
        v.push(CR);
        v.push(LF);
        proof {
            assert(v@ =~= format_bytes(*self));
        }
        v
    }

    /// The canonical wire text of this address model.
    pub fn to_text(&self) -> (r: String)
        ensures
            vstd::utf8::encode_utf8(r@) == format_bytes(*self),
    {
        let v = self.to_bytes();
        proof {
            lemma_format_content(*self);
            assert forall|j: int| 0 <= j < v@.len() implies vstd::utf8::is_leading_byte_width_1(
                #[trigger] v@[j],
            ) by {
                let c = format_content(*self);
                if j < c.len() {
                    assert(v@[j] == c[j]);
                    assert(bytes_ascii(c[j]));
                } else {
                    assert(v@[j] == crlf_bytes()[j - c.len()]);
                }
            }
            assert(v@.subrange(0, 0) =~= Seq::<u8>::empty());
            assert(vstd::utf8::partial_valid_utf8(v@, 0));
            vstd::utf8::partial_valid_utf8_extend_ascii_block(v@, 0, v@.len() as int);
            assert(v@.subrange(0, v@.len() as int) =~= v@);
            assert(vstd::utf8::valid_utf8(v@));
        }
        let s = bytes_as_str(v.as_slice());
        match s {
            Some(t) => t.to_owned(),
            None => {
                proof {
                    assert(false);
                }
                String::new()
            },
        }
    }
}

} // verus!
