//! Byte-level building blocks of the header grammar: ASCII digit and
//! hexadecimal-digit classification, decimal values and canonical decimal
//! renderings, first-occurrence searches, and space-delimited tokens.

use vstd::prelude::*;
use vstd::string::StringSliceAdditionalSpecFns;

use crate::error::PortError;

verus! {

/// Relies on `core::str::from_utf8`: it succeeds exactly when the bytes
/// are valid UTF-8, and the returned slice views those same bytes.
#[verifier::external_body]
pub(crate) fn bytes_as_str(v: &[u8]) -> (r: Option<&str>)
    ensures
        r is Some <==> vstd::utf8::valid_utf8(v@),
        r matches Some(s) ==> s.spec_bytes() == v@,
{
    core::str::from_utf8(v).ok()
}

/// ASCII space, the separator of the header parts.
pub const SPACE: u8 = 0x20;

/// ASCII carriage return, first byte of the line ending.
pub const CR: u8 = 0x0d;

/// ASCII line feed, second byte of the line ending.
pub const LF: u8 = 0x0a;

/// ASCII full stop, the separator of IPv4 octets.
pub const DOT: u8 = 0x2e;

/// ASCII colon, the separator of IPv6 groups.
pub const COLON: u8 = 0x3a;

/// True when the byte lies in the ASCII range.
pub open spec fn bytes_ascii(b: u8) -> bool {
    b < 0x80
}

/// True when the byte is an ASCII decimal digit.
pub open spec fn is_digit(b: u8) -> bool {
    0x30 <= b <= 0x39
}

/// The numeric value of an ASCII decimal digit.
pub open spec fn digit_val(b: u8) -> nat
    recommends
        is_digit(b),
{
    (b - 0x30) as nat
}

/// True when every byte of the sequence is an ASCII decimal digit.
pub open spec fn all_digits(s: Seq<u8>) -> bool {
    forall|j: int| 0 <= j < s.len() ==> is_digit(#[trigger] s[j])
}

/// The value of a sequence of ASCII decimal digits, most significant first.
pub open spec fn dec_val(s: Seq<u8>) -> nat
    recommends
        all_digits(s),
    decreases s.len(),
{
    if s.len() == 0 {
        0
    } else {
        dec_val(s.drop_last()) * 10 + digit_val(s.last())
    }
}

/// The canonical decimal rendering of a number: minimal digits, no sign.
pub open spec fn dec_rep(n: nat) -> Seq<u8>
    decreases n,
{
    if n < 10 {
        seq![(0x30 + n) as u8]
    } else {
        dec_rep(n / 10).push((0x30 + n % 10) as u8)
    }
}

/// True when the byte is an ASCII hexadecimal digit of either case.
pub open spec fn is_hex_digit(b: u8) -> bool {
    is_digit(b) || 0x61 <= b <= 0x66 || 0x41 <= b <= 0x46
}

/// The numeric value of an ASCII hexadecimal digit of either case.
pub open spec fn hex_digit_val(b: u8) -> nat
    recommends
        is_hex_digit(b),
{
    if is_digit(b) {
        digit_val(b)
    } else if 0x61 <= b <= 0x66 {
        (b - 0x61 + 10) as nat
    } else {
        (b - 0x41 + 10) as nat
    }
}

/// True when every byte of the sequence is an ASCII hexadecimal digit.
pub open spec fn all_hex_digits(s: Seq<u8>) -> bool {
    forall|j: int| 0 <= j < s.len() ==> is_hex_digit(#[trigger] s[j])
}

/// The value of a sequence of ASCII hexadecimal digits, most significant
/// first.
pub open spec fn hex_val(s: Seq<u8>) -> nat
    recommends
        all_hex_digits(s),
    decreases s.len(),
{
    if s.len() == 0 {
        0
    } else {
        hex_val(s.drop_last()) * 16 + hex_digit_val(s.last())
    }
}

/// The canonical hexadecimal rendering of a number: minimal lowercase
/// digits.
pub open spec fn hex_rep(n: nat) -> Seq<u8>
    decreases n,
{
    if n < 16 {
        seq![hex_digit_rep(n)]
    } else {
        hex_rep(n / 16).push(hex_digit_rep(n % 16))
    }
}

/// The lowercase ASCII rendering of a single hexadecimal digit value.
pub open spec fn hex_digit_rep(d: nat) -> u8
    recommends
        d < 16,
{
    if d < 10 {
        (0x30 + d) as u8
    } else {
        (0x61 + (d - 10)) as u8
    }
}

/// The canonical decimal rendering consists of digits, has minimal length,
/// no leading zero, and reads back to the number it renders.
pub proof fn lemma_dec_rep(n: nat)
    ensures
        all_digits(dec_rep(n)),
        dec_rep(n).len() >= 1,
        dec_val(dec_rep(n)) == n,
        n >= 10 ==> dec_rep(n)[0] != 0x30,
        n < 10 ==> dec_rep(n).len() == 1,
        n < 100 ==> dec_rep(n).len() <= 2,
        n < 1000 ==> dec_rep(n).len() <= 3,
        n < 10000 ==> dec_rep(n).len() <= 4,
        n < 100000 ==> dec_rep(n).len() <= 5,
    decreases n,
{
    if n < 10 {
        let s0 = dec_rep(n);
        assert(s0.drop_last() =~= Seq::<u8>::empty());
        assert(dec_val(s0) == dec_val(s0.drop_last()) * 10 + digit_val(s0.last()));
        assert(digit_val((0x30 + n) as u8) == n);
    } else {
        lemma_dec_rep(n / 10);
        let head = dec_rep(n / 10);
        let whole = dec_rep(n);
        assert(whole == head.push((0x30 + n % 10) as u8));
        assert(whole.drop_last() =~= head);
        assert(whole[0] == head[0]);
        assert(dec_val(whole) == dec_val(head) * 10 + (n % 10));
        assert((n / 10) * 10 + n % 10 == n) by (nonlinear_arith);
    }
}

/// The canonical hexadecimal rendering consists of hexadecimal digits, has
/// minimal length, and reads back to the number it renders.
pub proof fn lemma_hex_rep(n: nat)
    ensures
        all_hex_digits(hex_rep(n)),
        hex_rep(n).len() >= 1,
        hex_val(hex_rep(n)) == n,
        n < 16 ==> hex_rep(n).len() == 1,
        n < 0x100 ==> hex_rep(n).len() <= 2,
        n < 0x1000 ==> hex_rep(n).len() <= 3,
        n < 0x10000 ==> hex_rep(n).len() <= 4,
    decreases n,
{
    if n < 16 {
        let s0 = hex_rep(n);
        assert(s0.drop_last() =~= Seq::<u8>::empty());
        assert(hex_val(s0) == hex_val(s0.drop_last()) * 16 + hex_digit_val(s0.last()));
        assert(hex_digit_val(hex_digit_rep(n)) == n);
    } else {
        lemma_hex_rep(n / 16);
        let head = hex_rep(n / 16);
        let whole = hex_rep(n);
        assert(whole == head.push(hex_digit_rep(n % 16)));
        assert(whole.drop_last() =~= head);
        assert(hex_digit_val(hex_digit_rep(n % 16)) == n % 16);
        assert(hex_val(whole) == hex_val(head) * 16 + (n % 16));
        assert((n / 16) * 16 + n % 16 == n) by (nonlinear_arith);
    }
}

/// A run of at most three decimal digits stays below one thousand.
pub proof fn lemma_dec_val_bound(s: Seq<u8>)
    requires
        all_digits(s),
    ensures
        s.len() == 0 ==> dec_val(s) == 0,
        s.len() <= 1 ==> dec_val(s) <= 9,
        s.len() <= 2 ==> dec_val(s) <= 99,
        s.len() <= 3 ==> dec_val(s) <= 999,
    decreases s.len(),
{
    if s.len() > 0 {
        assert(all_digits(s.drop_last()));
        lemma_dec_val_bound(s.drop_last());
        assert(digit_val(s.last()) <= 9);
    }
}

/// A run of at most four hexadecimal digits fits in 16 bits.
pub proof fn lemma_hex_val_bound(s: Seq<u8>)
    requires
        all_hex_digits(s),
    ensures
        s.len() == 0 ==> hex_val(s) == 0,
        s.len() <= 1 ==> hex_val(s) <= 0xf,
        s.len() <= 2 ==> hex_val(s) <= 0xff,
        s.len() <= 3 ==> hex_val(s) <= 0xfff,
        s.len() <= 4 ==> hex_val(s) <= 0xffff,
    decreases s.len(),
{
    if s.len() > 0 {
        assert(all_hex_digits(s.drop_last()));
        lemma_hex_val_bound(s.drop_last());
        assert(hex_digit_val(s.last()) <= 15);
    }
}

/// The index of the first occurrence of `b` in `s`, if any.
pub open spec fn find_byte(s: Seq<u8>, b: u8) -> Option<int>
    decreases s.len(),
{
    if s.len() == 0 {
        None
    } else if s[0] == b {
        Some(0)
    } else {
        match find_byte(s.drop_first(), b) {
            Some(i) => Some(i + 1),
            None => None,
        }
    }
}

/// The index of the first occurrence of the two-byte sequence `a b` in
/// `s`, if any.
pub open spec fn find_pair(s: Seq<u8>, a: u8, b: u8) -> Option<int>
    decreases s.len(),
{
    if s.len() < 2 {
        None
    } else if s[0] == a && s[1] == b {
        Some(0)
    } else {
        match find_pair(s.drop_first(), a, b) {
            Some(i) => Some(i + 1),
            None => None,
        }
    }
}

/// What `find_byte` returns: the least index holding `b`, or nothing when
/// `b` does not occur.
pub proof fn lemma_find_byte(s: Seq<u8>, b: u8)
    ensures
        match find_byte(s, b) {
            Some(i) => 0 <= i < s.len() && s[i] == b && (forall|j: int| 0 <= j < i ==> s[j] != b),
            None => forall|j: int| 0 <= j < s.len() ==> s[j] != b,
        },
    decreases s.len(),
{
    if s.len() == 0 {
    } else if s[0] == b {
    } else {
        let t = s.drop_first();
        lemma_find_byte(t, b);
        assert(forall|j: int| 0 <= j < t.len() ==> #[trigger] t[j] == s[j + 1]);
        match find_byte(t, b) {
            Some(i) => {
                assert forall|j: int| 0 <= j < i + 1 implies s[j] != b by {
                    if j > 0 {
                        assert(t[j - 1] != b);
                    }
                }
            },
            None => {
                assert forall|j: int| 0 <= j < s.len() implies s[j] != b by {
                    if j > 0 {
                        assert(t[j - 1] != b);
                    }
                }
            },
        }
    }
}

/// The converse: an occurrence that nothing precedes is what `find_byte`
/// returns.
pub proof fn lemma_find_byte_is(s: Seq<u8>, b: u8, i: int)
    requires
        0 <= i < s.len(),
        s[i] == b,
        forall|j: int| 0 <= j < i ==> s[j] != b,
    ensures
        find_byte(s, b) == Some(i),
    decreases s.len(),
{
    if i == 0 {
    } else {
        lemma_find_byte_is(s.drop_first(), b, i - 1);
    }
}

/// `b` absent everywhere means `find_byte` returns nothing.
pub proof fn lemma_find_byte_none(s: Seq<u8>, b: u8)
    requires
        forall|j: int| 0 <= j < s.len() ==> s[j] != b,
    ensures
        find_byte(s, b) is None,
    decreases s.len(),
{
    if s.len() > 0 {
        lemma_find_byte_none(s.drop_first(), b);
    }
}

/// True when the two-byte sequence `a b` stands at index `i` of `s`.
pub open spec fn pair_at(s: Seq<u8>, i: int, a: u8, b: u8) -> bool {
    0 <= i && i + 2 <= s.len() && s[i] == a && s[i + 1] == b
}

/// What `find_pair` returns: the least index where the pair stands, or
/// nothing when it does not occur.
pub proof fn lemma_find_pair(s: Seq<u8>, a: u8, b: u8)
    ensures
        match find_pair(s, a, b) {
            Some(i) => pair_at(s, i, a, b) && (forall|j: int| 0 <= j < i ==> !pair_at(s, j, a, b)),
            None => forall|j: int| !pair_at(s, j, a, b),
        },
    decreases s.len(),
{
    if s.len() < 2 {
    } else if s[0] == a && s[1] == b {
    } else {
        let t = s.drop_first();
        lemma_find_pair(t, a, b);
        assert(forall|j: int| 0 <= j < t.len() ==> #[trigger] t[j] == s[j + 1]);
        match find_pair(t, a, b) {
            Some(i) => {
                assert(pair_at(s, i + 1, a, b));
                assert forall|j: int| 0 <= j < i + 1 implies !pair_at(s, j, a, b) by {
                    if j > 0 {
                        assert(!pair_at(t, j - 1, a, b));
                    }
                }
            },
            None => {
                assert forall|j: int| !pair_at(s, j, a, b) by {
                    if j > 0 {
                        assert(!pair_at(t, j - 1, a, b));
                    }
                }
            },
        }
    }
}

/// The converse: a pair that no pair precedes is what `find_pair` returns.
pub proof fn lemma_find_pair_is(s: Seq<u8>, a: u8, b: u8, i: int)
    requires
        pair_at(s, i, a, b),
        forall|j: int| 0 <= j < i ==> !pair_at(s, j, a, b),
    ensures
        find_pair(s, a, b) == Some(i),
    decreases s.len(),
{
    if i == 0 {
    } else {
        let t = s.drop_first();
        assert(forall|j: int| 0 <= j < t.len() ==> #[trigger] t[j] == s[j + 1]);
        assert(pair_at(t, i - 1, a, b));
        assert forall|j: int| 0 <= j < i - 1 implies !pair_at(t, j, a, b) by {
            assert(!pair_at(s, j + 1, a, b));
        }
        lemma_find_pair_is(t, a, b, i - 1);
        assert(!pair_at(s, 0, a, b));
    }
}

/// The pair absent everywhere means `find_pair` returns nothing.
pub proof fn lemma_find_pair_none(s: Seq<u8>, a: u8, b: u8)
    requires
        forall|j: int| !pair_at(s, j, a, b),
    ensures
        find_pair(s, a, b) is None,
    decreases s.len(),
{
    if s.len() >= 2 {
        let t = s.drop_first();
        assert(forall|j: int| 0 <= j < t.len() ==> #[trigger] t[j] == s[j + 1]);
        assert forall|j: int| !pair_at(t, j, a, b) by {
            if 0 <= j && j + 2 <= t.len() {
                assert(!pair_at(s, j + 1, a, b));
            }
        }
        lemma_find_pair_none(t, a, b);
        assert(!pair_at(s, 0, a, b));
    }
}

/// Where the space-delimited token that starts the sequence ends: the index
/// of the first space, or the whole length when there is none.
pub open spec fn token_end(s: Seq<u8>) -> int {
    match find_byte(s, SPACE) {
        Some(i) => i,
        None => s.len() as int,
    }
}

/// The space-delimited token that starts the sequence.
pub open spec fn field_of(s: Seq<u8>) -> Seq<u8> {
    s.subrange(0, token_end(s))
}

/// What follows the first space of the sequence, if a space occurs.
pub open spec fn rest_of(s: Seq<u8>) -> Option<Seq<u8>> {
    if 0 <= token_end(s) < s.len() {
        Some(s.subrange(token_end(s) + 1, s.len() as int))
    } else {
        None
    }
}

/// `token_end` lies within the sequence.
pub proof fn lemma_token_end(s: Seq<u8>)
    ensures
        0 <= token_end(s) <= s.len(),
        forall|j: int| 0 <= j < token_end(s) ==> s[j] != SPACE,
        token_end(s) < s.len() ==> s[token_end(s)] == SPACE,
{
    lemma_find_byte(s, SPACE);
}

/// How a port field is read: a non-empty run of decimal digits whose value
/// fits in 16 bits; an empty field is reported without an underlying error.
pub open spec fn parse_port_model(s: Seq<u8>) -> Result<u16, Option<PortError>> {
    if s.len() == 0 {
        Err(None)
    } else if !all_digits(s) {
        Err(Some(PortError::InvalidDigit))
    } else if dec_val(s) > 0xffff {
        Err(Some(PortError::Overflow))
    } else {
        Ok(dec_val(s) as u16)
    }
}

/// Finds the first occurrence of `b` in the slice.
pub fn find_byte_exec(s: &[u8], b: u8) -> (r: Option<usize>)
    ensures
        match r {
            Some(i) => find_byte(s@, b) == Some(i as int),
            None => find_byte(s@, b) is None,
        },
{
    let n = s.len();
    let mut i: usize = 0;
    while i < n
        invariant
            0 <= i <= n == s@.len(),
            forall|j: int| 0 <= j < i ==> s@[j] != b,
        decreases n - i,
    {
        if s[i] == b {
            proof {
                lemma_find_byte_is(s@, b, i as int);
            }
            return Some(i);
        }
        i = i + 1;
    }
    proof {
        lemma_find_byte_none(s@, b);
    }
    None
}

/// Finds the first occurrence of the two-byte sequence `a b` in the slice.
pub fn find_pair_exec(s: &[u8], a: u8, b: u8) -> (r: Option<usize>)
    ensures
        match r {
            Some(i) => find_pair(s@, a, b) == Some(i as int),
            None => find_pair(s@, a, b) is None,
        },
{
    let n = s.len();
    if n < 2 {
        proof {
            lemma_find_pair_none(s@, a, b);
        }
        return None;
    }
    let mut i: usize = 0;
    while i + 1 < n
        invariant
            0 <= i,
            i + 1 <= n == s@.len(),
            forall|j: int| 0 <= j < i ==> !pair_at(s@, j, a, b),
        decreases n - i,
    {
        if s[i] == a && s[i + 1] == b {
            proof {
                lemma_find_pair_is(s@, a, b, i as int);
            }
            return Some(i);
        }
        i = i + 1;
    }
    proof {
        assert(forall|j: int| !pair_at(s@, j, a, b));
        lemma_find_pair_none(s@, a, b);
    }
    None
}

/// Reads a port field: a non-empty, unsigned, decimal 16-bit number.
pub fn parse_port(s: &[u8]) -> (r: Result<u16, Option<PortError>>)
    ensures
        r == parse_port_model(s@),
{
    let n = s.len();
    if n == 0 {
        return Err(None);
    }
    let mut i: usize = 0;
    let mut val: u32 = 0;
    while i < n
        invariant
            0 <= i <= n == s@.len(),
            all_digits(s@.subrange(0, i as int)),
            dec_val(s@.subrange(0, i as int)) <= 0xffff ==> val == dec_val(
                s@.subrange(0, i as int),
            ),
            dec_val(s@.subrange(0, i as int)) > 0xffff ==> val == 0x10000,
            val <= 0x10000,
        decreases n - i,
    {
        let b = s[i];
        if b < 0x30 || b > 0x39 {
            return Err(Some(PortError::InvalidDigit));
        }
        proof {
            assert(s@.subrange(0, i + 1).drop_last() =~= s@.subrange(0, i as int));
            assert(s@.subrange(0, i + 1).last() == s@[i as int]);
        }
        let d: u32 = (b - 0x30) as u32;
        let grown: u32 = val * 10 + d;
        if grown > 0xffff {
            val = 0x10000;
        } else {
            val = grown;
        }
        i = i + 1;
    }
    proof {
        assert(s@.subrange(0, n as int) =~= s@);
    }
    if val > 0xffff {
        Err(Some(PortError::Overflow))
    } else {
        Ok(val as u16)
    }
}

} // verus!
