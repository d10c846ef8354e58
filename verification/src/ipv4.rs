//! The IPv4 address model and its strict dotted-decimal text syntax:
//! exactly four octets, each a decimal number up to 255 with no leading
//! zero.

use vstd::prelude::*;
use vstd::slice::slice_subrange;

use crate::text::{
    all_digits, dec_rep, dec_val, find_byte, find_byte_exec, is_digit, lemma_dec_rep,
    lemma_dec_val_bound, lemma_find_byte, lemma_find_byte_is, lemma_find_byte_none, COLON, DOT,
};

verus! {

/// An IPv4 address as four octets, most significant first.
#[derive(Clone, Copy, Debug, PartialEq, Eq, Structural)]
pub struct Ipv4Address {
    pub o0: u8,
    pub o1: u8,
    pub o2: u8,
    pub o3: u8,
}

impl View for Ipv4Address {
    type V = Seq<u8>;

    open spec fn view(&self) -> Seq<u8> {
        seq![self.o0, self.o1, self.o2, self.o3]
    }
}

impl Ipv4Address {
    /// Builds an address from its four octets, most significant first.
    pub fn new(o0: u8, o1: u8, o2: u8, o3: u8) -> (r: Self)
        ensures
            r@ == seq![o0, o1, o2, o3],
    {
        Ipv4Address { o0, o1, o2, o3 }
    }
}

/// True when the bytes form one valid textual octet: one to three decimal
/// digits, no leading zero, value at most 255.
pub open spec fn valid_octet(s: Seq<u8>) -> bool {
    &&& 1 <= s.len() <= 3
    &&& all_digits(s)
    &&& (s.len() > 1 ==> s[0] != 0x30)
    &&& dec_val(s) <= 255
}

/// The values of the full-stop-separated octet list the bytes spell, if
/// every octet is valid.
pub open spec fn octet_list(s: Seq<u8>) -> Option<Seq<u8>>
    decreases s.len(),
{
    match find_byte(s, DOT) {
        None => if valid_octet(s) {
            Some(seq![dec_val(s) as u8])
        } else {
            None
        },
        Some(i) => if 0 <= i && i < s.len() && valid_octet(s.subrange(0, i)) {
            match octet_list(s.subrange(i + 1, s.len() as int)) {
                Some(r) => Some(seq![dec_val(s.subrange(0, i)) as u8] + r),
                None => None,
            }
        } else {
            None
        },
    }
}

/// How an IPv4 address field is read: exactly four valid octets.
pub open spec fn parse_ipv4_model(s: Seq<u8>) -> Option<Ipv4Address> {
    match octet_list(s) {
        Some(o) => if o.len() == 4 {
            Some(Ipv4Address { o0: o[0], o1: o[1], o2: o[2], o3: o[3] })
        } else {
            None
        },
        None => None,
    }
}

/// The canonical text of a list of octets: minimal decimal renderings
/// joined by full stops.
pub open spec fn octets_text(os: Seq<u8>) -> Seq<u8>
    decreases os.len(),
{
    if os.len() == 0 {
        Seq::empty()
    } else if os.len() == 1 {
        dec_rep(os[0] as nat)
    } else {
        dec_rep(os[0] as nat) + seq![DOT] + octets_text(os.drop_first())
    }
}

/// The canonical text of an IPv4 address.
pub open spec fn ipv4_text(a: Ipv4Address) -> Seq<u8> {
    octets_text(a@)
}

/// The canonical octet text reads back to the octets it renders, consists
/// only of digits and full stops, and starts with a digit.
pub proof fn lemma_octets_text(os: Seq<u8>)
    requires
        os.len() >= 1,
    ensures
        octet_list(octets_text(os)) == Some(os),
        octets_text(os).len() >= 1,
        octets_text(os).len() <= 4 * os.len() - 1,
        forall|j: int|
            0 <= j < octets_text(os).len() ==> is_digit(#[trigger] octets_text(os)[j])
                || octets_text(os)[j] == DOT,
        is_digit(octets_text(os)[0]),
    decreases os.len(),
{
    let t = octets_text(os);
    lemma_dec_rep(os[0] as nat);
    let head = dec_rep(os[0] as nat);
    if os.len() == 1 {
        assert(forall|j: int| 0 <= j < head.len() ==> #[trigger] head[j] != DOT);
        lemma_find_byte_none(head, DOT);
        assert(valid_octet(head));
        assert(seq![dec_val(head) as u8] =~= os);
    } else {
        lemma_octets_text(os.drop_first());
        let rest = octets_text(os.drop_first());
        assert(t =~= head + seq![DOT] + rest);
        assert(t[head.len() as int] == DOT);
        assert(forall|j: int| 0 <= j < head.len() ==> #[trigger] t[j] == head[j]);
        assert(forall|j: int| 0 <= j < head.len() ==> #[trigger] t[j] != DOT);
        lemma_find_byte_is(t, DOT, head.len() as int);
        assert(t.subrange(0, head.len() as int) =~= head);
        assert(t.subrange(head.len() as int + 1, t.len() as int) =~= rest);
        assert(valid_octet(head));
        assert(seq![dec_val(head) as u8] + os.drop_first() =~= os);
        assert(forall|j: int|
            head.len() + 1 <= j < t.len() ==> #[trigger] t[j] == rest[j - head.len() - 1]);
    }
}

/// The canonical IPv4 text parses back to the address it renders.
pub proof fn lemma_ipv4_roundtrip(a: Ipv4Address)
    ensures
        parse_ipv4_model(ipv4_text(a)) == Some(a),
        1 <= ipv4_text(a).len() <= 15,
        forall|j: int|
            0 <= j < ipv4_text(a).len() ==> is_digit(#[trigger] ipv4_text(a)[j]) || ipv4_text(
                a,
            )[j] == DOT,
        is_digit(ipv4_text(a)[0]),
{
    lemma_octets_text(a@);
    let o = seq![a.o0, a.o1, a.o2, a.o3];
    assert(parse_ipv4_model(ipv4_text(a)) == Some(Ipv4Address { o0: o[0], o1: o[1], o2: o[2], o3: o[3] }));
    assert(Ipv4Address { o0: o[0], o1: o[1], o2: o[2], o3: o[3] } == a);
}

/// A field containing a colon is never a valid IPv4 address, whatever
/// stands around it.
pub proof fn lemma_ipv4_rejects_colon(s: Seq<u8>, j: int)
    requires
        0 <= j < s.len(),
        s[j] == COLON,
    ensures
        octet_list(s) is None,
        parse_ipv4_model(s) is None,
    decreases s.len(),
{
    lemma_find_byte(s, DOT);
    match find_byte(s, DOT) {
        None => {
            assert(!is_digit(COLON));
            assert(!valid_octet(s));
        },
        Some(i) => {
            if j < i {
                assert(s.subrange(0, i)[j] == COLON);
                assert(!valid_octet(s.subrange(0, i)));
            } else {
                assert(s[i] == DOT && DOT != COLON);
                assert(j > i);
                if 0 <= i && i < s.len() && valid_octet(s.subrange(0, i)) {
                    assert(s.subrange(i + 1, s.len() as int)[j - i - 1] == COLON);
                    lemma_ipv4_rejects_colon(s.subrange(i + 1, s.len() as int), j - i - 1);
                }
            }
        },
    }
}

/// Reads one textual octet: one to three decimal digits, no leading zero,
/// value at most 255.
fn parse_octet(t: &[u8]) -> (r: Option<u8>)
    ensures
        match r {
            Some(v) => valid_octet(t@) && v == dec_val(t@),
            None => !valid_octet(t@),
        },
{
    let n = t.len();
    if n == 0 || n > 3 {
        return None;
    }
    if n > 1 && t[0] == 0x30 {
        return None;
    }
    let mut i: usize = 0;
    let mut val: u32 = 0;
    while i < n
        invariant
            0 <= i <= n == t@.len(),
            n <= 3,
            all_digits(t@.subrange(0, i as int)),
            val == dec_val(t@.subrange(0, i as int)),
            val <= 999,
        decreases n - i,
    {
        let b = t[i];
        if b < 0x30 || b > 0x39 {
            return None;
        }
        proof {
            assert(t@.subrange(0, i + 1).drop_last() =~= t@.subrange(0, i as int));
            assert(t@.subrange(0, i + 1).last() == t@[i as int]);
            lemma_dec_val_bound(t@.subrange(0, i + 1));
        }
        val = val * 10 + (b - 0x30) as u32;
        i = i + 1;
    }
    proof {
        assert(t@.subrange(0, n as int) =~= t@);
    }
    if val > 255 {
        None
    } else {
        Some(val as u8)
    }
}

/// Reads an IPv4 address field: exactly four valid octets separated by
/// full stops.
pub fn parse_ipv4(s: &[u8]) -> (r: Option<Ipv4Address>)
    ensures
        r == parse_ipv4_model(s@),
{
    let n = s.len();
    let mut start: usize = 0;
    let mut acc: Vec<u8> = Vec::new();
    proof {
        assert(s@.subrange(0, n as int) =~= s@);
        match octet_list(s@) {
            Some(rr) => {
                assert(acc@ + rr =~= rr);
            },
            None => {},
        }
    }
    loop
        invariant
            0 <= start <= n == s@.len(),
            match octet_list(s@.subrange(start as int, n as int)) {
                Some(rr) => octet_list(s@) == Some(acc@ + rr),
                None => octet_list(s@) is None,
            },
        decreases n - start,
    {
        let rem = slice_subrange(s, start, n);
        match find_byte_exec(rem, DOT) {
            None => {
                match parse_octet(rem) {
                    None => {
                        return None;
                    },
                    Some(v) => {
                        acc.push(v);
                        proof {
                            assert(octet_list(rem@) == Some(seq![v]));
                            assert(acc@ =~= acc@.subrange(0, acc@.len() - 1) + seq![v]);
                        }
                        if acc.len() == 4 {
                            let a = Ipv4Address::new(acc[0], acc[1], acc[2], acc[3]);
                            proof {
                                assert(octet_list(s@) == Some(acc@));
                                assert(acc@ =~= seq![acc@[0], acc@[1], acc@[2], acc@[3]]);
                            }
                            return Some(a);
                        } else {
                            proof {
                                assert(octet_list(s@) == Some(acc@));
                            }
                            return None;
                        }
                    },
                }
            },
            Some(i) => {
                proof {
                    lemma_find_byte(rem@, DOT);
                }
                let head = slice_subrange(rem, 0, i);
                match parse_octet(head) {
                    None => {
                        return None;
                    },
                    Some(v) => {
                        acc.push(v);
                        proof {
                            assert(rem@.subrange(i + 1, rem@.len() as int) =~= s@.subrange(
                                start + i + 1,
                                n as int,
                            ));
                            match octet_list(s@.subrange(start + i + 1, n as int)) {
                                Some(rr) => {
                                    assert(octet_list(rem@) == Some(seq![v] + rr));
                                    assert(acc@ + rr =~= acc@.subrange(0, acc@.len() - 1) + (
                                    seq![v] + rr));
                                },
                                None => {
                                    assert(octet_list(rem@) is None);
                                },
                            }
                        }
                        start = start + i + 1;
                    },
                }
            },
        }
    }
}

} // verus!
