//! The IPv6 address model and its strict text syntax: colon-separated
//! groups of one to four hexadecimal digits, either eight groups in full or
//! with one double-colon standing for a run of zero groups.

use vstd::prelude::*;
use vstd::slice::slice_subrange;

use crate::text::{
    all_hex_digits, find_byte, find_byte_exec, find_pair, find_pair_exec, hex_rep, hex_val,
    is_hex_digit, lemma_find_byte, lemma_find_byte_is, lemma_find_byte_none, lemma_find_pair,
    lemma_find_pair_none, lemma_hex_rep, lemma_hex_val_bound, pair_at, COLON,
};

verus! {

/// An IPv6 address as eight 16-bit groups, most significant first.
#[derive(Clone, Copy, Debug, PartialEq, Eq, Structural)]
pub struct Ipv6Address {
    pub g0: u16,
    pub g1: u16,
    pub g2: u16,
    pub g3: u16,
    pub g4: u16,
    pub g5: u16,
    pub g6: u16,
    pub g7: u16,
}

impl View for Ipv6Address {
    type V = Seq<u16>;

    open spec fn view(&self) -> Seq<u16> {
        seq![self.g0, self.g1, self.g2, self.g3, self.g4, self.g5, self.g6, self.g7]
    }
}

impl Ipv6Address {
    /// Builds an address from its eight groups, most significant first.
    pub fn new(g0: u16, g1: u16, g2: u16, g3: u16, g4: u16, g5: u16, g6: u16, g7: u16) -> (r: Self)
        ensures
            r@ == seq![g0, g1, g2, g3, g4, g5, g6, g7],
    {
        Ipv6Address { g0, g1, g2, g3, g4, g5, g6, g7 }
    }
}

/// True when the bytes form one valid textual group: one to four
/// hexadecimal digits of either case.
pub open spec fn valid_group(s: Seq<u8>) -> bool {
    &&& 1 <= s.len() <= 4
    &&& all_hex_digits(s)
}

/// The values of the colon-separated group list the bytes spell, if every
/// group is valid; the empty text spells the empty list.
pub open spec fn group_list(s: Seq<u8>) -> Option<Seq<u16>>
    decreases s.len(),
{
    if s.len() == 0 {
        Some(Seq::empty())
    } else {
        match find_byte(s, COLON) {
            None => if valid_group(s) {
                Some(seq![hex_val(s) as u16])
            } else {
                None
            },
            Some(i) => if 0 <= i && i + 1 < s.len() && valid_group(s.subrange(0, i)) {
                match group_list(s.subrange(i + 1, s.len() as int)) {
                    Some(r) => Some(seq![hex_val(s.subrange(0, i)) as u16] + r),
                    None => None,
                }
            } else {
                None
            },
        }
    }
}

/// A run of zero-valued groups.
pub open spec fn zero_groups(k: nat) -> Seq<u16> {
    Seq::new(k, |j: int| 0u16)
}

/// The eight groups spelled by a left part, an elided zero run, and a
/// right part.
pub open spec fn filled_groups(lg: Seq<u16>, rg: Seq<u16>) -> Seq<u16>
    recommends
        lg.len() + rg.len() <= 7,
{
    lg + zero_groups((8 - lg.len() - rg.len()) as nat) + rg
}

/// The address whose groups are the eight values given.
pub open spec fn from_groups(g: Seq<u16>) -> Ipv6Address
    recommends
        g.len() == 8,
{
    Ipv6Address {
        g0: g[0],
        g1: g[1],
        g2: g[2],
        g3: g[3],
        g4: g[4],
        g5: g[5],
        g6: g[6],
        g7: g[7],
    }
}

/// How an IPv6 address field is read: eight groups in full, or a single
/// double-colon standing for at least one zero group.
pub open spec fn parse_ipv6_model(s: Seq<u8>) -> Option<Ipv6Address> {
    match find_pair(s, COLON, COLON) {
        None => match group_list(s) {
            Some(g) => if g.len() == 8 {
                Some(from_groups(g))
            } else {
                None
            },
            None => None,
        },
        Some(i) => if 0 <= i && i + 2 <= s.len() {
            match group_list(s.subrange(0, i)) {
                Some(lg) => match group_list(s.subrange(i + 2, s.len() as int)) {
                    Some(rg) => if lg.len() + rg.len() <= 7 {
                        Some(from_groups(filled_groups(lg, rg)))
                    } else {
                        None
                    },
                    None => None,
                },
                None => None,
            }
        } else {
            None
        },
    }
}

/// The canonical text of a list of groups: minimal lowercase hexadecimal
/// renderings joined by colons.
pub open spec fn groups_text(gs: Seq<u16>) -> Seq<u8>
    decreases gs.len(),
{
    if gs.len() == 0 {
        Seq::empty()
    } else if gs.len() == 1 {
        hex_rep(gs[0] as nat)
    } else {
        hex_rep(gs[0] as nat) + seq![COLON] + groups_text(gs.drop_first())
    }
}

/// The canonical text of an IPv6 address: all eight groups, no elision.
pub open spec fn ipv6_text(a: Ipv6Address) -> Seq<u8> {
    groups_text(a@)
}

/// The canonical group text reads back to the groups it renders, consists
/// only of hexadecimal digits and single colons, and starts with a digit.
pub proof fn lemma_groups_text(gs: Seq<u16>)
    requires
        gs.len() >= 1,
    ensures
        group_list(groups_text(gs)) == Some(gs),
        groups_text(gs).len() >= 1,
        groups_text(gs).len() <= 5 * gs.len() - 1,
        forall|j: int|
            0 <= j < groups_text(gs).len() ==> is_hex_digit(#[trigger] groups_text(gs)[j])
                || groups_text(gs)[j] == COLON,
        is_hex_digit(groups_text(gs)[0]),
        forall|j: int| !pair_at(groups_text(gs), j, COLON, COLON),
    decreases gs.len(),
{
    let t = groups_text(gs);
    lemma_hex_rep(gs[0] as nat);
    let head = hex_rep(gs[0] as nat);
    if gs.len() == 1 {
        assert(forall|j: int| 0 <= j < head.len() ==> #[trigger] head[j] != COLON);
        lemma_find_byte_none(head, COLON);
        assert(valid_group(head));
        assert(seq![hex_val(head) as u16] =~= gs);
        assert forall|j: int| !pair_at(t, j, COLON, COLON) by {
            if 0 <= j && j + 2 <= t.len() {
                assert(is_hex_digit(t[j]));
            }
        }
    } else {
        lemma_groups_text(gs.drop_first());
        let rest = groups_text(gs.drop_first());
        assert(t =~= head + seq![COLON] + rest);
        let h = head.len() as int;
        assert(t[h] == COLON);
        assert(forall|j: int| 0 <= j < h ==> #[trigger] t[j] == head[j]);
        assert(forall|j: int| 0 <= j < h ==> #[trigger] t[j] != COLON);
        lemma_find_byte_is(t, COLON, h);
        assert(t.subrange(0, h) =~= head);
        assert(t.subrange(h + 1, t.len() as int) =~= rest);
        assert(valid_group(head));
        assert(rest.len() >= 1);
        assert(h + 1 < t.len());
        assert(seq![hex_val(head) as u16] + gs.drop_first() =~= gs);
        assert(forall|j: int| h + 1 <= j < t.len() ==> #[trigger] t[j] == rest[j - h - 1]);
        assert forall|j: int| !pair_at(t, j, COLON, COLON) by {
            if 0 <= j && j + 2 <= t.len() {
                if j < h {
                    assert(is_hex_digit(t[j]));
                } else if j == h {
                    assert(t[j + 1] == rest[0] && is_hex_digit(rest[0]));
                } else {
                    assert(!pair_at(rest, j - h - 1, COLON, COLON));
                }
            }
        }
    }
}

/// The canonical IPv6 text parses back to the address it renders.
pub proof fn lemma_ipv6_roundtrip(a: Ipv6Address)
    ensures
        parse_ipv6_model(ipv6_text(a)) == Some(a),
        1 <= ipv6_text(a).len() <= 39,
        forall|j: int|
            0 <= j < ipv6_text(a).len() ==> is_hex_digit(#[trigger] ipv6_text(a)[j]) || ipv6_text(
                a,
            )[j] == COLON,
        is_hex_digit(ipv6_text(a)[0]),
{
    lemma_groups_text(a@);
    lemma_find_pair_none(ipv6_text(a), COLON, COLON);
    let g = a@;
    assert(parse_ipv6_model(ipv6_text(a)) == Some(from_groups(g)));
    assert(from_groups(g) == a);
}

/// Reads one textual group: one to four hexadecimal digits of either case.
fn parse_group(t: &[u8]) -> (r: Option<u16>)
    ensures
        match r {
            Some(v) => valid_group(t@) && v == hex_val(t@),
            None => !valid_group(t@),
        },
{
    let n = t.len();
    if n == 0 || n > 4 {
        return None;
    }
    let mut i: usize = 0;
    let mut val: u32 = 0;
    while i < n
        invariant
            0 <= i <= n == t@.len(),
            n <= 4,
            all_hex_digits(t@.subrange(0, i as int)),
            val == hex_val(t@.subrange(0, i as int)),
            val <= 0xffff,
        decreases n - i,
    {
        let b = t[i];
        let d: u32 = if b >= 0x30 && b <= 0x39 {
            (b - 0x30) as u32
        } else if b >= 0x61 && b <= 0x66 {
            (b - 0x61 + 10) as u32
        } else if b >= 0x41 && b <= 0x46 {
            (b - 0x41 + 10) as u32
        } else {
            return None;
        };
        proof {
            assert(t@.subrange(0, i + 1).drop_last() =~= t@.subrange(0, i as int));
            assert(t@.subrange(0, i + 1).last() == t@[i as int]);
            lemma_hex_val_bound(t@.subrange(0, i + 1));
        }
        val = val * 16 + d;
        i = i + 1;
    }
    proof {
        assert(t@.subrange(0, n as int) =~= t@);
    }
    Some(val as u16)
}

/// Reads a colon-separated list of valid groups; the empty slice reads as
/// the empty list.
fn group_list_exec(s: &[u8]) -> (r: Option<Vec<u16>>)
    ensures
        match r {
            Some(v) => group_list(s@) == Some(v@),
            None => group_list(s@) is None,
        },
{
    let n = s.len();
    let mut start: usize = 0;
    let mut acc: Vec<u16> = Vec::new();
    proof {
        assert(s@.subrange(0, n as int) =~= s@);
        match group_list(s@) {
            Some(rr) => {
                assert(acc@ + rr =~= rr);
            },
            None => {},
        }
    }
    loop
        invariant
            0 <= start <= n == s@.len(),
            start > 0 ==> start < n,
            match group_list(s@.subrange(start as int, n as int)) {
                Some(rr) => group_list(s@) == Some(acc@ + rr),
                None => group_list(s@) is None,
            },
        decreases n - start,
    {
        let rem = slice_subrange(s, start, n);
        if rem.len() == 0 {
            proof {
                assert(group_list(rem@) == Some(Seq::<u16>::empty()));
                assert(acc@ + Seq::<u16>::empty() =~= acc@);
            }
            return Some(acc);
        }
        match find_byte_exec(rem, COLON) {
            None => {
                match parse_group(rem) {
                    None => {
                        return None;
                    },
                    Some(v) => {
                        acc.push(v);
                        proof {
                            assert(group_list(rem@) == Some(seq![v]));
                            assert(acc@ =~= acc@.subrange(0, acc@.len() - 1) + seq![v]);
                        }
                        return Some(acc);
                    },
                }
            },
            Some(i) => {
                proof {
                    lemma_find_byte(rem@, COLON);
                }
                if i + 1 == rem.len() {
                    return None;
                }
                let head = slice_subrange(rem, 0, i);
                match parse_group(head) {
                    None => {
                        return None;
                    },
                    Some(v) => {
                        acc.push(v);
                        proof {
                            assert(rem@.subrange(i + 1, rem@.len() as int) =~= s@.subrange(
                                start + i + 1,
                                n as int,
                            ));
                            match group_list(s@.subrange(start + i + 1, n as int)) {
                                Some(rr) => {
                                    assert(group_list(rem@) == Some(seq![v] + rr));
                                    assert(acc@ + rr =~= acc@.subrange(0, acc@.len() - 1) + (
                                    seq![v] + rr));
                                },
                                None => {
                                    assert(group_list(rem@) is None);
                                },
                            }
                        }
                        start = start + i + 1;
                    },
                }
            },
        }
    }
}

/// The group of `filled_groups(lg, rg)` at index `k`.
fn filled_at(lg: &Vec<u16>, rg: &Vec<u16>, k: usize) -> (r: u16)
    requires
        lg@.len() + rg@.len() <= 7,
        k < 8,
    ensures
        r == filled_groups(lg@, rg@)[k as int],
{
    let l = lg.len();
    let z = 8 - rg.len();
    if k < l {
        lg[k]
    } else if k < z {
        0
    } else {
        rg[k - z]
    }
}

/// Reads an IPv6 address field: eight colon-separated groups, or two parts
/// joined by a double-colon that stands for the elided zero groups.
pub fn parse_ipv6(s: &[u8]) -> (r: Option<Ipv6Address>)
    ensures
        r == parse_ipv6_model(s@),
{
    let n = s.len();
    match find_pair_exec(s, COLON, COLON) {
        None => {
            match group_list_exec(s) {
                None => None,
                Some(g) => {
                    if g.len() == 8 {
                        let a = Ipv6Address::new(g[0], g[1], g[2], g[3], g[4], g[5], g[6], g[7]);
                        proof {
                            assert(g@ =~= seq![
                                g@[0],
                                g@[1],
                                g@[2],
                                g@[3],
                                g@[4],
                                g@[5],
                                g@[6],
                                g@[7],
                            ]);
                        }
                        Some(a)
                    } else {
                        None
                    }
                },
            }
        },
        Some(i) => {
            proof {
                lemma_find_pair(s@, COLON, COLON);
            }
            let left = slice_subrange(s, 0, i);
            let right = slice_subrange(s, i + 2, n);
            match group_list_exec(left) {
                None => None,
                Some(lg) => {
                    match group_list_exec(right) {
                        None => None,
                        Some(rg) => {
                            if lg.len() <= 7 && rg.len() <= 7 - lg.len() {
                                let a = Ipv6Address::new(
                                    filled_at(&lg, &rg, 0),
                                    filled_at(&lg, &rg, 1),
                                    filled_at(&lg, &rg, 2),
                                    filled_at(&lg, &rg, 3),
                                    filled_at(&lg, &rg, 4),
                                    filled_at(&lg, &rg, 5),
                                    filled_at(&lg, &rg, 6),
                                    filled_at(&lg, &rg, 7),
                                );
                                proof {
                                    let f = filled_groups(lg@, rg@);
                                    assert(f.len() == 8);
                                    assert(a@ =~= f);
                                    assert(a == from_groups(f));
                                }
                                Some(a)
                            } else {
                                None
                            }
                        },
                    }
                },
            }
        },
    }
}

} // verus!
