//! IPv4 socket addresses, as the instances announce them, and their text.
use vstd::prelude::*;
use crate::text::{
    chars_of, int_at, int_text, is_digit, lemma_int_at, lemma_piece, nat_text, parse_int_at, push_nat,
    same_chars, string_of,
};

verus! {

/// An IPv4 socket address `a.b.c.d:port`.
#[derive(Clone, Copy, Debug, PartialEq, Eq, Structural)]
pub struct Address {
    pub a: u8,
    pub b: u8,
    pub c: u8,
    pub d: u8,
    pub port: u16,
}

/// The text `a.b.c.d:port` of an address, each number in shortest decimal.
pub open spec fn address_text(a: Address) -> Seq<char> {
    nat_text(a.a as nat) + seq!['.'] + nat_text(a.b as nat) + seq!['.'] + nat_text(
        a.c as nat,
    ) + seq!['.'] + nat_text(a.d as nat) + seq![':'] + nat_text(a.port as nat)
}

pub(crate) fn push_address(out: &mut Vec<char>, a: &Address)
    ensures
        final(out)@ == old(out)@ + address_text(*a),
{
    push_nat(out, a.a as u64);
    out.push('.');
    push_nat(out, a.b as u64);
    out.push('.');
    push_nat(out, a.c as u64);
    out.push('.');
    push_nat(out, a.d as u64);
    out.push(':');
    push_nat(out, a.port as u64);
    assert(final(out)@ =~= old(out)@ + address_text(*a));
}

impl Address {
    /// The address `a.b.c.d:port`.
    pub fn new(a: u8, b: u8, c: u8, d: u8, port: u16) -> (r: Address)
        ensures
            r == (Address { a, b, c, d, port }),
    {
        Address { a, b, c, d, port }
    }

    /// The text `a.b.c.d:port` of the address.
    pub fn to_text(&self) -> (r: String)
        ensures
            r@ == address_text(*self),
    {
        let mut out: Vec<char> = Vec::new();
        push_address(&mut out, self);
        assert(out@ =~= address_text(*self));
        string_of(&out)
    }
}

fn read_part(s: &Vec<char>, i: usize, max: i32, sep: Option<char>) -> (r: Option<(i32, usize)>)
    ensures
        match r {
            Some((n, k)) => 0 <= n <= max && int_at(s@, i as int) == Some((n as int, k as int))
                && match sep {
                Some(c) => k < s@.len() && s@[k as int] == c,
                None => k == s@.len(),
            },
            None => !(int_at(s@, i as int) matches Some((n, k)) && 0 <= n <= max && match sep {
                Some(c) => 0 <= k < s@.len() && s@[k] == c,
                None => k == s@.len(),
            }),
        },
{
    match parse_int_at(s, i) {
        Some((n, k)) => {
            if n < 0 || n > max {
                return None;
            }
            match sep {
                Some(c) => if k < s.len() && s[k] == c {
                    Some((n, k))
                } else {
                    None
                },
                None => if k == s.len() {
                    Some((n, k))
                } else {
                    None
                },
            }
        },
        None => None,
    }
}

proof fn lemma_part(s: Seq<char>, i: int, n: int, next: Option<char>)
    requires
        0 <= i,
        0 <= n <= 65535,
        i + nat_text(n as nat).len() <= s.len(),
        s.subrange(i, i + nat_text(n as nat).len()) == nat_text(n as nat),
        match next {
            Some(c) => i + nat_text(n as nat).len() < s.len() && s[i + nat_text(n as nat).len()] == c
                && !is_digit(c),
            None => i + nat_text(n as nat).len() == s.len(),
        },
    ensures
        int_at(s, i) == Some((n, i + nat_text(n as nat).len())),
{
    assert(int_text(n) == nat_text(n as nat));
    lemma_int_at(s, i, n);
}

/// Where each number of an address's text ends.
pub open spec fn part_ends(x: Address) -> (int, int, int, int, int) {
    let e1 = nat_text(x.a as nat).len() as int;
    let e2 = e1 + 1 + nat_text(x.b as nat).len();
    let e3 = e2 + 1 + nat_text(x.c as nat).len();
    let e4 = e3 + 1 + nat_text(x.d as nat).len();
    let e5 = e4 + 1 + nat_text(x.port as nat).len();
    (e1, e2, e3, e4, e5)
}

/// How the text `t` of address `x` reads, number by number.
pub open spec fn reads_as(t: Seq<char>, x: Address) -> bool {
    let (e1, e2, e3, e4, e5) = part_ends(x);
    &&& int_at(t, 0) == Some((x.a as int, e1)) && e1 < t.len() && t[e1] == '.'
    &&& int_at(t, e1 + 1) == Some((x.b as int, e2)) && e2 < t.len() && t[e2] == '.'
    &&& int_at(t, e2 + 1) == Some((x.c as int, e3)) && e3 < t.len() && t[e3] == '.'
    &&& int_at(t, e3 + 1) == Some((x.d as int, e4)) && e4 < t.len() && t[e4] == ':'
    &&& int_at(t, e4 + 1) == Some((x.port as int, e5)) && e5 == t.len()
}

/// The text of an address reads, number by number, as that address.
#[verifier::rlimit(40)]
pub proof fn lemma_address_reads(x: Address)
    ensures
        reads_as(address_text(x), x),
{
    let s = address_text(x);
    let na = nat_text(x.a as nat);
    let nb = nat_text(x.b as nat);
    let nc = nat_text(x.c as nat);
    let nd = nat_text(x.d as nat);
    let np = nat_text(x.port as nat);
    let dot = seq!['.'];
    let colon = seq![':'];
    lemma_piece(s, Seq::empty(), na, dot + nb + dot + nc + dot + nd + colon + np);
    lemma_piece(s, na + dot, nb, dot + nc + dot + nd + colon + np);
    lemma_piece(s, na + dot + nb + dot, nc, dot + nd + colon + np);
    lemma_piece(s, na + dot + nb + dot + nc + dot, nd, colon + np);
    lemma_piece(s, na + dot + nb + dot + nc + dot + nd + colon, np, Seq::empty());
    assert(!is_digit('.') && !is_digit(':'));
    lemma_part(s, 0, x.a as int, Some('.'));
    lemma_part(s, (na.len() + 1) as int, x.b as int, Some('.'));
    lemma_part(s, (na.len() + 1 + nb.len() + 1) as int, x.c as int, Some('.'));
    lemma_part(s, (na.len() + 1 + nb.len() + 1 + nc.len() + 1) as int, x.d as int, Some(':'));
    lemma_part(s, (na.len() + 1 + nb.len() + 1 + nc.len() + 1 + nd.len() + 1) as int, x.port as int, None);
}

impl Address {
    /// Reads the text `a.b.c.d:port` of an address: `Some` exactly on the
    /// texts that `to_text` writes, each number in shortest decimal.
    pub fn parse(text: &str) -> (r: Option<Address>)
        ensures
            r matches Some(x) ==> address_text(x) == text@,
            forall|x: Address| address_text(x) == text@ ==> r == Some(x),
    {
        let s = chars_of(text);
        proof {
            assert forall|x: Address| address_text(x) == text@ implies reads_as(text@, x) by {
                lemma_address_reads(x);
            }
        }
        let (a, k1) = match read_part(&s, 0, 255, Some('.')) {
            Some(p) => p,
            None => {
                return None;
            },
        };
        let (b, k2) = match read_part(&s, k1 + 1, 255, Some('.')) {
            Some(p) => p,
            None => {
                return None;
            },
        };
        let (c, k3) = match read_part(&s, k2 + 1, 255, Some('.')) {
            Some(p) => p,
            None => {
                return None;
            },
        };
        let (d, k4) = match read_part(&s, k3 + 1, 255, Some(':')) {
            Some(p) => p,
            None => {
                return None;
            },
        };
        let (port, _) = match read_part(&s, k4 + 1, 65535, None) {
            Some(p) => p,
            None => {
                return None;
            },
        };
        let x = Address { a: a as u8, b: b as u8, c: c as u8, d: d as u8, port: port as u16 };
        let mut t: Vec<char> = Vec::new();
        push_address(&mut t, &x);
        proof {
            assert forall|y: Address| address_text(y) == text@ implies y == x by {
                assert(reads_as(text@, y));
            }
        }
        if same_chars(&t, &s) {
            Some(x)
        } else {
            None
        }
    }
}

} // verus!
