//! Characters, decimal integers, and conversions between strings and
//! character vectors.
use vstd::prelude::*;

verus! {

/// The code point of a character.
pub open spec fn code(c: char) -> int {
    c as u32 as int
}

pub open spec fn is_digit(c: char) -> bool {
    48 <= code(c) <= 57
}

pub open spec fn digit_char(d: int) -> char {
    (48 + d) as u8 as char
}

/// The value of a run of decimal digits, most significant first.
pub open spec fn digits_value(s: Seq<char>) -> int
    decreases s.len(),
{
    if s.len() == 0 {
        0
    } else {
        digits_value(s.drop_last()) * 10 + (code(s.last()) - 48)
    }
}

/// The shortest decimal text of a natural number.
pub open spec fn nat_text(n: nat) -> Seq<char>
    decreases n,
{
    if n < 10 {
        seq![digit_char(n as int)]
    } else {
        nat_text(n / 10).push(digit_char(n as int % 10))
    }
}

/// The decimal text of an integer, with a leading `-` when negative.
pub open spec fn int_text(n: int) -> Seq<char> {
    if n < 0 {
        seq!['-'] + nat_text((-n) as nat)
    } else {
        nat_text(n as nat)
    }
}

/// The end of the run of digits that starts at `j`.
pub open spec fn digit_run_end(s: Seq<char>, j: int) -> int
    decreases s.len() - j,
{
    if 0 <= j < s.len() && is_digit(s[j]) {
        digit_run_end(s, j + 1)
    } else {
        j
    }
}

pub open spec fn in_i32(n: int) -> bool {
    i32::MIN <= n <= i32::MAX
}

/// The 32-bit integer written at `i` in its shortest decimal form, and the
/// position after it.
pub open spec fn int_at(s: Seq<char>, i: int) -> Option<(int, int)> {
    let neg = 0 <= i < s.len() && s[i] == '-';
    let j = if neg { i + 1 } else { i };
    let k = digit_run_end(s, j);
    let v = digits_value(s.subrange(j, k));
    let n = if neg { -v } else { v };
    if 0 <= i && j < k && in_i32(n) && s.subrange(i, k) == int_text(n) {
        Some((n, k))
    } else {
        None
    }
}

/// The characters of each string of a list.
pub open spec fn views_of(v: Seq<String>) -> Seq<Seq<char>> {
    v.map_values(|x: String| x@)
}

/// Relies on `str::chars` collected into a `Vec`: the characters of `s` in order.
#[verifier::external_body]
pub(crate) fn chars_of(s: &str) -> (r: Vec<char>)
    ensures
        r@ == s@,
{
    s.chars().collect()
}

/// Relies on collecting characters into a `String` (`FromIterator<&char>`):
/// the string holds exactly those characters in order.
#[verifier::external_body]
pub(crate) fn string_of(chars: &Vec<char>) -> (r: String)
    ensures
        r@ == chars@,
{
    chars.iter().collect()
}

pub(crate) fn same_chars(a: &Vec<char>, b: &Vec<char>) -> (r: bool)
    ensures
        r == (a@ == b@),
{
    if a.len() != b.len() {
        return false;
    }
    let mut i: usize = 0;
    while i < a.len()
        invariant
            a@.len() == b@.len(),
            i <= a@.len(),
            forall|k: int| 0 <= k < i ==> a@[k] == b@[k],
        decreases a@.len() - i,
    {
        if a[i] != b[i] {
            return false;
        }
        i = i + 1;
    }
    assert(a@ =~= b@);
    true
}

/// Whether `s` holds `t` at position `i`.
pub(crate) fn holds_at(s: &Vec<char>, i: usize, t: &Vec<char>) -> (r: bool)
    ensures
        r == (i + t@.len() <= s@.len() && s@.subrange(i as int, i + t@.len()) == t@),
{
    if i > s.len() || t.len() > s.len() - i {
        return false;
    }
    let n = s.len();
    let mut k: usize = 0;
    while k < t.len()
        invariant
            n == s@.len(),
            i + t@.len() <= s@.len(),
            k <= t@.len(),
            forall|m: int| 0 <= m < k ==> s@[i + m] == t@[m],
        decreases t@.len() - k,
    {
        if s[i + k] != t[k] {
            assert(s@.subrange(i as int, i + t@.len())[k as int] != t@[k as int]);
            return false;
        }
        k = k + 1;
    }
    assert(s@.subrange(i as int, i + t@.len()) =~= t@);
    true
}

fn digit(d: u64) -> (c: char)
    requires
        d < 10,
    ensures
        c == digit_char(d as int),
{
    (48 + d as u8) as char
}

pub(crate) fn push_nat(out: &mut Vec<char>, n: u64)
    ensures
        final(out)@ == old(out)@ + nat_text(n as nat),
    decreases n,
{
    if n >= 10 {
        push_nat(out, n / 10);
    }
    out.push(digit(n % 10));
    assert(final(out)@ =~= old(out)@ + nat_text(n as nat));
}

/// Appends the decimal text of `n`.
pub(crate) fn push_int(out: &mut Vec<char>, n: i32)
    ensures
        final(out)@ == old(out)@ + int_text(n as int),
{
    if n < 0 {
        out.push('-');
        let m: i64 = -(n as i64);
        push_nat(out, m as u64);
        assert(final(out)@ =~= old(out)@ + int_text(n as int));
    } else {
        push_nat(out, n as u64);
    }
}

proof fn lemma_digit_char(d: int)
    requires
        0 <= d < 10,
    ensures
        code(digit_char(d)) == 48 + d,
        is_digit(digit_char(d)),
        digit_char(d) != '-',
{
}

proof fn lemma_nat_text(n: nat)
    ensures
        nat_text(n).len() >= 1,
        forall|m: int| 0 <= m < nat_text(n).len() ==> is_digit(#[trigger] nat_text(n)[m]),
        digits_value(nat_text(n)) == n,
    decreases n,
{
    lemma_digit_char(n as int % 10);
    if n >= 10 {
        lemma_nat_text(n / 10);
        let t = nat_text(n);
        assert(t.drop_last() =~= nat_text(n / 10));
        assert(t.last() == digit_char(n as int % 10));
        assert(code(t.last()) - 48 == n % 10);
        assert(digits_value(t) == digits_value(t.drop_last()) * 10 + (code(t.last()) - 48));
        assert(n == (n / 10) * 10 + n % 10);
        assert(forall|m: int| 0 <= m < t.len() - 1 ==> t[m] == nat_text(n / 10)[m]);
    } else {
        let t = nat_text(n);
        assert(t.drop_last() =~= Seq::<char>::empty());
        assert(digits_value(t.drop_last()) == 0);
        assert(digits_value(t) == digits_value(t.drop_last()) * 10 + (code(t.last()) - 48));
    }
}

proof fn lemma_run_end(s: Seq<char>, j: int, k: int)
    requires
        0 <= j <= k <= s.len(),
        forall|m: int| j <= m < k ==> is_digit(#[trigger] s[m]),
        k == s.len() || !is_digit(s[k]),
    ensures
        digit_run_end(s, j) == k,
    decreases k - j,
{
    if j < k {
        lemma_run_end(s, j + 1, k);
    }
}

proof fn lemma_digits_value_prefix(t: Seq<char>, m: int)
    requires
        0 <= m <= t.len(),
        forall|x: int| 0 <= x < t.len() ==> is_digit(#[trigger] t[x]),
    ensures
        0 <= digits_value(t.subrange(0, m)) <= digits_value(t),
    decreases t.len(),
{
    if t.len() > 0 {
        let u = t.drop_last();
        if m < t.len() {
            assert(u.subrange(0, m) =~= t.subrange(0, m));
            lemma_digits_value_prefix(u, m);
        } else {
            assert(t.subrange(0, m) =~= t);
            lemma_digits_value_prefix(u, 0);
        }
    } else {
        assert(t.subrange(0, m) =~= t);
    }
}

/// Reading the shortest decimal text of a 32-bit integer, followed by
/// anything but a digit, gives the integer back.
pub proof fn lemma_int_at(s: Seq<char>, i: int, n: int)
    requires
        0 <= i,
        in_i32(n),
        i + int_text(n).len() <= s.len(),
        s.subrange(i, i + int_text(n).len()) == int_text(n),
        i + int_text(n).len() == s.len() || !is_digit(s[i + int_text(n).len()]),
    ensures
        int_at(s, i) == Some((n, i + int_text(n).len())),
{
    let a = if n < 0 { -n } else { n };
    lemma_nat_text(a as nat);
    let t = int_text(n);
    let e = i + t.len();
    let j = if n < 0 { i + 1 } else { i };
    assert(s[i] == t[0]);
    assert forall|m: int| j <= m < e implies s[m] == #[trigger] nat_text(a as nat)[m - j] by {
        assert(s[m] == s.subrange(i, e)[m - i]);
        if n < 0 {
            assert(t[m - i] == nat_text(a as nat)[m - i - 1]);
        }
    }
    if n < 0 {
        assert(t[0] == '-');
    } else {
        assert(t[0] == nat_text(a as nat)[0]);
    }
    assert forall|m: int| j <= m < e implies is_digit(#[trigger] s[m]) by {
        assert(s[m] == nat_text(a as nat)[m - j]);
    }
    lemma_run_end(s, j, e);
    assert forall|x: int| 0 <= x < e - j implies #[trigger] s.subrange(j, e)[x] == nat_text(a as nat)[x] by {
        assert(s[j + x] == nat_text(a as nat)[(j + x) - j]);
    }
    assert(s.subrange(j, e) =~= nat_text(a as nat));
}

/// Reads the 32-bit integer written at `i` in its shortest decimal form.
pub(crate) fn parse_int_at(s: &Vec<char>, i: usize) -> (r: Option<(i32, usize)>)
    ensures
        match r {
            Some((n, k)) => int_at(s@, i as int) == Some((n as int, k as int)),
            None => int_at(s@, i as int) is None,
        },
{
    let len = s.len();
    if i > len {
        return None;
    }
    let neg = i < len && s[i] == '-';
    let j = if neg { i + 1 } else { i };
    let mut k = j;
    while k < len && (s[k] as u32) >= 48 && (s[k] as u32) <= 57
        invariant
            len == s@.len(),
            j <= k <= len,
            digit_run_end(s@, j as int) == digit_run_end(s@, k as int),
            forall|m: int| j <= m < k ==> is_digit(#[trigger] s@[m]),
        decreases len - k,
    {
        k = k + 1;
    }
    assert(digit_run_end(s@, j as int) == k);
    if k == j {
        return None;
    }
    let ghost run = s@.subrange(j as int, k as int);
    assert forall|x: int| 0 <= x < run.len() implies is_digit(#[trigger] run[x]) by {
        assert(run[x] == s@[j + x]);
    }
    let mut acc: u64 = 0;
    let mut m = j;
    while m < k
        invariant
            len == s@.len(),
            j <= m <= k <= len,
            run == s@.subrange(j as int, k as int),
            digit_run_end(s@, j as int) == k,
            neg == (i < len && s@[i as int] == '-'),
            j == (if neg { i + 1 } else { i as int }),
            forall|x: int| 0 <= x < run.len() ==> is_digit(#[trigger] run[x]),
            acc as int == digits_value(s@.subrange(j as int, m as int)),
            acc <= 2147483648,
        decreases k - m,
    {
        assert(s@.subrange(j as int, m + 1).drop_last() =~= s@.subrange(j as int, m as int));
        assert(run[m - j] == s@[m as int]);
        assert(is_digit(run[m - j]));
        let d = (s[m] as u32 - 48) as u64;
        acc = acc * 10 + d;
        m = m + 1;
        if acc > 2147483648 {
            assert(run.subrange(0, m - j) =~= s@.subrange(j as int, m as int));
            proof { lemma_digits_value_prefix(run, m - j); }
            assert(digits_value(run) > 2147483648);
            assert(run == s@.subrange(j as int, digit_run_end(s@, j as int)));
            return None;
        }
    }
    let v: i64 = if neg { -(acc as i64) } else { acc as i64 };
    if v < -2147483648 || v > 2147483647 {
        return None;
    }
    let n = v as i32;
    let mut t: Vec<char> = Vec::new();
    push_int(&mut t, n);
    assert(t@ =~= int_text(n as int));
    if k - i == t.len() && holds_at(s, i, &t) {
        Some((n, k))
    } else {
        None
    }
}

/// A sequence made of three parts holds the middle one where it starts.
pub proof fn lemma_piece(s: Seq<char>, a: Seq<char>, b: Seq<char>, c: Seq<char>)
    requires
        s =~= a + b + c,
    ensures
        s.subrange(a.len() as int, (a.len() + b.len()) as int) == b,
        c.len() > 0 ==> s[(a.len() + b.len()) as int] == c[0],
{
    assert(s.subrange(a.len() as int, (a.len() + b.len()) as int) =~= b);
}

} // verus!
