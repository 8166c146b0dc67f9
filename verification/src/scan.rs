//! Scanning primitives for the command-output grammars: character classes,
//! maximal runs, literals at a position and leftmost-first search.
use vstd::prelude::*;
use crate::text::{is_digit, is_space, digit_char_of, space_char, digit_value, digit_char, nat_text};

verus! {

broadcast use vstd::string::group_string_axioms;

/// The characters of a string slice.
pub fn chars_of(t: &str) -> (r: Vec<char>)
    ensures
        r@ == t@,
{
    let mut v: Vec<char> = Vec::new();
    for c in it: t.chars()
        invariant
            v@ == it.seq().take(it.index() as int),
            it.seq() == t@,
    {
        v.push(c);
    }
    assert(t@.take(t@.len() as int) =~= t@);
    v
}

/// The characters `t[from..to]`.
pub fn sub_vec(t: &Vec<char>, from: usize, to: usize) -> (r: Vec<char>)
    requires
        from <= to <= t@.len(),
    ensures
        r@ == t@.subrange(from as int, to as int),
{
    let mut v: Vec<char> = Vec::new();
    let mut i = from;
    while i < to
        invariant
            from <= i <= to <= t@.len(),
            v@ == t@.subrange(from as int, i as int),
        decreases to - i,
    {
        v.push(t[i]);
        assert(t@.subrange(from as int, i + 1) =~= t@.subrange(from as int, i as int).push(
            t@[i as int],
        ));
        i = i + 1;
    }
    v
}

/// A string holding the given characters.
pub fn string_of(t: &Vec<char>, from: usize, to: usize) -> (r: String)
    requires
        from <= to <= t@.len(),
    ensures
        r@ == t@.subrange(from as int, to as int),
{
    let mut s = String::new();
    let mut i = from;
    while i < to
        invariant
            from <= i <= to <= t@.len(),
            s@ == t@.subrange(from as int, i as int),
        decreases to - i,
    {
        crate::text::push_char(&mut s, t[i]);
        assert(t@.subrange(from as int, i + 1) =~= t@.subrange(from as int, i as int).push(
            t@[i as int],
        ));
        i = i + 1;
    }
    s
}

/// The character classes the grammars use.
#[derive(Clone, Copy, Debug, PartialEq, Eq)]
pub enum CharClass {
    /// `0-9`.
    Digit,
    /// The regex class `\d`.
    RegexDigit,
    /// The regex class `[\d.]`.
    Number,
    /// Unicode `White_Space`.
    Space,
    /// `0-9`, `a-f`, `A-F`.
    Hex,
    /// Anything but a line feed.
    Line,
    /// Anything but Unicode `White_Space`.
    NonSpace,
    /// Anything but a comma.
    NonComma,
}

/// `c` is a Unicode decimal digit (`\p{Nd}`), the class `\d` of the
/// `regex` crate.
pub uninterp spec fn unicode_digit(c: char) -> bool;

/// Matches the one-character text `c` against the regex `^\d$` of the
/// `regex` crate; the result is named `unicode_digit` and nothing more is
/// claimed of it. (`Regex::new` fails on this pattern only in a build
/// without the crate's Unicode tables, which its default features include.)
#[verifier::external_body]
fn is_unicode_digit(c: char) -> (r: bool)
    ensures
        r == unicode_digit(c),
{
    let mut buf = [0u8; 4];
    match regex::Regex::new(r"^\d$") {
        Ok(re) => re.is_match(c.encode_utf8(&mut buf)),
        Err(_) => false,
    }
}

/// The regex class `\d`: `0-9` among ASCII characters, Unicode decimal
/// digits beyond them.
pub open spec fn regex_digit(c: char) -> bool {
    if c <= '\u{7f}' {
        is_digit(c)
    } else {
        unicode_digit(c)
    }
}

fn regex_digit_exec(c: char) -> (r: bool)
    ensures
        r == regex_digit(c),
{
    if c <= '\u{7f}' {
        digit_char_of(c)
    } else {
        is_unicode_digit(c)
    }
}

/// A hexadecimal digit.
pub open spec fn is_hex(c: char) -> bool {
    is_digit(c) || ('a' <= c && c <= 'f') || ('A' <= c && c <= 'F')
}

/// The value of a hexadecimal digit.
pub open spec fn hex_value(c: char) -> nat {
    if is_digit(c) {
        digit_value(c)
    } else if 'a' <= c && c <= 'f' {
        (c as int - 87) as nat
    } else {
        (c as int - 55) as nat
    }
}

/// Does `c` belong to the class `k`?
pub open spec fn in_class(k: CharClass, c: char) -> bool {
    match k {
        CharClass::Digit => is_digit(c),
        CharClass::RegexDigit => regex_digit(c),
        CharClass::Number => regex_digit(c) || c == '.',
        CharClass::Space => is_space(c),
        CharClass::Hex => is_hex(c),
        CharClass::Line => c != '\n',
        CharClass::NonSpace => !is_space(c),
        CharClass::NonComma => c != ',',
    }
}

/// Whether `c` belongs to the class `k`.
pub fn in_class_exec(k: CharClass, c: char) -> (r: bool)
    ensures
        r == in_class(k, c),
{
    match k {
        CharClass::Digit => digit_char_of(c),
        CharClass::RegexDigit => regex_digit_exec(c),
        CharClass::Number => regex_digit_exec(c) || c == '.',
        CharClass::Space => space_char(c),
        CharClass::Hex => digit_char_of(c) || ('a' <= c && c <= 'f') || ('A' <= c && c <= 'F'),
        CharClass::Line => c != '\n',
        CharClass::NonSpace => !space_char(c),
        CharClass::NonComma => c != ',',
    }
}

/// End of the maximal run of class `k` starting at `i`.
pub open spec fn span_end(t: Seq<char>, i: int, k: CharClass) -> int
    decreases t.len() - i,
{
    if 0 <= i < t.len() && in_class(k, t[i]) {
        span_end(t, i + 1, k)
    } else {
        i
    }
}

/// End of the maximal run of class `k` starting at `i`.
pub fn span(t: &Vec<char>, i: usize, k: CharClass) -> (r: usize)
    requires
        i <= t@.len(),
    ensures
        r == span_end(t@, i as int, k),
        i <= r <= t@.len(),
        forall|j: int| i <= j < r ==> in_class(k, #[trigger] t@[j]),
        r < t@.len() ==> !in_class(k, t@[r as int]),
{
    let n = t.len();
    let mut j = i;
    while j < n && in_class_exec(k, t[j])
        invariant
            i <= j <= n,
            n == t@.len(),
            span_end(t@, i as int, k) == span_end(t@, j as int, k),
            forall|m: int| i <= m < j ==> in_class(k, #[trigger] t@[m]),
        decreases n - j,
    {
        j = j + 1;
    }
    j
}

/// `lit` occurs in `t` at position `i`.
pub open spec fn has_lit(t: Seq<char>, i: int, lit: Seq<char>) -> bool {
    0 <= i && i + lit.len() <= t.len() && t.subrange(i, i + lit.len()) == lit
}

/// Does `lit` occur in `t` at position `i`?
pub fn lit_at(t: &Vec<char>, i: usize, lit: &Vec<char>) -> (r: bool)
    ensures
        r == has_lit(t@, i as int, lit@),
{
    let n = t.len();
    let m = lit.len();
    if i > n || m > n - i {
        return false;
    }
    let mut k: usize = 0;
    while k < m
        invariant
            k <= m,
            i + m <= n,
            n == t@.len(),
            m == lit@.len(),
            forall|q: int| 0 <= q < k ==> t@[i + q] == lit@[q],
        decreases m - k,
    {
        if t[i + k] != lit[k] {
            assert(t@.subrange(i as int, i + m)[k as int] != lit@[k as int]);
            return false;
        }
        k = k + 1;
    }
    assert(t@.subrange(i as int, i + m) =~= lit@);
    true
}

/// The first position `p' >= p` (up to `n`) where `pred` holds.
pub open spec fn first_from(n: int, p: int, pred: spec_fn(int) -> bool) -> Option<int>
    decreases n + 1 - p,
{
    if p > n {
        None
    } else if pred(p) {
        Some(p)
    } else {
        first_from(n, p + 1, pred)
    }
}

/// A scan that found nothing before `q` and stopped at `q`.
pub proof fn lemma_first_from(n: int, p: int, q: int, pred: spec_fn(int) -> bool)
    requires
        p <= q,
        forall|j: int| p <= j < q ==> !#[trigger] pred(j),
        q <= n + 1,
        q <= n ==> pred(q),
    ensures
        first_from(n, p, pred) == if q <= n {
            Some(q)
        } else {
            None::<int>
        },
    decreases q - p,
{
    if p < q {
        lemma_first_from(n, p + 1, q, pred);
    }
}

/// Decimal value of a run of digits.
pub open spec fn dec_value(s: Seq<char>) -> nat
    decreases s.len(),
{
    if s.len() == 0 {
        0
    } else {
        dec_value(s.drop_last()) * 10 + digit_value(s.last())
    }
}

/// Hexadecimal value of a run of hex digits.
pub open spec fn hex_run_value(s: Seq<char>) -> nat
    decreases s.len(),
{
    if s.len() == 0 {
        0
    } else {
        hex_run_value(s.drop_last()) * 16 + hex_value(s.last())
    }
}

/// Every character of `s` is of class `k`.
pub open spec fn all_in(s: Seq<char>, k: CharClass) -> bool {
    forall|i: int| 0 <= i < s.len() ==> in_class(k, #[trigger] s[i])
}

/// Whether every character of `t[from..to]` is of class `k`.
pub fn all_in_exec(t: &Vec<char>, from: usize, to: usize, k: CharClass) -> (r: bool)
    requires
        from <= to <= t@.len(),
    ensures
        r == all_in(t@.subrange(from as int, to as int), k),
{
    let mut i = from;
    while i < to
        invariant
            from <= i <= to <= t@.len(),
            forall|j: int| from <= j < i ==> in_class(k, #[trigger] t@[j]),
        decreases to - i,
    {
        if !in_class_exec(k, t[i]) {
            assert(t@.subrange(from as int, to as int)[i - from] == t@[i as int]);
            return false;
        }
        i = i + 1;
    }
    assert forall|j: int| 0 <= j < to - from implies in_class(
        k,
        #[trigger] t@.subrange(from as int, to as int)[j],
    ) by {
        assert(t@.subrange(from as int, to as int)[j] == t@[from + j]);
    }
    true
}

/// The value of the digits `t[from..to]`, provided it is at most `limit`.
pub fn dec_value_upto(t: &Vec<char>, from: usize, to: usize, limit: u64) -> (r: Option<u64>)
    requires
        from <= to <= t@.len(),
        all_in(t@.subrange(from as int, to as int), CharClass::Digit),
        limit < u64::MAX / 10,
    ensures
        match r {
            Some(v) => v == dec_value(t@.subrange(from as int, to as int)) && v <= limit,
            None => dec_value(t@.subrange(from as int, to as int)) > limit,
        },
{
    let mut acc: u64 = 0;
    let mut i = from;
    while i < to
        invariant
            from <= i <= to <= t@.len(),
            all_in(t@.subrange(from as int, to as int), CharClass::Digit),
            acc == dec_value(t@.subrange(from as int, i as int)),
            acc <= limit,
            limit < u64::MAX / 10,
        decreases to - i,
    {
        let c = t[i];
        assert(t@.subrange(from as int, to as int)[i - from] == c);
        assert(t@.subrange(from as int, i + 1).drop_last() =~= t@.subrange(from as int, i as int));
        let d = (c as u32 - 48) as u64;
        acc = acc * 10 + d;
        if acc > limit {
            proof {
                assert(t@.subrange(from as int, i + 1) =~= t@.subrange(from as int, to as int).take(
                    i + 1 - from,
                ));
                lemma_dec_value_grows(t@.subrange(from as int, i + 1), t@.subrange(from as int, to as int));
            }
            return None;
        }
        i = i + 1;
    }
    Some(acc)
}

/// A run of class `k` from `i` that stops at `j` (the end, or a character
/// not of the class) ends at `j`.
pub proof fn lemma_span_to(t: Seq<char>, i: int, j: int, k: CharClass)
    requires
        0 <= i <= j <= t.len(),
        forall|m: int| i <= m < j ==> in_class(k, #[trigger] t[m]),
        j == t.len() || !in_class(k, t[j]),
    ensures
        span_end(t, i, k) == j,
    decreases j - i,
{
    if i < j {
        lemma_span_to(t, i + 1, j, k);
    }
}

/// The decimal text of `n` is all ASCII digits and reads back as `n`.
pub proof fn lemma_nat_text_value(n: nat)
    ensures
        forall|i: int| 0 <= i < nat_text(n).len() ==> is_digit(#[trigger] nat_text(n)[i]),
        dec_value(nat_text(n)) == n,
        nat_text(n).len() >= 1,
    decreases n,
{
    if n < 10 {
        assert(is_digit(digit_char(n)));
        assert(digit_value(digit_char(n)) == n);
        assert(nat_text(n).drop_last() =~= Seq::<char>::empty());
        assert(dec_value(nat_text(n)) == dec_value(Seq::<char>::empty()) * 10 + n);
    } else {
        lemma_nat_text_value(n / 10);
        let d = n % 10;
        assert(is_digit(digit_char(d)));
        assert(digit_value(digit_char(d)) == d);
        let a = nat_text(n / 10);
        assert(nat_text(n).drop_last() =~= a);
        assert(nat_text(n).last() == digit_char(d));
        assert(dec_value(nat_text(n)) == dec_value(a) * 10 + d);
        assert((n / 10) * 10 + n % 10 == n);
        assert forall|i: int| 0 <= i < nat_text(n).len() implies is_digit(#[trigger] nat_text(n)[i]) by {
            if i < a.len() {
                assert(nat_text(n)[i] == a[i]);
            }
        }
    }
}

/// Extending a run of digits never lowers its value.
pub proof fn lemma_dec_value_grows(a: Seq<char>, b: Seq<char>)
    requires
        a.len() <= b.len(),
        a == b.take(a.len() as int),
    ensures
        dec_value(a) <= dec_value(b),
    decreases b.len() - a.len(),
{
    if a.len() < b.len() {
        let c = b.take(a.len() + 1 as int);
        assert(c.drop_last() =~= a);
        assert(dec_value(c) == dec_value(a) * 10 + digit_value(c.last()));
        assert(c == b.take(c.len() as int));
        lemma_dec_value_grows(c, b);
    } else {
        assert(a =~= b);
    }
}

} // verus!
