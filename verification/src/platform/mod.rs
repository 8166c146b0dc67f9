//! The grammars of `ping`, `traceroute` and route-table output, shared by
//! the per-OS modules, which each supply the command lines and the parsers
//! for one operating system.
//!
//! The patterns are read as the regular expressions the tool has always
//! used, with leftmost-first matching and the `regex` crate's Unicode
//! classes: `\d` is a Unicode decimal digit and `\s` Unicode `White_Space`.
//! A captured number is then read as `str::parse` reads it, which accepts
//! ASCII digits only.
use vstd::prelude::*;
use crate::ip::{IpAddr, parse_ip, parse_ip_exec, v4_text, law_v4_text_parses};
use crate::scan::{
    CharClass, span, span_end, has_lit, lit_at, first_from, lemma_first_from, sub_vec, dec_value,
    dec_value_upto, all_in, all_in_exec, in_class, lemma_span_to, lemma_nat_text_value,
};
use crate::text::{is_digit, is_space, digit_value, digit_char, nat_text, spaces};

pub mod linux;
pub mod macos;
pub mod windows;

verus! {

/// One traceroute hop: its number and the IPv4 address that answered, or
/// `None` if the hop timed out.
pub type Hop = (u32, Option<IpAddr>);

// ---------------------------------------------------------------------
// Round-trip times.

/// Decimal `k` (from 0) of the fraction digits `f`, 0 past their end.
pub open spec fn frac_digit(f: Seq<char>, k: int) -> nat {
    if k < f.len() {
        digit_value(f[k])
    } else {
        0
    }
}

/// A number of milliseconds written with digits and at most one point, the
/// way `str::parse::<f64>` accepts it (`12`, `12.5`, `12.`, `.5`), as whole
/// microseconds: decimals past the third are dropped.
pub open spec fn ms_text_micros(t: Seq<char>) -> Option<nat> {
    let d = span_end(t, 0, CharClass::Digit);
    if d == t.len() {
        if d >= 1 {
            Some(dec_value(t) * 1000)
        } else {
            None
        }
    } else if t[d] == '.' && span_end(t, d + 1, CharClass::Digit) == t.len() && (d >= 1 || t.len()
        > d + 1) {
        let f = t.skip(d + 1);
        Some(dec_value(t.take(d)) * 1000 + 100 * frac_digit(f, 0) + 10 * frac_digit(f, 1)
            + frac_digit(f, 2))
    } else {
        None
    }
}

/// The round-trip time that a captured number stands for, if it is a valid
/// number that fits in 32 bits of microseconds.
pub open spec fn rtt_from_text(t: Seq<char>) -> Option<u32> {
    match ms_text_micros(t) {
        Some(v) => if v <= u32::MAX {
            Some(v as u32)
        } else {
            None
        },
        None => None,
    }
}

proof fn lemma_all_digits(t: Seq<char>, from: int, to: int)
    requires
        0 <= from <= to <= t.len(),
        forall|j: int| from <= j < to ==> in_class(CharClass::Digit, #[trigger] t[j]),
    ensures
        all_in(t.subrange(from, to), CharClass::Digit),
{
    assert forall|k: int| 0 <= k < to - from implies in_class(
        CharClass::Digit,
        #[trigger] t.subrange(from, to)[k],
    ) by {
        assert(t.subrange(from, to)[k] == t[from + k]);
    }
}

fn frac_digit_exec(t: &Vec<char>, d: usize, k: usize) -> (r: u64)
    requires
        d < t@.len(),
        k < 3,
        forall|j: int| d < j < t@.len() ==> in_class(CharClass::Digit, #[trigger] t@[j]),
    ensures
        r == frac_digit(t@.skip(d + 1), k as int),
        r <= 9,
{
    if k < t.len() - d - 1 {
        assert(t@.skip(d + 1)[k as int] == t@[d + 1 + k]);
        (t[d + 1 + k] as u32 - 48) as u64
    } else {
        0
    }
}

/// The round-trip time a captured number stands for.
pub fn rtt_from_chars(t: &Vec<char>) -> (r: Option<u32>)
    ensures
        r == rtt_from_text(t@),
{
    let n = t.len();
    let d = span(t, 0, CharClass::Digit);
    if d == n {
        if d == 0 {
            return None;
        }
        proof {
            lemma_all_digits(t@, 0, n as int);
            assert(t@.subrange(0, n as int) =~= t@);
        }
        return match dec_value_upto(t, 0, n, 4294967) {
            Some(v) => Some((v * 1000) as u32),
            None => None,
        };
    }
    if t[d] != '.' {
        return None;
    }
    let f = span(t, d + 1, CharClass::Digit);
    if f != n || (d == 0 && n == d + 1) {
        return None;
    }
    proof {
        lemma_all_digits(t@, 0, d as int);
        assert(t@.subrange(0, d as int) =~= t@.take(d as int));
    }
    let int_part = match dec_value_upto(t, 0, d, 4294967) {
        Some(v) => v,
        None => return None,
    };
    let a = frac_digit_exec(t, d, 0);
    let b = frac_digit_exec(t, d, 1);
    let c = frac_digit_exec(t, d, 2);
    let total = int_part * 1000 + 100 * a + 10 * b + c;
    if total <= 0xffff_ffff {
        Some(total as u32)
    } else {
        None
    }
}

/// The microseconds of `t` read as milliseconds with a point and the given
/// fraction digits, when `t` is a whole number followed by them.
proof fn lemma_ms_with_fraction(k: nat, f: Seq<char>)
    requires
        1 <= f.len() <= 3,
        forall|i: int| 0 <= i < f.len() ==> is_digit(#[trigger] f[i]),
    ensures
        ms_text_micros(nat_text(k) + seq!['.'] + f) == Some(
            k * 1000 + 100 * digit_value(f[0]) + 10 * frac_digit(f, 1) + frac_digit(f, 2),
        ),
{
    let w = nat_text(k);
    let t = w + seq!['.'] + f;
    lemma_nat_text_value(k);
    let d = w.len() as int;
    assert forall|m: int| 0 <= m < d implies in_class(CharClass::Digit, #[trigger] t[m]) by {
        assert(t[m] == w[m]);
    }
    assert(t[d] == '.');
    lemma_span_to(t, 0, d, CharClass::Digit);
    assert forall|m: int| d + 1 <= m < t.len() implies in_class(CharClass::Digit, #[trigger] t[m]) by {
        assert(t[m] == f[m - d - 1]);
    }
    lemma_span_to(t, d + 1, t.len() as int, CharClass::Digit);
    assert(t.take(d) =~= w);
    assert(t.skip(d + 1) =~= f);
}

/// How a captured number reads as a round-trip time: `k` ms, `k.a` ms,
/// `k.abc` ms and `.a` ms give `k`, `k.a`, `k.abc` and `0.a` milliseconds
/// in microseconds, whenever that fits in 32 bits (above, the ping reads
/// as lost).
pub proof fn law_rtt_number(k: nat, a: nat, b: nat, c: nat)
    requires
        a < 10,
        b < 10,
        c < 10,
    ensures
        rtt_from_text(nat_text(k)) == (if k * 1000 <= u32::MAX {
            Some((k * 1000) as u32)
        } else {
            None::<u32>
        }),
        rtt_from_text(nat_text(k) + seq!['.', digit_char(a)]) == (if k * 1000 + 100 * a
            <= u32::MAX {
            Some((k * 1000 + 100 * a) as u32)
        } else {
            None::<u32>
        }),
        rtt_from_text(nat_text(k) + seq!['.', digit_char(a), digit_char(b), digit_char(c)]) == (
        if k * 1000 + 100 * a + 10 * b + c <= u32::MAX {
            Some((k * 1000 + 100 * a + 10 * b + c) as u32)
        } else {
            None::<u32>
        }),
        rtt_from_text(seq!['.', digit_char(a)]) == Some((100 * a) as u32),
{
    lemma_rtt_whole(k);
    lemma_rtt_fraction(k, a, b, c);
    lemma_rtt_leading_point(a);
}

proof fn lemma_rtt_whole(k: nat)
    ensures
        ms_text_micros(nat_text(k)) == Some(k * 1000),
{
    let w = nat_text(k);
    lemma_nat_text_value(k);
    assert forall|m: int| 0 <= m < w.len() implies in_class(CharClass::Digit, #[trigger] w[m]) by {}
    lemma_span_to(w, 0, w.len() as int, CharClass::Digit);
}

proof fn lemma_rtt_fraction(k: nat, a: nat, b: nat, c: nat)
    requires
        a < 10,
        b < 10,
        c < 10,
    ensures
        ms_text_micros(nat_text(k) + seq!['.', digit_char(a)]) == Some(k * 1000 + 100 * a),
        ms_text_micros(nat_text(k) + seq!['.', digit_char(a), digit_char(b), digit_char(c)])
            == Some(k * 1000 + 100 * a + 10 * b + c),
{
    let w = nat_text(k);
    assert(digit_value(digit_char(a)) == a && is_digit(digit_char(a)));
    assert(digit_value(digit_char(b)) == b && is_digit(digit_char(b)));
    assert(digit_value(digit_char(c)) == c && is_digit(digit_char(c)));
    let f1 = seq![digit_char(a)];
    lemma_ms_with_fraction(k, f1);
    assert(w + seq!['.'] + f1 =~= w + seq!['.', digit_char(a)]);
    let f3 = seq![digit_char(a), digit_char(b), digit_char(c)];
    lemma_ms_with_fraction(k, f3);
    assert(w + seq!['.'] + f3 =~= w + seq!['.', digit_char(a), digit_char(b), digit_char(c)]);
}

proof fn lemma_rtt_leading_point(a: nat)
    requires
        a < 10,
    ensures
        ms_text_micros(seq!['.', digit_char(a)]) == Some(100 * a),
{
    assert(digit_value(digit_char(a)) == a && is_digit(digit_char(a)));
    let p = seq!['.', digit_char(a)];
    assert(!in_class(CharClass::Digit, p[0]));
    lemma_span_to(p, 0, 0, CharClass::Digit);
    lemma_span_to(p, 1, 2, CharClass::Digit);
    assert(p.take(0) =~= Seq::<char>::empty());
    assert(dec_value(p.take(0)) == 0);
    assert(p.skip(1) =~= seq![digit_char(a)]);
}

/// A `time=<number> ms` reply gives the time of its number: for any
/// number made of digits and points, the first such reply decides.
pub proof fn law_time_eq_reply(x: Seq<char>, rest: Seq<char>)
    requires
        x.len() >= 1,
        forall|i: int| 0 <= i < x.len() ==> is_digit(#[trigger] x[i]) || x[i] == '.',
    ensures
        time_eq_rtt(seq!['t', 'i', 'm', 'e', '='] + x + seq![' ', 'm', 's'] + rest) == rtt_from_text(
            x,
        ),
{
    let t = seq!['t', 'i', 'm', 'e', '='] + x + seq![' ', 'm', 's'] + rest;
    let e: int = 5 + x.len() as int;
    assert forall|m: int| 5 <= m < e implies in_class(CharClass::Number, #[trigger] t[m]) by {
        assert(t[m] == x[m - 5]);
    }
    assert(t[e] == ' ');
    lemma_span_to(t, 5, e, CharClass::Number);
    assert(t[e + 1] == 'm');
    lemma_span_to(t, e, e + 1, CharClass::Space);
    assert(t.subrange(0, 5) =~= seq!['t', 'i', 'm', 'e', '=']);
    assert(t.subrange(e + 1, e + 3) =~= seq!['m', 's']);
    assert(time_eq_match_at(t, 0));
    let pred = |p: int| time_eq_match_at(t, p);
    assert(pred(0));
    assert(first_from(t.len() as int, 0, pred) == Some(0int));
    assert(t.subrange(5, e) =~= x);
}

// ---------------------------------------------------------------------
// Lines.

/// End of the line starting at `i`: the next line feed, or the end.
pub open spec fn line_end(t: Seq<char>, i: int) -> int {
    span_end(t, i, CharClass::Line)
}

/// The line starting at `i`, as `str::lines` gives it: without its line
/// feed, and without a carriage return right before that line feed.
pub open spec fn line_at(t: Seq<char>, i: int) -> Seq<char> {
    let e = line_end(t, i);
    if e < t.len() && e > i && t[e - 1] == '\r' {
        t.subrange(i, e - 1)
    } else {
        t.subrange(i, e)
    }
}

/// The line starting at `i` and where it ends.
pub fn line_from(t: &Vec<char>, i: usize) -> (r: (Vec<char>, usize))
    requires
        i < t@.len(),
    ensures
        r.0@ == line_at(t@, i as int),
        r.1 == line_end(t@, i as int),
        i <= r.1 <= t@.len(),
        r.1 < t@.len() ==> t@[r.1 as int] == '\n',
{
    let e = span(t, i, CharClass::Line);
    let stop = if e < t.len() && e > i && t[e - 1] == '\r' {
        e - 1
    } else {
        e
    };
    (sub_vec(t, i, stop), e)
}

// ---------------------------------------------------------------------
// IPv4 addresses found in text: `\d{1,3}\.\d{1,3}\.\d{1,3}\.\d{1,3}`.

/// Where a dotted-quad match starting at `p` ends, if one starts there.
pub open spec fn dotted_end(s: Seq<char>, p: int) -> Option<int> {
    let e1 = span_end(s, p, CharClass::RegexDigit);
    let e2 = span_end(s, e1 + 1, CharClass::RegexDigit);
    let e3 = span_end(s, e2 + 1, CharClass::RegexDigit);
    let e4 = span_end(s, e3 + 1, CharClass::RegexDigit);
    if 0 <= p && 1 <= e1 - p <= 3 && e1 < s.len() && s[e1] == '.' && 1 <= e2 - (e1 + 1) <= 3
        && e2 < s.len() && s[e2] == '.' && 1 <= e3 - (e2 + 1) <= 3 && e3 < s.len() && s[e3] == '.'
        && e4 - (e3 + 1) >= 1 {
        Some(if e4 - (e3 + 1) > 3 {
            e3 + 4
        } else {
            e4
        })
    } else {
        None
    }
}

/// The address in the leftmost dotted-quad match in `s`, parsed with the
/// rules of `IpAddr::from_str` (`None` when there is no match or the match
/// is not an address, such as "1.2.3.456").
pub open spec fn first_ipv4(s: Seq<char>) -> Option<IpAddr> {
    match first_from(s.len() as int, 0, |p: int| dotted_end(s, p) is Some) {
        Some(p) => match dotted_end(s, p) {
            Some(e) => parse_ip(s.subrange(p, e)),
            None => None,
        },
        None => None,
    }
}

/// The last of the successive non-overlapping dotted-quad matches in `s`
/// from `p` on, as `(start, end)`; `found` is the last one before `p`.
pub open spec fn last_dotted(s: Seq<char>, p: int, found: Option<(int, int)>) -> Option<(int, int)>
    decreases s.len() + 1 - p,
{
    if p > s.len() {
        found
    } else {
        match dotted_end(s, p) {
            Some(e) => if p < e <= s.len() {
                last_dotted(s, e, Some((p, e)))
            } else {
                found
            },
            None => last_dotted(s, p + 1, found),
        }
    }
}

/// A run of `\d` over the decimal text of a number placed at `i` and
/// followed by a non-digit (or the end) covers exactly that text.
proof fn lemma_number_run(t: Seq<char>, i: int, n: nat)
    requires
        0 <= i,
        i + nat_text(n).len() <= t.len(),
        t.subrange(i, i + nat_text(n).len()) == nat_text(n),
        i + nat_text(n).len() == t.len() || !in_class(CharClass::RegexDigit, t[i + nat_text(n).len()]),
    ensures
        span_end(t, i, CharClass::RegexDigit) == i + nat_text(n).len(),
{
    lemma_nat_text_value(n);
    let e = i + nat_text(n).len();
    assert forall|m: int| i <= m < e implies in_class(CharClass::RegexDigit, #[trigger] t[m]) by {
        assert(t[m] == nat_text(n)[m - i]);
        assert(is_digit(t[m]));
    }
    lemma_span_to(t, i, e, CharClass::RegexDigit);
}

/// A line that starts with a printed IPv4 address, followed by the end or
/// by anything but a digit, has that address as its first dotted quad.
pub proof fn law_first_ipv4_leading(a: u8, b: u8, c: u8, d: u8, rest: Seq<char>)
    requires
        rest.len() == 0 || !crate::scan::regex_digit(rest[0]),
    ensures
        first_ipv4(v4_text(a as nat, b as nat, c as nat, d as nat) + rest) == Some(
            IpAddr::V4([a, b, c, d]),
        ),
{
    let q = v4_text(a as nat, b as nat, c as nat, d as nat);
    let t = q + rest;
    let wa = nat_text(a as nat);
    let wb = nat_text(b as nat);
    let wc = nat_text(c as nat);
    let wd = nat_text(d as nat);
    let p1 = wa.len() as int;
    let p2 = p1 + 1 + wb.len();
    let p3 = p2 + 1 + wc.len();
    let p4 = p3 + 1 + wd.len();
    assert(q.len() == p4);
    assert(t.subrange(0, p1) =~= wa);
    assert(t.subrange(p1 + 1, p2) =~= wb);
    assert(t.subrange(p2 + 1, p3) =~= wc);
    assert(t.subrange(p3 + 1, p4) =~= wd);
    assert(t[p1] == '.' && t[p2] == '.' && t[p3] == '.');
    assert(!in_class(CharClass::RegexDigit, '.'));
    if rest.len() > 0 {
        assert(t[p4] == rest[0]);
    }
    lemma_number_run(t, 0, a as nat);
    lemma_number_run(t, p1 + 1, b as nat);
    lemma_number_run(t, p2 + 1, c as nat);
    lemma_number_run(t, p3 + 1, d as nat);
    reveal_with_fuel(crate::text::pow10, 4);
    crate::text::lemma_nat_text_len(a as nat, 3);
    crate::text::lemma_nat_text_len(b as nat, 3);
    crate::text::lemma_nat_text_len(c as nat, 3);
    crate::text::lemma_nat_text_len(d as nat, 3);
    assert(dotted_end(t, 0) == Some(p4));
    let pred = |p: int| dotted_end(t, p) is Some;
    assert(pred(0));
    assert(first_from(t.len() as int, 0, pred) == Some(0int));
    assert(t.subrange(0, p4) =~= q);
    law_v4_text_parses(a, b, c, d);
}

/// The address in the last dotted-quad match in `s`, parsed with the rules
/// of `IpAddr::from_str`.
pub open spec fn last_ipv4(s: Seq<char>) -> Option<IpAddr> {
    match last_dotted(s, 0, None) {
        Some((p, e)) => parse_ip(s.subrange(p, e)),
        None => None,
    }
}

/// Where a dotted-quad match starting at `p` ends, if one starts there.
pub fn dotted_end_exec(s: &Vec<char>, p: usize) -> (r: Option<usize>)
    requires
        p <= s@.len(),
    ensures
        match dotted_end(s@, p as int) {
            Some(e) => r == Some(e as usize) && p < e <= s@.len(),
            None => r is None,
        },
{
    let n = s.len();
    let e1 = span(s, p, CharClass::RegexDigit);
    if !(e1 - p >= 1 && e1 - p <= 3 && e1 < n && s[e1] == '.') {
        return None;
    }
    let e2 = span(s, e1 + 1, CharClass::RegexDigit);
    if !(e2 - (e1 + 1) >= 1 && e2 - (e1 + 1) <= 3 && e2 < n && s[e2] == '.') {
        return None;
    }
    let e3 = span(s, e2 + 1, CharClass::RegexDigit);
    if !(e3 - (e2 + 1) >= 1 && e3 - (e2 + 1) <= 3 && e3 < n && s[e3] == '.') {
        return None;
    }
    let e4 = span(s, e3 + 1, CharClass::RegexDigit);
    if e4 - (e3 + 1) < 1 {
        return None;
    }
    Some(
        if e4 - (e3 + 1) > 3 {
            e3 + 4
        } else {
            e4
        },
    )
}

/// The address in the leftmost dotted-quad match in `s`.
pub fn first_ipv4_exec(s: &Vec<char>) -> (r: Option<IpAddr>)
    ensures
        r == first_ipv4(s@),
{
    let n = s.len();
    let ghost pred = |p: int| dotted_end(s@, p) is Some;
    let mut p: usize = 0;
    while p < n
        invariant
            p <= n,
            n == s@.len(),
            pred == (|p: int| dotted_end(s@, p) is Some),
            forall|q: int| 0 <= q < p ==> !#[trigger] pred(q),
        decreases n + 1 - p,
    {
        if let Some(e) = dotted_end_exec(s, p) {
            proof {
                lemma_first_from(n as int, 0, p as int, pred);
            }
            let text = sub_vec(s, p, e);
            return parse_ip_exec(&text);
        }
        p = p + 1;
    }
    assert(!pred(n as int));
    proof {
        lemma_first_from(n as int, 0, n + 1, pred);
    }
    None
}

/// The address in the last dotted-quad match in `s`.
pub fn last_ipv4_exec(s: &Vec<char>) -> (r: Option<IpAddr>)
    ensures
        r == last_ipv4(s@),
{
    let n = s.len();
    let mut found: Option<(usize, usize)> = None;
    let mut p: usize = 0;
    while p < n
        invariant
            p <= n,
            n == s@.len(),
            found matches Some((a, b)) ==> a < b <= n,
            last_dotted(s@, 0, None) == last_dotted(
                s@,
                p as int,
                match found {
                    Some((a, b)) => Some((a as int, b as int)),
                    None => None,
                },
            ),
        decreases n + 1 - p,
    {
        match dotted_end_exec(s, p) {
            Some(e) => {
                found = Some((p, e));
                p = e;
            },
            None => {
                p = p + 1;
            },
        }
    }
    assert(dotted_end(s@, n as int) is None);
    let ghost f = match found {
        Some((a, b)) => Some((a as int, b as int)),
        None => None,
    };
    assert(last_dotted(s@, n + 1, f) == f);
    assert(last_dotted(s@, n as int, f) == last_dotted(s@, n + 1, f));
    match found {
        Some((a, b)) => {
            let text = sub_vec(s, a, b);
            parse_ip_exec(&text)
        },
        None => None,
    }
}

// ---------------------------------------------------------------------
// Traceroute hop lines: `^\s*(\d+)\s+(.*)$`.

/// The hop number and the rest of a hop line: optional leading blanks, the
/// hop number (`\d+`, which must be ASCII digits worth at most `u32::MAX`),
/// at least one blank, and the rest after the blanks. `None` for any other
/// line.
pub open spec fn hop_fields(l: Seq<char>) -> Option<(u32, Seq<char>)> {
    let a = span_end(l, 0, CharClass::Space);
    let b = span_end(l, a, CharClass::RegexDigit);
    let c = span_end(l, b, CharClass::Space);
    if b > a && c > b && all_in(l.subrange(a, b), CharClass::Digit) && dec_value(
        l.subrange(a, b),
    ) <= u32::MAX {
        Some((dec_value(l.subrange(a, b)) as u32, l.subrange(c, l.len() as int)))
    } else {
        None
    }
}

/// The hop a line describes, taking the first (`last == false`) or the
/// last dotted quad of the rest of the line as the responding address.
pub open spec fn hop_of_line(l: Seq<char>, last: bool) -> Option<Hop> {
    match hop_fields(l) {
        Some((n, rest)) => Some(
            (
                n,
                if last {
                    last_ipv4(rest)
                } else {
                    first_ipv4(rest)
                },
            ),
        ),
        None => None,
    }
}

/// The hops described by the lines from position `i` on, in order.
pub open spec fn hops_from(t: Seq<char>, i: int, last: bool) -> Seq<Hop>
    decreases t.len() - i,
{
    if i < 0 || i >= t.len() {
        seq![]
    } else {
        let e = line_end(t, i);
        let rest = if i < e + 1 <= t.len() {
            hops_from(t, e + 1, last)
        } else {
            seq![]
        };
        match hop_of_line(line_at(t, i), last) {
            Some(h) => seq![h] + rest,
            None => rest,
        }
    }
}

/// The hops listed in traceroute output.
pub open spec fn traceroute_hops(t: Seq<char>, last: bool) -> Seq<Hop> {
    hops_from(t, 0, last)
}

/// A hop line made of optional leading blanks, the hop number `n` in
/// decimal, at least one blank and the rest of the line (empty or starting
/// with a non-blank) is hop `n`, with the first (or, for tracert, the last)
/// dotted quad of the rest as its address.
pub proof fn law_hop_line(n: u32, lead: nat, gap: nat, rest: Seq<char>, last: bool)
    requires
        gap >= 1,
        rest.len() == 0 || !is_space(rest[0]),
    ensures
        hop_fields(spaces(lead) + nat_text(n as nat) + spaces(gap) + rest) == Some((n, rest)),
        hop_of_line(spaces(lead) + nat_text(n as nat) + spaces(gap) + rest, last) == Some(
            (
                n,
                if last {
                    last_ipv4(rest)
                } else {
                    first_ipv4(rest)
                },
            ),
        ),
{
    let w = nat_text(n as nat);
    let l = spaces(lead) + w + spaces(gap) + rest;
    lemma_nat_text_value(n as nat);
    let a = lead as int;
    let b = a + w.len();
    let c = b + gap;
    assert forall|m: int| 0 <= m < a implies in_class(CharClass::Space, #[trigger] l[m]) by {
        assert(l[m] == ' ');
    }
    assert(l[a] == w[0]);
    assert(is_digit(w[0]));
    lemma_span_to(l, 0, a, CharClass::Space);
    assert forall|m: int| a <= m < b implies in_class(CharClass::RegexDigit, #[trigger] l[m]) by {
        assert(l[m] == w[m - a]);
        assert(is_digit(w[m - a]));
    }
    assert(l[b] == ' ');
    lemma_span_to(l, a, b, CharClass::RegexDigit);
    assert forall|m: int| b <= m < c implies in_class(CharClass::Space, #[trigger] l[m]) by {
        assert(l[m] == ' ');
    }
    if rest.len() > 0 {
        assert(l[c] == rest[0]);
    }
    lemma_span_to(l, b, c, CharClass::Space);
    assert(l.subrange(a, b) =~= w);
    assert forall|m: int| 0 <= m < w.len() implies in_class(CharClass::Digit, #[trigger] w[m]) by {}
    assert(all_in(l.subrange(a, b), CharClass::Digit));
    assert(l.subrange(c, l.len() as int) =~= rest);
}

/// A traceroute hop line "  n  a.b.c.d  ..." is hop `n` answered by the
/// address `a.b.c.d` (what follows the address must not start with a
/// digit).
pub proof fn law_hop_line_with_address(
    n: u32,
    lead: nat,
    gap: nat,
    a: u8,
    b: u8,
    c: u8,
    d: u8,
    tail: Seq<char>,
)
    requires
        gap >= 1,
        tail.len() == 0 || !crate::scan::regex_digit(tail[0]),
    ensures
        hop_of_line(
            spaces(lead) + nat_text(n as nat) + spaces(gap) + v4_text(
                a as nat,
                b as nat,
                c as nat,
                d as nat,
            ) + tail,
            false,
        ) == Some((n, Some(IpAddr::V4([a, b, c, d])))),
{
    let q = v4_text(a as nat, b as nat, c as nat, d as nat);
    lemma_nat_text_value(a as nat);
    assert((q + tail)[0] == nat_text(a as nat)[0]);
    assert(is_digit((q + tail)[0]));
    law_hop_line(n, lead, gap, q + tail, false);
    assert(spaces(lead) + nat_text(n as nat) + spaces(gap) + q + tail =~= spaces(lead) + nat_text(
        n as nat,
    ) + spaces(gap) + (q + tail));
    law_first_ipv4_leading(a, b, c, d, tail);
}

fn hop_of_line_exec(l: &Vec<char>, last: bool) -> (r: Option<Hop>)
    ensures
        r == hop_of_line(l@, last),
{
    let n = l.len();
    let a = span(l, 0, CharClass::Space);
    let b = span(l, a, CharClass::RegexDigit);
    let c = span(l, b, CharClass::Space);
    if !(b > a && c > b && all_in_exec(l, a, b, CharClass::Digit)) {
        return None;
    }
    let num = match dec_value_upto(l, a, b, 0xffff_ffff) {
        Some(v) => v as u32,
        None => return None,
    };
    let rest = sub_vec(l, c, n);
    let ip = if last {
        last_ipv4_exec(&rest)
    } else {
        first_ipv4_exec(&rest)
    };
    Some((num, ip))
}

/// The hops listed in traceroute output.
pub fn parse_hops(stdout: &str, last: bool) -> (r: Vec<Hop>)
    ensures
        r@ == traceroute_hops(stdout@, last),
{
    let t = crate::scan::chars_of(stdout);
    let n = t.len();
    let mut out: Vec<Hop> = Vec::new();
    let mut i: usize = 0;
    while i < n
        invariant
            n == t@.len(),
            t@ == stdout@,
            i <= n,
            out@ + hops_from(t@, i as int, last) == hops_from(t@, 0, last),
        decreases n - i,
    {
        let (line, e) = line_from(&t, i);
        let ghost before = out@;
        let ghost rest = if e + 1 <= n {
            hops_from(t@, e + 1, last)
        } else {
            seq![]
        };
        assert(hops_from(t@, i as int, last) == match hop_of_line(line@, last) {
            Some(h) => seq![h] + rest,
            None => rest,
        });
        if let Some(h) = hop_of_line_exec(&line, last) {
            out.push(h);
            assert(out@ + rest =~= before + (seq![h] + rest));
        }
        if e < n {
            i = e + 1;
        } else {
            assert(rest =~= hops_from(t@, n as int, last));
            i = n;
        }
    }
    assert(hops_from(t@, n as int, last) =~= seq![]);
    assert(out@ + seq![] =~= out@);
    out
}

// ---------------------------------------------------------------------
// `time=([\d.]+)\s*ms`, the reply line of iputils and BSD ping.

/// `time=` at `p`, a run of digits and points, optional blanks, then `ms`.
pub open spec fn time_eq_match_at(t: Seq<char>, p: int) -> bool {
    let e = span_end(t, p + 5, CharClass::Number);
    has_lit(t, p, seq!['t', 'i', 'm', 'e', '=']) && e > p + 5 && has_lit(
        t,
        span_end(t, e, CharClass::Space),
        seq!['m', 's'],
    )
}

/// The round-trip time in the leftmost `time=<number> ms` of the output.
pub open spec fn time_eq_rtt(t: Seq<char>) -> Option<u32> {
    match first_from(t.len() as int, 0, |p: int| time_eq_match_at(t, p)) {
        Some(p) => rtt_from_text(t.subrange(p + 5, span_end(t, p + 5, CharClass::Number))),
        None => None,
    }
}

/// The characters of a string, in a vector.
pub(crate) fn chars(lit: &str) -> (r: Vec<char>)
    ensures
        r@ == lit@,
{
    crate::scan::chars_of(lit)
}

fn time_eq_match_exec(t: &Vec<char>, p: usize, lit_time: &Vec<char>, lit_ms: &Vec<char>) -> (r:
    Option<usize>)
    requires
        p <= t@.len(),
        lit_time@ == seq!['t', 'i', 'm', 'e', '='],
        lit_ms@ == seq!['m', 's'],
    ensures
        r is Some <==> time_eq_match_at(t@, p as int),
        r matches Some(e) ==> e == span_end(t@, p + 5, CharClass::Number) && p + 5 <= e <= t@.len(),
{
    assert(lit_time@.len() == 5 && lit_ms@.len() == 2);
    if !lit_at(t, p, lit_time) {
        return None;
    }
    let n = t.len();
    assert(has_lit(t@, p as int, lit_time@));
    assert(p + 5 <= n);
    let e = span(t, p + 5, CharClass::Number);
    if e <= p + 5 {
        return None;
    }
    let w = span(t, e, CharClass::Space);
    if lit_at(t, w, lit_ms) {
        Some(e)
    } else {
        None
    }
}

/// The round-trip time in the leftmost `time=<number> ms` of the output.
pub fn time_eq_rtt_exec(t: &Vec<char>) -> (r: Option<u32>)
    ensures
        r == time_eq_rtt(t@),
{
    let lit_time: Vec<char> = vec!['t', 'i', 'm', 'e', '='];
    let lit_ms: Vec<char> = vec!['m', 's'];
    let n = t.len();
    let ghost pred = |p: int| time_eq_match_at(t@, p);
    let mut p: usize = 0;
    while p < n
        invariant
            p <= n,
            n == t@.len(),
            lit_time@ == seq!['t', 'i', 'm', 'e', '='],
            lit_ms@ == seq!['m', 's'],
            pred == (|p: int| time_eq_match_at(t@, p)),
            forall|q: int| 0 <= q < p ==> !#[trigger] pred(q),
        decreases n - p,
    {
        if let Some(e) = time_eq_match_exec(t, p, &lit_time, &lit_ms) {
            proof {
                lemma_first_from(n as int, 0, p as int, pred);
            }
            let cap = sub_vec(t, p + 5, e);
            return rtt_from_chars(&cap);
        }
        p = p + 1;
    }
    assert(!pred(n as int));
    proof {
        lemma_first_from(n as int, 0, n + 1, pred);
    }
    None
}

// ---------------------------------------------------------------------
// The first line that settles the default gateway.

/// How a line can settle the default gateway.
#[derive(Clone, Copy, Debug, PartialEq, Eq)]
pub enum GatewayRule {
    /// `via\s+(\d{1,3}\.\d{1,3}\.\d{1,3}\.\d{1,3})` with a capture that
    /// parses as an address settles it.
    Via,
    /// A line that, trimmed, starts with `gateway:` settles it with the
    /// rest, trimmed, parsed as an address (or with nothing).
    GatewayLabel,
    /// A line whose first two columns are `0.0.0.0` and whose third column
    /// parses as an address settles it.
    DefaultRoute,
}

/// End of the run of blanks that ends at `j`, scanning backwards.
pub open spec fn back_span(s: Seq<char>, j: int) -> int
    decreases j,
{
    if 0 < j <= s.len() && crate::text::is_space(s[j - 1]) {
        back_span(s, j - 1)
    } else {
        j
    }
}

/// `s` without leading and trailing `White_Space` (`str::trim`).
pub open spec fn trim(s: Seq<char>) -> Seq<char> {
    let a = span_end(s, 0, CharClass::Space);
    if a >= s.len() {
        seq![]
    } else {
        s.subrange(a, back_span(s, s.len() as int))
    }
}

/// `via` at `p`, at least one blank, then a dotted quad.
pub open spec fn via_match_at(l: Seq<char>, p: int) -> bool {
    let w = span_end(l, p + 3, CharClass::Space);
    has_lit(l, p, seq!['v', 'i', 'a']) && w > p + 3 && dotted_end(l, w) is Some
}

/// The `k`-th blank-separated column of `s` as (start, end), counting from
/// position `i` (`str::split_whitespace`).
pub open spec fn column(s: Seq<char>, i: int, k: nat) -> (int, int)
    decreases k,
{
    let a = span_end(s, i, CharClass::Space);
    let b = span_end(s, a, CharClass::NonSpace);
    if k == 0 {
        (a, b)
    } else {
        column(s, b, (k - 1) as nat)
    }
}

/// A run of class `k` ends at or after its start and, from inside the
/// text, at or before its end.
proof fn lemma_span_bounds(t: Seq<char>, i: int, k: CharClass)
    ensures
        i <= span_end(t, i, k),
        0 <= i <= t.len() ==> span_end(t, i, k) <= t.len(),
    decreases t.len() - i,
{
    if 0 <= i < t.len() && in_class(k, t[i]) {
        lemma_span_bounds(t, i + 1, k);
    }
}

/// Runs are found the same way after a prefix `w`, shifted by its length.
proof fn lemma_span_shift(w: Seq<char>, l: Seq<char>, i: int, k: CharClass)
    requires
        0 <= i,
    ensures
        span_end(w + l, i + w.len(), k) == span_end(l, i, k) + w.len(),
    decreases l.len() - i,
{
    if i < l.len() {
        assert((w + l)[i + w.len()] == l[i]);
        if in_class(k, l[i]) {
            lemma_span_shift(w, l, i + 1, k);
        }
    }
}

/// Starting a run anywhere inside a stretch of its class ends it at the
/// same place.
proof fn lemma_span_same(t: Seq<char>, i: int, j: int, k: CharClass)
    requires
        0 <= i <= j <= t.len(),
        forall|m: int| i <= m < j ==> in_class(k, #[trigger] t[m]),
    ensures
        span_end(t, i, k) == span_end(t, j, k),
    decreases j - i,
{
    if i < j {
        lemma_span_same(t, i + 1, j, k);
    }
}

/// Columns are found the same way after a prefix `w`, shifted by its
/// length, and lie within the text.
proof fn lemma_column_shift(w: Seq<char>, l: Seq<char>, i: int, k: nat)
    requires
        0 <= i <= l.len(),
    ensures
        column(w + l, i + w.len(), k) == (column(l, i, k).0 + w.len(), column(l, i, k).1
            + w.len()),
        i <= column(l, i, k).0 <= column(l, i, k).1 <= l.len(),
    decreases k,
{
    let a = span_end(l, i, CharClass::Space);
    lemma_span_bounds(l, i, CharClass::Space);
    lemma_span_shift(w, l, i, CharClass::Space);
    let b = span_end(l, a, CharClass::NonSpace);
    lemma_span_bounds(l, a, CharClass::NonSpace);
    lemma_span_shift(w, l, a, CharClass::NonSpace);
    if k > 0 {
        lemma_column_shift(w, l, b, (k - 1) as nat);
    }
}

/// Leading blanks do not count as a column (`split_whitespace`): the
/// columns of a line with blanks in front are those of the line, shifted
/// by the blanks, so the default-route rule reads both lines alike.
#[verifier::spinoff_prover]
#[verifier::rlimit(40)]
pub proof fn law_columns_ignore_leading_blanks(w: Seq<char>, l: Seq<char>, k: nat)
    requires
        forall|i: int| 0 <= i < w.len() ==> is_space(#[trigger] w[i]),
    ensures
        column(w + l, 0, k) == (column(l, 0, k).0 + w.len(), column(l, 0, k).1 + w.len()),
        settles(GatewayRule::DefaultRoute, w + l) == settles(GatewayRule::DefaultRoute, l),
{
    let t = w + l;
    let n = w.len() as int;
    assert forall|m: int| 0 <= m < n implies in_class(CharClass::Space, #[trigger] t[m]) by {
        assert(t[m] == w[m]);
    }
    lemma_span_same(t, 0, n, CharClass::Space);
    lemma_column_shift(w, l, 0, k);
    assert(column(t, 0, k) == column(t, n, k)) by {
        lemma_column_shift(w, l, 0, 0);
    }
    lemma_span_same(t, 0, n, CharClass::Space);
    lemma_column_shift(w, l, 0, 0);
    lemma_column_shift(w, l, 0, 1);
    lemma_column_shift(w, l, 0, 2);
    assert(column(t, 0, 0) == column(t, n, 0));
    assert(column(t, 0, 1) == column(t, n, 1));
    assert(column(t, 0, 2) == column(t, n, 2));
    let (a0, b0) = column(l, 0, 0);
    let (a1, b1) = column(l, 0, 1);
    let (a2, b2) = column(l, 0, 2);
    assert(t.subrange(a0 + n, b0 + n) =~= l.subrange(a0, b0));
    assert(t.subrange(a1 + n, b1 + n) =~= l.subrange(a1, b1));
    assert(t.subrange(a2 + n, b2 + n) =~= l.subrange(a2, b2));
}

/// What one line says about the default gateway under `rule`: `None` if
/// nothing, `Some(answer)` if it settles the search.
pub open spec fn settles(rule: GatewayRule, l: Seq<char>) -> Option<Option<IpAddr>> {
    match rule {
        GatewayRule::Via => match first_from(l.len() as int, 0, |p: int| via_match_at(l, p)) {
            Some(p) => {
                let w = span_end(l, p + 3, CharClass::Space);
                match dotted_end(l, w) {
                    Some(e) => match parse_ip(l.subrange(w, e)) {
                        Some(ip) => Some(Some(ip)),
                        None => None,
                    },
                    None => None,
                }
            },
            None => None,
        },
        GatewayRule::GatewayLabel => {
            let tl = trim(l);
            let label = seq!['g', 'a', 't', 'e', 'w', 'a', 'y', ':'];
            if has_lit(tl, 0, label) {
                Some(parse_ip(trim(tl.skip(8))))
            } else {
                None
            }
        },
        GatewayRule::DefaultRoute => {
            let quad_zero = seq!['0', '.', '0', '.', '0', '.', '0'];
            let (a0, b0) = column(l, 0, 0);
            let (a1, b1) = column(l, 0, 1);
            let (a2, b2) = column(l, 0, 2);
            if b2 > a2 && l.subrange(a0, b0) == quad_zero && l.subrange(a1, b1) == quad_zero {
                match parse_ip(l.subrange(a2, b2)) {
                    Some(ip) => Some(Some(ip)),
                    None => None,
                }
            } else {
                None
            }
        },
    }
}

/// The answer of the first line from `i` on that settles the search.
pub open spec fn first_settled(t: Seq<char>, i: int, rule: GatewayRule) -> Option<IpAddr>
    decreases t.len() - i,
{
    if i < 0 || i >= t.len() {
        None
    } else {
        match settles(rule, line_at(t, i)) {
            Some(answer) => answer,
            None => {
                let e = line_end(t, i);
                if i < e + 1 <= t.len() {
                    first_settled(t, e + 1, rule)
                } else {
                    None
                }
            },
        }
    }
}

/// The default gateway named in route-table output.
pub open spec fn gateway_in(t: Seq<char>, rule: GatewayRule) -> Option<IpAddr> {
    first_settled(t, 0, rule)
}

fn back_span_exec(s: &Vec<char>, j: usize) -> (r: usize)
    requires
        j <= s@.len(),
    ensures
        r == back_span(s@, j as int),
        r <= j,
{
    let mut k = j;
    while k > 0 && crate::text::space_char(s[k - 1])
        invariant
            k <= j <= s@.len(),
            back_span(s@, j as int) == back_span(s@, k as int),
        decreases k,
    {
        k = k - 1;
    }
    k
}

/// `s` without leading and trailing `White_Space`.
pub fn trim_exec(s: &Vec<char>) -> (r: Vec<char>)
    ensures
        r@ == trim(s@),
{
    let a = span(s, 0, CharClass::Space);
    if a >= s.len() {
        assert(Seq::<char>::empty() =~= seq![]);
        return Vec::new();
    }
    let b = back_span_exec(s, s.len());
    proof {
        lemma_back_span_after(s@, s@.len() as int, a as int);
    }
    sub_vec(s, a, b)
}

proof fn lemma_back_span_after(s: Seq<char>, j: int, a: int)
    requires
        0 <= a < j <= s.len(),
        !crate::text::is_space(s[a]),
    ensures
        a < back_span(s, j),
    decreases j,
{
    if j - 1 > a && crate::text::is_space(s[j - 1]) {
        lemma_back_span_after(s, j - 1, a);
    }
}

fn column_exec(s: &Vec<char>, i: usize, k: usize) -> (r: (usize, usize))
    requires
        i <= s@.len(),
    ensures
        (r.0 as int, r.1 as int) == column(s@, i as int, k as nat),
        r.0 <= r.1 <= s@.len(),
    decreases k,
{
    let a = span(s, i, CharClass::Space);
    let b = span(s, a, CharClass::NonSpace);
    if k == 0 {
        (a, b)
    } else {
        column_exec(s, b, k - 1)
    }
}

fn is_quad_zero(s: &Vec<char>, a: usize, b: usize) -> (r: bool)
    requires
        a <= b <= s@.len(),
    ensures
        r == (s@.subrange(a as int, b as int) == seq!['0', '.', '0', '.', '0', '.', '0']),
{
    let z: Vec<char> = vec!['0', '.', '0', '.', '0', '.', '0'];
    if b - a != 7 {
        assert(s@.subrange(a as int, b as int).len() != seq!['0', '.', '0', '.', '0', '.', '0'].len());
        return false;
    }
    let r = lit_at(s, a, &z);
    assert(r == (s@.subrange(a as int, b as int) == z@));
    r
}

fn settles_via(l: &Vec<char>) -> (r: Option<Option<IpAddr>>)
    ensures
        r == settles(GatewayRule::Via, l@),
{
    let lit_via: Vec<char> = vec!['v', 'i', 'a'];
    let n = l.len();
    let ghost pred = |p: int| via_match_at(l@, p);
    let mut p: usize = 0;
    while p < n
        invariant
            p <= n,
            n == l@.len(),
            lit_via@ == seq!['v', 'i', 'a'],
            pred == (|p: int| via_match_at(l@, p)),
            forall|q: int| 0 <= q < p ==> !#[trigger] pred(q),
        decreases n - p,
    {
        assert(lit_via@.len() == 3);
        if lit_at(l, p, &lit_via) {
            let w = span(l, p + 3, CharClass::Space);
            if w > p + 3 {
                if let Some(e) = dotted_end_exec(l, w) {
                    assert(pred(p as int));
                    proof {
                        lemma_first_from(n as int, 0, p as int, pred);
                    }
                    assert(first_from(l@.len() as int, 0, |p: int| via_match_at(l@, p)) == Some(
                        p as int,
                    ));
                    assert(dotted_end(l@, w as int) == Some(e as int));
                    let cap = sub_vec(l, w, e);
                    return match parse_ip_exec(&cap) {
                        Some(ip) => Some(Some(ip)),
                        None => None,
                    };
                }
            }
        }
        p = p + 1;
    }
    assert(!pred(n as int));
    proof {
        lemma_first_from(n as int, 0, n + 1, pred);
    }
    None
}

fn settles_label(l: &Vec<char>) -> (r: Option<Option<IpAddr>>)
    ensures
        r == settles(GatewayRule::GatewayLabel, l@),
{
    let tl = trim_exec(l);
    let label: Vec<char> = vec!['g', 'a', 't', 'e', 'w', 'a', 'y', ':'];
    if lit_at(&tl, 0, &label) {
        let rest = sub_vec(&tl, 8, tl.len());
        assert(rest@ =~= tl@.skip(8));
        let cand = trim_exec(&rest);
        Some(parse_ip_exec(&cand))
    } else {
        None
    }
}

#[verifier::spinoff_prover]
#[verifier::rlimit(40)]
fn settles_default_route(l: &Vec<char>) -> (r: Option<Option<IpAddr>>)
    ensures
        r == settles(GatewayRule::DefaultRoute, l@),
{
    let (a0, b0) = column_exec(l, 0, 0);
    let (a1, b1) = column_exec(l, 0, 1);
    let (a2, b2) = column_exec(l, 0, 2);
    if b2 > a2 && is_quad_zero(l, a0, b0) && is_quad_zero(l, a1, b1) {
        let cand = sub_vec(l, a2, b2);
        match parse_ip_exec(&cand) {
            Some(ip) => Some(Some(ip)),
            None => None,
        }
    } else {
        None
    }
}

/// What one line says about the default gateway under `rule`.
pub fn settles_exec(rule: GatewayRule, l: &Vec<char>) -> (r: Option<Option<IpAddr>>)
    ensures
        r == settles(rule, l@),
{
    match rule {
        GatewayRule::Via => settles_via(l),
        GatewayRule::GatewayLabel => settles_label(l),
        GatewayRule::DefaultRoute => settles_default_route(l),
    }
}

/// The default gateway named in route-table output.
pub fn find_gateway(stdout: &str, rule: GatewayRule) -> (r: Option<IpAddr>)
    ensures
        r == gateway_in(stdout@, rule),
{
    let t = crate::scan::chars_of(stdout);
    let n = t.len();
    let mut i: usize = 0;
    while i < n
        invariant
            n == t@.len(),
            t@ == stdout@,
            i <= n,
            first_settled(t@, 0, rule) == first_settled(t@, i as int, rule),
        decreases n - i,
    {
        let (line, e) = line_from(&t, i);
        if let Some(answer) = settles_exec(rule, &line) {
            return answer;
        }
        if e < n {
            i = e + 1;
        } else {
            return None;
        }
    }
    None
}

// ---------------------------------------------------------------------
// Command lines.

/// A program and its arguments, ready to be spawned.
pub struct CommandLine {
    pub program: String,
    pub args: Vec<String>,
}

/// The texts of a list of strings.
pub open spec fn texts(v: Seq<String>) -> Seq<Seq<char>> {
    v.map_values(|a: String| a@)
}

/// A new string with the given text.
pub fn owned(t: &str) -> (r: String)
    ensures
        r@ == t@,
{
    let mut s = String::new();
    crate::text::push_str(&mut s, t);
    assert(s@ =~= t@);
    s
}

/// A command line from a program and five arguments.
pub fn command5(program: &str, a: String, b: String, c: String, d: String, e: String) -> (r:
    CommandLine)
    ensures
        r.program@ == program@,
        texts(r.args@) == seq![a@, b@, c@, d@, e@],
{
    let ghost views = seq![a@, b@, c@, d@, e@];
    let mut args: Vec<String> = Vec::new();
    args.push(a);
    args.push(b);
    args.push(c);
    args.push(d);
    args.push(e);
    assert(texts(args@) =~= views);
    CommandLine { program: owned(program), args }
}

/// A command line from a program and eight arguments.
pub fn command8(
    program: &str,
    a: String,
    b: String,
    c: String,
    d: String,
    e: String,
    f: String,
    g: String,
    h: String,
) -> (r: CommandLine)
    ensures
        r.program@ == program@,
        texts(r.args@) == seq![a@, b@, c@, d@, e@, f@, g@, h@],
{
    let ghost views = seq![a@, b@, c@, d@, e@, f@, g@, h@];
    let mut args: Vec<String> = Vec::new();
    args.push(a);
    args.push(b);
    args.push(c);
    args.push(d);
    args.push(e);
    args.push(f);
    args.push(g);
    args.push(h);
    assert(texts(args@) =~= views);
    CommandLine { program: owned(program), args }
}

/// A timeout of `secs` seconds and `nanos` nanoseconds in whole
/// milliseconds, truncated to 64 bits (`Duration::as_millis() as u64`).
pub open spec fn timeout_millis(secs: u64, nanos: u32) -> nat {
    ((secs * 1000 + nanos / 1_000_000) % 0x1_0000_0000_0000_0000) as nat
}

/// `timeout_millis`, raised to at least 100.
pub open spec fn timeout_millis_floor(secs: u64, nanos: u32) -> nat {
    if timeout_millis(secs, nanos) < 100 {
        100
    } else {
        timeout_millis(secs, nanos)
    }
}

/// `timeout_millis_floor` as text.
pub fn timeout_millis_text(secs: u64, nanos: u32) -> (r: String)
    ensures
        r@ == crate::text::nat_text(timeout_millis_floor(secs, nanos)),
{
    let total: u128 = (secs as u128) * 1000 + (nanos as u128) / 1_000_000;
    let ms = (total % 0x1_0000_0000_0000_0000) as u64;
    let ms = if ms < 100 {
        100
    } else {
        ms
    };
    crate::text::decimal_string(ms as u128)
}

/// Seconds a whole traceroute may take: one wait per hop plus 10 seconds.
pub fn traceroute_deadline_secs(max_hops: u32, wait_secs: u32) -> (r: u64)
    requires
        max_hops * wait_secs <= u32::MAX,
    ensures
        r == max_hops * wait_secs + 10,
{
    (max_hops * wait_secs) as u64 + 10
}

} // verus!
