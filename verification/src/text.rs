//! Character classes, decimal text and column padding shared by the parsers
//! and the report formatters.
use vstd::prelude::*;
use vstd::string::StrSliceExecFns;

verus! {

/// An ASCII decimal digit.
pub open spec fn is_digit(c: char) -> bool {
    '0' <= c && c <= '9'
}

/// The value of an ASCII decimal digit.
pub open spec fn digit_value(c: char) -> nat {
    (c as int - 48) as nat
}

/// Unicode `White_Space`: the characters that `char::is_whitespace`,
/// `str::trim` and the `\s` class accept.
pub open spec fn is_space(c: char) -> bool {
    ||| ('\t' <= c && c <= '\r')
    ||| c == ' '
    ||| c == '\u{85}'
    ||| c == '\u{a0}'
    ||| c == '\u{1680}'
    ||| ('\u{2000}' <= c && c <= '\u{200a}')
    ||| c == '\u{2028}'
    ||| c == '\u{2029}'
    ||| c == '\u{202f}'
    ||| c == '\u{205f}'
    ||| c == '\u{3000}'
}

/// Whether `c` is an ASCII digit.
pub fn digit_char_of(c: char) -> (r: bool)
    ensures
        r == is_digit(c),
{
    '0' <= c && c <= '9'
}

/// Whether `c` is Unicode white space.
pub fn space_char(c: char) -> (r: bool)
    ensures
        r == is_space(c),
{
    ('\t' <= c && c <= '\r') || c == ' ' || c == '\u{85}' || c == '\u{a0}' || c == '\u{1680}'
        || ('\u{2000}' <= c && c <= '\u{200a}') || c == '\u{2028}' || c == '\u{2029}' || c
        == '\u{202f}' || c == '\u{205f}' || c == '\u{3000}'
}

/// The character for a decimal digit `d < 10`.
pub open spec fn digit_char(d: nat) -> char {
    (48 + d) as char
}

/// Decimal text of a natural number, most significant digit first, no
/// leading zeros (and "0" for zero).
pub open spec fn nat_text(n: nat) -> Seq<char>
    decreases n,
{
    if n < 10 {
        seq![digit_char(n)]
    } else {
        nat_text(n / 10).push(digit_char(n % 10))
    }
}

/// `num / den` rounded to the nearest integer, ties to the even neighbour
/// (the rounding that `{:.1}` applies to an exactly representable tie).
pub open spec fn round_half_even(num: nat, den: nat) -> nat
    recommends
        den > 0,
{
    let q = num / den;
    let r = num % den;
    if 2 * r > den {
        q + 1
    } else if 2 * r < den {
        q
    } else if q % 2 == 0 {
        q
    } else {
        q + 1
    }
}

/// Text of a count of tenths `t` with one decimal: `t = 125` gives "12.5".
pub open spec fn tenths_text(t: nat) -> Seq<char> {
    nat_text(t / 10) + seq!['.', digit_char(t % 10)]
}

/// `n` spaces.
pub open spec fn spaces(n: nat) -> Seq<char> {
    Seq::new(n, |i: int| ' ')
}

/// `t` followed by spaces up to `width` characters (`{:<width}`).
pub open spec fn pad_right(t: Seq<char>, width: nat) -> Seq<char> {
    if t.len() < width {
        t + spaces((width - t.len()) as nat)
    } else {
        t
    }
}

/// `t` preceded by spaces up to `width` characters (`{:>width}`).
pub open spec fn pad_left(t: Seq<char>, width: nat) -> Seq<char> {
    if t.len() < width {
        spaces((width - t.len()) as nat) + t
    } else {
        t
    }
}

/// The pieces joined with `sep` between neighbours.
pub open spec fn join(parts: Seq<Seq<char>>, sep: Seq<char>) -> Seq<char>
    decreases parts.len(),
{
    if parts.len() == 0 {
        seq![]
    } else if parts.len() == 1 {
        parts[0]
    } else {
        join(parts.drop_last(), sep) + sep + parts.last()
    }
}

/// `10` to the power `k`.
pub open spec fn pow10(k: nat) -> nat
    decreases k,
{
    if k == 0 {
        1
    } else {
        10 * pow10((k - 1) as nat)
    }
}

/// A number below `10^k` (with `k >= 1`) takes at most `k` digits.
pub proof fn lemma_nat_text_len(n: nat, k: nat)
    requires
        k >= 1,
        n < pow10(k),
    ensures
        nat_text(n).len() <= k,
    decreases k,
{
    if n >= 10 {
        let p = pow10((k - 1) as nat);
        if k == 1 {
            assert(false);
        }
        assert(n / 10 < p) by (nonlinear_arith)
            requires
                n < 10 * p,
        ;
        lemma_nat_text_len(n / 10, (k - 1) as nat);
    }
}

/// The decimal text of a number holds no line feed.
pub proof fn lemma_nat_text_no_newline(n: nat)
    ensures
        forall|i: int| 0 <= i < nat_text(n).len() ==> #[trigger] nat_text(n)[i] != '\n',
    decreases n,
{
    if n >= 10 {
        lemma_nat_text_no_newline(n / 10);
        assert(digit_char(n % 10) != '\n');
        let a = nat_text(n / 10);
        assert forall|i: int| 0 <= i < nat_text(n).len() implies #[trigger] nat_text(n)[i] != '\n' by {
            if i < a.len() {
                assert(nat_text(n)[i] == a[i]);
            }
        }
    } else {
        assert(digit_char(n) != '\n');
    }
}

/// `s` holds no line feed.
pub open spec fn no_newline(s: Seq<char>) -> bool {
    forall|i: int| 0 <= i < s.len() ==> #[trigger] s[i] != '\n'
}

/// Joining two texts without line feeds gives one without line feeds.
pub proof fn lemma_cat_no_newline(a: Seq<char>, b: Seq<char>)
    requires
        no_newline(a),
        no_newline(b),
    ensures
        no_newline(a + b),
{
    assert forall|i: int| 0 <= i < (a + b).len() implies #[trigger] (a + b)[i] != '\n' by {
        if i >= a.len() {
            assert((a + b)[i] == b[i - a.len()]);
        } else {
            assert((a + b)[i] == a[i]);
        }
    }
}

/// Padding keeps a text free of line feeds, and gives it the width when it
/// was no wider.
pub proof fn lemma_pad(t: Seq<char>, width: nat)
    ensures
        no_newline(t) ==> no_newline(pad_left(t, width)) && no_newline(pad_right(t, width)),
        t.len() <= width ==> pad_left(t, width).len() == width && pad_right(t, width).len()
            == width,
{
    if t.len() < width {
        let sp = spaces((width - t.len()) as nat);
        assert forall|i: int| 0 <= i < sp.len() implies #[trigger] sp[i] != '\n' by {}
        if no_newline(t) {
            assert forall|i: int| 0 <= i < (sp + t).len() implies #[trigger] (sp + t)[i] != '\n' by {
                if i >= sp.len() {
                    assert((sp + t)[i] == t[i - sp.len()]);
                }
            }
            assert forall|i: int| 0 <= i < (t + sp).len() implies #[trigger] (t + sp)[i] != '\n' by {
                if i >= t.len() {
                    assert((t + sp)[i] == sp[i - t.len()]);
                }
            }
        }
    }
}

/// A one-decimal text holds no line feed and has two characters more than
/// its whole part.
pub proof fn lemma_tenths_text(t: nat)
    ensures
        no_newline(tenths_text(t)),
        tenths_text(t).len() == nat_text(t / 10).len() + 2,
{
    lemma_nat_text_no_newline(t / 10);
    let a = nat_text(t / 10);
    let b = seq!['.', digit_char(t % 10)];
    assert(digit_char(t % 10) != '\n');
    assert forall|i: int| 0 <= i < (a + b).len() implies #[trigger] (a + b)[i] != '\n' by {
        if i >= a.len() {
            assert((a + b)[i] == b[i - a.len()]);
        }
    }
}

/// Appends one character to a string.
#[verifier::external_body]
pub(crate) fn push_char(s: &mut String, c: char)
    ensures
        final(s)@ == old(s)@.push(c),
{
    s.push(c);
}

/// Appends a string slice to a string.
pub(crate) fn push_str(s: &mut String, t: &str)
    ensures
        final(s)@ == old(s)@ + t@,
{
    s.append(t);
}

/// The character of the decimal digit `d`.
pub(crate) fn digit_to_char(d: u8) -> (c: char)
    requires
        d < 10,
    ensures
        c == digit_char(d as nat),
{
    (48u8 + d) as char
}

/// Appends the decimal text of `n`.
pub fn push_decimal(s: &mut String, n: u128)
    ensures
        final(s)@ == old(s)@ + nat_text(n as nat),
    decreases n,
{
    if n < 10 {
        push_char(s, digit_to_char(n as u8));
    } else {
        push_decimal(s, n / 10);
        push_char(s, digit_to_char((n % 10) as u8));
    }
}

/// Decimal text of `n` as a new string.
pub fn decimal_string(n: u128) -> (r: String)
    ensures
        r@ == nat_text(n as nat),
{
    let mut s = String::new();
    push_decimal(&mut s, n);
    assert(s@ =~= nat_text(n as nat));
    s
}

/// `num / den` rounded half to even.
pub fn round_half_even_exec(num: u128, den: u128) -> (r: u128)
    requires
        den > 0,
    ensures
        r == round_half_even(num as nat, den as nat),
{
    let q = num / den;
    let r = num % den;
    assert(q <= num) by (nonlinear_arith)
        requires
            den > 0,
            q == num / den,
    ;
    assert(q < u128::MAX || r == 0) by (nonlinear_arith)
        requires
            den > 0,
            q == num / den,
            r == num % den,
            num <= u128::MAX,
    ;
    if r > den - r {
        q + 1
    } else if r < den - r {
        q
    } else if q % 2 == 0 {
        q
    } else {
        q + 1
    }
}

/// Appends `t` tenths with one decimal ("12.5" for 125).
pub fn push_tenths(s: &mut String, t: u128)
    ensures
        final(s)@ == old(s)@ + tenths_text(t as nat),
{
    push_decimal(s, t / 10);
    push_char(s, '.');
    push_char(s, digit_to_char((t % 10) as u8));
    assert(final(s)@ =~= old(s)@ + tenths_text(t as nat)) by {
        assert(nat_text((t / 10) as nat) + seq!['.', digit_char((t % 10) as nat)]
            =~= nat_text((t / 10) as nat).push('.').push(digit_char((t % 10) as nat)));
    }
}

/// Number of characters of a string slice.
pub fn char_count(t: &str) -> (n: usize)
    ensures
        n == t@.len(),
{
    t.unicode_len()
}

/// Appends `n` spaces.
pub fn push_spaces(s: &mut String, n: usize)
    ensures
        final(s)@ == old(s)@ + spaces(n as nat),
{
    let ghost start = s@;
    let mut i: usize = 0;
    while i < n
        invariant
            i <= n,
            s@ == start + spaces(i as nat),
        decreases n - i,
    {
        push_char(s, ' ');
        assert(start + spaces((i + 1) as nat) =~= (start + spaces(i as nat)).push(' '));
        i = i + 1;
    }
}

/// Appends `t` left-aligned in a column of `width` characters.
pub fn push_left_aligned(s: &mut String, t: &str, width: usize)
    ensures
        final(s)@ == old(s)@ + pad_right(t@, width as nat),
{
    let n = char_count(t);
    push_str(s, t);
    if n < width {
        push_spaces(s, width - n);
        assert(final(s)@ =~= old(s)@ + pad_right(t@, width as nat));
    }
}

/// Appends `t` right-aligned in a column of `width` characters.
pub fn push_right_aligned(s: &mut String, t: &str, width: usize)
    ensures
        final(s)@ == old(s)@ + pad_left(t@, width as nat),
{
    let n = char_count(t);
    if n < width {
        push_spaces(s, width - n);
    }
    push_str(s, t);
    assert(final(s)@ =~= old(s)@ + pad_left(t@, width as nat));
}

} // verus!
