//! IP addresses as text: parsing with the rules of `IpAddr::from_str` and
//! printing with the rules of `IpAddr`'s `Display`.
use vstd::prelude::*;
use crate::scan::{
    CharClass, span, span_end, dec_value, hex_run_value, hex_value, dec_value_upto, all_in,
    in_class, has_lit, is_hex, lemma_span_to, lemma_nat_text_value,
};
use crate::text::{is_digit, digit_value, nat_text, digit_char, join, push_char, push_decimal, push_str};

verus! {

/// An IPv4 or IPv6 address.
#[derive(Clone, Copy, Debug, PartialEq, Eq)]
pub enum IpAddr {
    V4([u8; 4]),
    V6([u16; 8]),
}

/// One IPv4 octet at `i`: a maximal run of one to three digits, without a
/// leading zero unless it is the only digit, of value at most 255.
pub open spec fn read_octet(s: Seq<char>, i: int) -> Option<(u8, int)> {
    let e = span_end(s, i, CharClass::Digit);
    if 1 <= e - i <= 3 && !(e - i > 1 && s[i] == '0') && dec_value(s.subrange(i, e)) <= 255 {
        Some((dec_value(s.subrange(i, e)) as u8, e))
    } else {
        None
    }
}

/// A dotted-quad IPv4 address starting at `i`, and where it ends.
pub open spec fn read_v4(s: Seq<char>, i: int) -> Option<(Seq<u8>, int)> {
    match read_octet(s, i) {
        None => None,
        Some((a, e1)) => if !(e1 < s.len() && s[e1] == '.') {
            None
        } else {
            match read_octet(s, e1 + 1) {
                None => None,
                Some((b, e2)) => if !(e2 < s.len() && s[e2] == '.') {
                    None
                } else {
                    match read_octet(s, e2 + 1) {
                        None => None,
                        Some((c, e3)) => if !(e3 < s.len() && s[e3] == '.') {
                            None
                        } else {
                            match read_octet(s, e3 + 1) {
                                None => None,
                                Some((d, e4)) => Some((seq![a, b, c, d], e4)),
                            }
                        },
                    }
                },
            }
        },
    }
}

/// One IPv6 group at `i`: a maximal run of one to four hex digits.
pub open spec fn read_hex_group(s: Seq<char>, i: int) -> Option<(u16, int)> {
    let e = span_end(s, i, CharClass::Hex);
    if 1 <= e - i <= 4 {
        Some((hex_run_value(s.subrange(i, e)) as u16, e))
    } else {
        None
    }
}

/// Reads up to `limit - i` more colon-separated groups starting at `pos`
/// (group `i` of the part being read); a dotted-quad IPv4 address may take
/// the place of the last two groups. Gives the groups read, whether they
/// ended with an IPv4 address, and where reading stopped.
pub open spec fn read_groups(s: Seq<char>, pos: int, i: nat, limit: nat) -> (Seq<u16>, bool, int)
    decreases limit - i,
{
    if i >= limit {
        (seq![], false, pos)
    } else {
        let sep_ok = i == 0 || (0 <= pos < s.len() && s[pos] == ':');
        let start = if i == 0 {
            pos
        } else {
            pos + 1
        };
        if sep_ok && i + 1 < limit && read_v4(s, start) is Some {
            match read_v4(s, start) {
                Some((o, e)) => (
                    seq![(o[0] * 256 + o[1]) as u16, (o[2] * 256 + o[3]) as u16],
                    true,
                    e,
                ),
                None => (seq![], false, pos),
            }
        } else if sep_ok && read_hex_group(s, start) is Some {
            match read_hex_group(s, start) {
                Some((g, e)) => {
                    let (rest, v4, end) = read_groups(s, e, i + 1, limit);
                    (seq![g] + rest, v4, end)
                },
                None => (seq![], false, pos),
            }
        } else {
            (seq![], false, pos)
        }
    }
}

/// An IPv6 address at the start of `s`: eight groups, or fewer groups
/// around one `::` that stands for at least one zero group.
pub open spec fn read_v6(s: Seq<char>) -> Option<(Seq<u16>, int)> {
    let (head, head_v4, p1) = read_groups(s, 0, 0, 8);
    if head.len() == 8 {
        Some((head, p1))
    } else if head_v4 {
        None
    } else if has_lit(s, p1, seq![':', ':']) {
        let limit = (8 - (head.len() + 1)) as nat;
        let (tail, v4, p3) = read_groups(s, p1 + 2, 0, limit);
        Some((head + Seq::new((8 - head.len() - tail.len()) as nat, |i: int| 0u16) + tail, p3))
    } else {
        None
    }
}

/// The IPv4 address with the four octets of `o`.
pub open spec fn v4_of(o: Seq<u8>) -> IpAddr {
    IpAddr::V4([o[0], o[1], o[2], o[3]])
}

/// The IPv6 address with the eight groups of `g`.
pub open spec fn v6_of(g: Seq<u16>) -> IpAddr {
    IpAddr::V6([g[0], g[1], g[2], g[3], g[4], g[5], g[6], g[7]])
}

/// The address that `IpAddr::from_str` reads from the whole of `s`: an
/// IPv4 address is tried first, and if one is read the text must end there.
pub open spec fn parse_ip(s: Seq<char>) -> Option<IpAddr> {
    match read_v4(s, 0) {
        Some((o, e)) => if e == s.len() {
            Some(v4_of(o))
        } else {
            None
        },
        None => match read_v6(s) {
            Some((g, e)) => if e == s.len() {
                Some(v6_of(g))
            } else {
                None
            },
            None => None,
        },
    }
}

fn read_octet_exec(s: &Vec<char>, i: usize) -> (r: Option<(u8, usize)>)
    requires
        i <= s@.len(),
    ensures
        match r {
            Some((v, e)) => read_octet(s@, i as int) == Some((v, e as int)),
            None => read_octet(s@, i as int) is None,
        },
        r matches Some((_, e)) ==> i < e <= s@.len(),
{
    let e = span(s, i, CharClass::Digit);
    if e - i < 1 || e - i > 3 {
        return None;
    }
    if e - i > 1 && s[i] == '0' {
        return None;
    }
    assert(all_in(s@.subrange(i as int, e as int), CharClass::Digit)) by {
        assert forall|k: int| 0 <= k < e - i implies in_class(
            CharClass::Digit,
            #[trigger] s@.subrange(i as int, e as int)[k],
        ) by {
            assert(s@.subrange(i as int, e as int)[k] == s@[i + k]);
        }
    }
    match dec_value_upto(s, i, e, 255) {
        Some(v) => Some((v as u8, e)),
        None => None,
    }
}

fn read_v4_exec(s: &Vec<char>, i: usize) -> (r: Option<([u8; 4], usize)>)
    requires
        i <= s@.len(),
    ensures
        match read_v4(s@, i as int) {
            Some((o, e)) => r matches Some((a, f)) && a@ == o && f == e && f <= s@.len(),
            None => r is None,
        },
{
    let n = s.len();
    let (a, e1) = match read_octet_exec(s, i) {
        Some(x) => x,
        None => return None,
    };
    if !(e1 < n && s[e1] == '.') {
        return None;
    }
    let (b, e2) = match read_octet_exec(s, e1 + 1) {
        Some(x) => x,
        None => return None,
    };
    if !(e2 < n && s[e2] == '.') {
        return None;
    }
    let (c, e3) = match read_octet_exec(s, e2 + 1) {
        Some(x) => x,
        None => return None,
    };
    if !(e3 < n && s[e3] == '.') {
        return None;
    }
    let (d, e4) = match read_octet_exec(s, e3 + 1) {
        Some(x) => x,
        None => return None,
    };
    let arr = [a, b, c, d];
    assert(arr@ =~= seq![a, b, c, d]);
    Some((arr, e4))
}

fn hex_digit_value(c: char) -> (r: u32)
    requires
        is_hex(c),
    ensures
        r == hex_value(c),
        r < 16,
{
    if '0' <= c && c <= '9' {
        c as u32 - 48
    } else if 'a' <= c && c <= 'f' {
        c as u32 - 87
    } else {
        c as u32 - 55
    }
}

fn read_hex_group_exec(s: &Vec<char>, i: usize) -> (r: Option<(u16, usize)>)
    requires
        i <= s@.len(),
    ensures
        match r {
            Some((v, e)) => read_hex_group(s@, i as int) == Some((v, e as int)),
            None => read_hex_group(s@, i as int) is None,
        },
        r matches Some((_, e)) ==> i < e <= s@.len(),
{
    let e = span(s, i, CharClass::Hex);
    if e - i < 1 || e - i > 4 {
        return None;
    }
    let mut acc: u32 = 0;
    let mut k = i;
    while k < e
        invariant
            i <= k <= e <= s@.len(),
            e - i <= 4,
            forall|j: int| i <= j < e ==> in_class(CharClass::Hex, #[trigger] s@[j]),
            acc == hex_run_value(s@.subrange(i as int, k as int)),
            acc < pow16((k - i) as nat),
        decreases e - k,
    {
        assert(s@.subrange(i as int, k + 1).drop_last() =~= s@.subrange(i as int, k as int));
        let d = hex_digit_value(s[k]);
        proof {
            lemma_pow16_mono((k - i) as nat, 3);
            reveal_with_fuel(pow16, 4);
        }
        assert(acc < 4096);
        assert(pow16((k + 1 - i) as nat) == 16 * pow16((k - i) as nat));
        acc = acc * 16 + d;
        k = k + 1;
    }
    proof {
        lemma_pow16_mono((e - i) as nat, 4);
        reveal_with_fuel(pow16, 5);
    }
    assert(acc < 65536);
    Some((acc as u16, e))
}

/// `16` to the power `k`.
pub open spec fn pow16(k: nat) -> nat
    decreases k,
{
    if k == 0 {
        1
    } else {
        16 * pow16((k - 1) as nat)
    }
}

proof fn lemma_pow16_mono(a: nat, b: nat)
    requires
        a <= b,
    ensures
        pow16(a) <= pow16(b),
    decreases b - a,
{
    if a < b {
        lemma_pow16_mono(a, (b - 1) as nat);
    }
}

fn read_groups_exec(s: &Vec<char>, pos: usize, i: usize, limit: usize) -> (r: (Vec<u16>, bool, usize))
    requires
        pos <= s@.len(),
        limit <= 8,
    ensures
        (r.0@, r.1, r.2 as int) == read_groups(s@, pos as int, i as nat, limit as nat),
        r.2 <= s@.len(),
        i <= limit ==> r.0@.len() <= limit - i,
    decreases limit - i,
{
    if i >= limit {
        assert(Seq::<u16>::empty() =~= seq![]);
        return (Vec::new(), false, pos);
    }
    let n = s.len();
    let sep_ok = i == 0 || (pos < n && s[pos] == ':');
    let start = if i == 0 {
        pos
    } else if pos < n {
        pos + 1
    } else {
        pos
    };
    if sep_ok && i + 1 < limit {
        if let Some((o, e)) = read_v4_exec(s, start) {
            let hi = (o[0] as u16) * 256 + o[1] as u16;
            let lo = (o[2] as u16) * 256 + o[3] as u16;
            let mut v = Vec::new();
            v.push(hi);
            v.push(lo);
            assert(v@ =~= seq![(o@[0] * 256 + o@[1]) as u16, (o@[2] * 256 + o@[3]) as u16]);
            return (v, true, e);
        }
    }
    if sep_ok {
        if let Some((g, e)) = read_hex_group_exec(s, start) {
            let (mut rest, v4, end) = read_groups_exec(s, e, i + 1, limit);
            let ghost rest0 = rest@;
            rest.insert(0, g);
            assert(rest@ =~= seq![g] + rest0);
            return (rest, v4, end);
        }
    }
    assert(Seq::<u16>::empty() =~= seq![]);
    (Vec::new(), false, pos)
}

fn read_v6_exec(s: &Vec<char>) -> (r: Option<([u16; 8], usize)>)
    ensures
        match read_v6(s@) {
            Some((g, e)) => r matches Some((a, f)) && a@ == g && f == e,
            None => r is None,
        },
{
    let (head, head_v4, p1) = read_groups_exec(s, 0, 0, 8);
    assert(s@.len() >= 0);
    if head.len() == 8 {
        let a = [head[0], head[1], head[2], head[3], head[4], head[5], head[6], head[7]];
        assert(a@ =~= head@);
        return Some((a, p1));
    }
    if head_v4 {
        return None;
    }
    let n = s.len();
    if !(n - p1 >= 2 && s[p1] == ':' && s[p1 + 1] == ':') {
        assert(!has_lit(s@, p1 as int, seq![':', ':'])) by {
            if has_lit(s@, p1 as int, seq![':', ':']) {
                assert(s@.subrange(p1 as int, p1 + 2)[0] == ':');
                assert(s@.subrange(p1 as int, p1 + 2)[1] == ':');
            }
        }
        return None;
    }
    assert(has_lit(s@, p1 as int, seq![':', ':'])) by {
        assert(s@.subrange(p1 as int, p1 + 2) =~= seq![':', ':']);
    }
    let limit = 8 - (head.len() + 1);
    let (tail, _, p3) = read_groups_exec(s, p1 + 2, 0, limit);
    let hl = head.len();
    let tl = tail.len();
    let mut a: [u16; 8] = [0; 8];
    let mut k: usize = 0;
    while k < hl
        invariant
            k <= hl,
            hl == head@.len(),
            hl + tl <= 7,
            tl == tail@.len(),
            forall|j: int| 0 <= j < k ==> a@[j] == head@[j],
            forall|j: int| hl <= j < 8 - tl ==> a@[j] == 0,
            a@.len() == 8,
        decreases hl - k,
    {
        a[k] = head[k];
        k = k + 1;
    }
    let mut k: usize = 0;
    while k < tl
        invariant
            k <= tl,
            hl == head@.len(),
            hl + tl <= 7,
            tl == tail@.len(),
            forall|j: int| 0 <= j < hl ==> a@[j] == head@[j],
            forall|j: int| hl <= j < 8 - tl ==> a@[j] == 0,
            forall|j: int| 0 <= j < k ==> a@[8 - tl + j] == tail@[j],
            a@.len() == 8,
        decreases tl - k,
    {
        a[8 - tl + k] = tail[k];
        k = k + 1;
    }
    assert(a@ =~= head@ + Seq::new((8 - hl - tl) as nat, |i: int| 0u16) + tail@);
    Some((a, p3))
}

/// Parses an IPv4 or IPv6 address with the rules of `IpAddr::from_str`.
pub fn parse_ip_exec(s: &Vec<char>) -> (r: Option<IpAddr>)
    ensures
        r == parse_ip(s@),
{
    match read_v4_exec(s, 0) {
        Some((o, e)) => {
            if e == s.len() {
                assert(IpAddr::V4(o) == v4_of(o@)) by {
                    assert(o == [o@[0], o@[1], o@[2], o@[3]]);
                }
                Some(IpAddr::V4(o))
            } else {
                None
            }
        },
        None => match read_v6_exec(s) {
            Some((g, e)) => {
                if e == s.len() {
                    assert(g == [g@[0], g@[1], g@[2], g@[3], g@[4], g@[5], g@[6], g@[7]]);
                    Some(IpAddr::V6(g))
                } else {
                    None
                }
            },
            None => None,
        },
    }
}

impl IpAddr {
    /// Parses an IPv4 or IPv6 address with the rules of `IpAddr::from_str`.
    pub fn parse(s: &str) -> (r: Option<IpAddr>)
        ensures
            r == parse_ip(s@),
    {
        let v = crate::scan::chars_of(s);
        parse_ip_exec(&v)
    }
}

/// A lower-case hexadecimal digit character.
pub open spec fn hex_digit_char(d: nat) -> char {
    if d < 10 {
        digit_char(d)
    } else {
        (87 + d) as char
    }
}

/// Lower-case hexadecimal text without leading zeros (`{:x}`).
pub open spec fn hex_text(n: nat) -> Seq<char>
    decreases n,
{
    if n < 16 {
        seq![hex_digit_char(n)]
    } else {
        hex_text(n / 16).push(hex_digit_char(n % 16))
    }
}

/// Colon-separated hexadecimal groups.
pub open spec fn groups_text(g: Seq<u16>) -> Seq<char> {
    join(g.map_values(|x: u16| hex_text(x as nat)), seq![':'])
}

/// Scan for the longest run of zero groups, keeping the first of equally
/// long runs: the current run and the best run so far, as (start, length).
pub open spec fn zero_scan(g: Seq<u16>, i: nat, cur: (nat, nat), best: (nat, nat)) -> (nat, nat)
    decreases g.len() - i,
{
    if i >= g.len() {
        best
    } else if g[i as int] == 0 {
        let start = if cur.1 == 0 {
            i
        } else {
            cur.0
        };
        let run = (start, cur.1 + 1);
        zero_scan(
            g,
            i + 1,
            run,
            if run.1 > best.1 {
                run
            } else {
                best
            },
        )
    } else {
        zero_scan(g, i + 1, (0, 0), best)
    }
}

/// Dotted-quad text of four octets.
pub open spec fn v4_text(a: nat, b: nat, c: nat, d: nat) -> Seq<char> {
    nat_text(a) + seq!['.'] + nat_text(b) + seq!['.'] + nat_text(c) + seq!['.'] + nat_text(d)
}

/// The text `IpAddr`'s `Display` prints: dotted quad for IPv4; for IPv6
/// "::ffff:" and a dotted quad when the address is IPv4-mapped, otherwise
/// the groups in lower-case hex with the first longest run of two or more
/// zero groups shortened to "::".
pub open spec fn ip_text(ip: IpAddr) -> Seq<char> {
    match ip {
        IpAddr::V4(o) => v4_text(o[0] as nat, o[1] as nat, o[2] as nat, o[3] as nat),
        IpAddr::V6(g) => {
            let s = g@;
            if s[0] == 0 && s[1] == 0 && s[2] == 0 && s[3] == 0 && s[4] == 0 && s[5] == 0xffff {
                "::ffff:"@ + v4_text(
                    (s[6] / 256) as nat,
                    (s[6] % 256) as nat,
                    (s[7] / 256) as nat,
                    (s[7] % 256) as nat,
                )
            } else {
                let z = zero_scan(s, 0, (0, 0), (0, 0));
                if z.1 > 1 {
                    groups_text(s.take(z.0 as int)) + seq![':', ':'] + groups_text(
                        s.skip((z.0 + z.1) as int),
                    )
                } else {
                    groups_text(s)
                }
            }
        },
    }
}

/// The text of an address is never empty.
pub proof fn lemma_ip_text_nonempty(ip: IpAddr)
    ensures
        ip_text(ip).len() > 0,
{
    match ip {
        IpAddr::V4(o) => {
            assert(nat_text(o[0] as nat).len() > 0);
        },
        IpAddr::V6(g) => {
            let s = g@;
            assert(s.len() == 8);
            if s[0] == 0 && s[1] == 0 && s[2] == 0 && s[3] == 0 && s[4] == 0 && s[5] == 0xffff {
                reveal_strlit("::ffff:");
            } else {
                let z = zero_scan(s, 0, (0, 0), (0, 0));
                if z.1 <= 1 {
                    let parts = s.map_values(|x: u16| hex_text(x as nat));
                    assert(parts.len() == 8);
                    assert(groups_text(s) == join(parts.drop_last(), seq![':']) + seq![':'] + parts.last());
                }
            }
        },
    }
}

/// The decimal text of a number starts with `0` only when it is `0`.
proof fn lemma_nat_text_first(n: nat)
    ensures
        nat_text(n).len() >= 1,
        nat_text(n)[0] == '0' ==> n == 0,
    decreases n,
{
    if n >= 10 {
        lemma_nat_text_first(n / 10);
        assert(nat_text(n)[0] == nat_text(n / 10)[0]);
    } else {
        assert(digit_char(n) == '0' ==> n == 0);
    }
}

/// The decimal text of an octet, followed by a non-digit or the end, is
/// read back as that octet.
proof fn lemma_read_octet_at(t: Seq<char>, i: int, a: u8)
    requires
        0 <= i,
        i + nat_text(a as nat).len() <= t.len(),
        t.subrange(i, i + nat_text(a as nat).len()) == nat_text(a as nat),
        i + nat_text(a as nat).len() == t.len() || !is_digit(t[i + nat_text(a as nat).len()]),
    ensures
        read_octet(t, i) == Some((a, i + nat_text(a as nat).len())),
{
    let w = nat_text(a as nat);
    let e = i + w.len();
    lemma_nat_text_value(a as nat);
    lemma_nat_text_first(a as nat);
    reveal_with_fuel(crate::text::pow10, 4);
    crate::text::lemma_nat_text_len(a as nat, 3);
    assert forall|m: int| i <= m < e implies in_class(CharClass::Digit, #[trigger] t[m]) by {
        assert(t[m] == t.subrange(i, e)[m - i]);
    }
    lemma_span_to(t, i, e, CharClass::Digit);
    assert(t[i] == w[0]);
}

/// Printing an IPv4 address and parsing the text gives the address back.
pub proof fn law_v4_text_parses(a: u8, b: u8, c: u8, d: u8)
    ensures
        parse_ip(v4_text(a as nat, b as nat, c as nat, d as nat)) == Some(IpAddr::V4([a, b, c, d])),
{
    let wa = nat_text(a as nat);
    let wb = nat_text(b as nat);
    let wc = nat_text(c as nat);
    let wd = nat_text(d as nat);
    let t = v4_text(a as nat, b as nat, c as nat, d as nat);
    let p1 = wa.len() as int;
    let p2 = p1 + 1 + wb.len();
    let p3 = p2 + 1 + wc.len();
    let p4 = p3 + 1 + wd.len();
    assert(t.len() == p4);
    assert(t.subrange(0, p1) =~= wa);
    assert(t.subrange(p1 + 1, p2) =~= wb);
    assert(t.subrange(p2 + 1, p3) =~= wc);
    assert(t.subrange(p3 + 1, p4) =~= wd);
    assert(t[p1] == '.' && t[p2] == '.' && t[p3] == '.');
    lemma_read_octet_at(t, 0, a);
    lemma_read_octet_at(t, p1 + 1, b);
    lemma_read_octet_at(t, p2 + 1, c);
    lemma_read_octet_at(t, p3 + 1, d);
    assert(read_v4(t, 0) == Some((seq![a, b, c, d], p4)));
    assert(v4_of(seq![a, b, c, d]) == IpAddr::V4([a, b, c, d]));
}

fn hex_digit_to_char(d: u16) -> (c: char)
    requires
        d < 16,
    ensures
        c == hex_digit_char(d as nat),
{
    if d < 10 {
        ((48 + d) as u8) as char
    } else {
        ((87 + d) as u8) as char
    }
}

fn push_hex(s: &mut String, n: u16)
    ensures
        final(s)@ == old(s)@ + hex_text(n as nat),
    decreases n,
{
    if n < 16 {
        push_char(s, hex_digit_to_char(n));
    } else {
        push_hex(s, n / 16);
        push_char(s, hex_digit_to_char(n % 16));
    }
}

fn push_groups(s: &mut String, g: &[u16; 8], from: usize, to: usize)
    requires
        from <= to <= 8,
    ensures
        final(s)@ == old(s)@ + groups_text(g@.subrange(from as int, to as int)),
{
    let ghost start = s@;
    let mut k = from;
    while k < to
        invariant
            from <= k <= to <= 8,
            g@.len() == 8,
            s@ == start + groups_text(g@.subrange(from as int, k as int)),
        decreases to - k,
    {
        let ghost parts = g@.subrange(from as int, k as int).map_values(|x: u16| hex_text(x as nat));
        assert(g@.subrange(from as int, k + 1).map_values(|x: u16| hex_text(x as nat)) =~= parts.push(
            hex_text(g@[k as int] as nat),
        ));
        proof {
            crate::analyzer::lemma_join_push(parts, hex_text(g@[k as int] as nat), seq![':']);
        }
        if k > from {
            push_char(s, ':');
        }
        push_hex(s, g[k]);
        assert(s@ =~= start + groups_text(g@.subrange(from as int, k + 1)));
        k = k + 1;
    }
}

fn push_v4(s: &mut String, a: u8, b: u8, c: u8, d: u8)
    ensures
        final(s)@ == old(s)@ + v4_text(a as nat, b as nat, c as nat, d as nat),
{
    push_decimal(s, a as u128);
    push_char(s, '.');
    push_decimal(s, b as u128);
    push_char(s, '.');
    push_decimal(s, c as u128);
    push_char(s, '.');
    push_decimal(s, d as u128);
    assert(final(s)@ =~= old(s)@ + v4_text(a as nat, b as nat, c as nat, d as nat));
}

impl IpAddr {
    /// The address as `Display` prints it.
    pub fn to_text(&self) -> (r: String)
        ensures
            r@ == ip_text(*self),
    {
        let mut s = String::new();
        match self {
            IpAddr::V4(o) => {
                push_v4(&mut s, o[0], o[1], o[2], o[3]);
            },
            IpAddr::V6(g) => {
                if g[0] == 0 && g[1] == 0 && g[2] == 0 && g[3] == 0 && g[4] == 0 && g[5] == 0xffff {
                    push_str(&mut s, "::ffff:");
                    push_v4(
                        &mut s,
                        (g[6] / 256) as u8,
                        (g[6] % 256) as u8,
                        (g[7] / 256) as u8,
                        (g[7] % 256) as u8,
                    );
                } else {
                    let ghost sq = g@;
                    let mut cur: (usize, usize) = (0, 0);
                    let mut best: (usize, usize) = (0, 0);
                    let mut i: usize = 0;
                    while i < 8
                        invariant
                            i <= 8,
                            sq == g@,
                            sq.len() == 8,
                            cur.0 + cur.1 <= i,
                            best.0 + best.1 <= 8,
                            zero_scan(sq, 0, (0, 0), (0, 0)) == zero_scan(
                                sq,
                                i as nat,
                                (cur.0 as nat, cur.1 as nat),
                                (best.0 as nat, best.1 as nat),
                            ),
                        decreases 8 - i,
                    {
                        if g[i] == 0 {
                            let start = if cur.1 == 0 {
                                i
                            } else {
                                cur.0
                            };
                            cur = (start, cur.1 + 1);
                            if cur.1 > best.1 {
                                best = cur;
                            }
                        } else {
                            cur = (0, 0);
                        }
                        i = i + 1;
                    }
                    if best.1 > 1 {
                        push_groups(&mut s, g, 0, best.0);
                        push_str(&mut s, "::");
                        push_groups(&mut s, g, best.0 + best.1, 8);
                        proof {
                            reveal_strlit("::");
                            assert(sq.subrange(0, best.0 as int) =~= sq.take(best.0 as int));
                            assert(sq.subrange(best.0 + best.1, 8) =~= sq.skip(best.0 + best.1));
                        }
                    } else {
                        push_groups(&mut s, g, 0, 8);
                        assert(sq.subrange(0, 8) =~= sq);
                    }
                }
            },
        }
        assert(s@ =~= ip_text(*self));
        s
    }
}

} // verus!
