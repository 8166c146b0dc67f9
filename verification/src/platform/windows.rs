//! Windows: `ping.exe`, `tracert`, and `route print`.
use vstd::prelude::*;
use crate::ip::IpAddr;
use crate::platform::{
    CommandLine, GatewayRule, Hop, command5, command8, find_gateway, gateway_in, owned,
    parse_hops, rtt_from_chars, rtt_from_text, texts, timeout_millis_floor, timeout_millis_text,
    traceroute_hops,
};
use crate::scan::{CharClass, first_from, has_lit, lemma_first_from, lit_at, span, span_end, sub_vec};
use crate::text::{decimal_string, nat_text};

verus! {

/// `c` is a Unicode word character (`\w`: `Alphabetic`, `Mark`,
/// `Decimal_Number`, `Connector_Punctuation`, `Join_Control`).
pub uninterp spec fn unicode_word(c: char) -> bool;

/// Calls `regex_syntax::is_word_character`, the predicate behind the
/// regex word boundary `\b`; its result is named `unicode_word` and nothing
/// more is claimed of it. (It panics only when the crate is built without
/// its `unicode-perl` feature, which the default features include.)
#[verifier::external_body]
fn is_word_char(c: char) -> (r: bool)
    ensures
        r == unicode_word(c),
{
    regex_syntax::is_word_character(c)
}

/// `time` at `p`, then `=` or `<`, a run of digits and points, optional
/// blanks, then `ms` (`time[=<]([\d.]+)\s*ms`).
pub open spec fn time_match_at(t: Seq<char>, p: int) -> bool {
    let e = span_end(t, p + 5, CharClass::Number);
    has_lit(t, p, seq!['t', 'i', 'm', 'e']) && p + 4 < t.len() && (t[p + 4] == '=' || t[p + 4]
        == '<') && e > p + 5 && has_lit(t, span_end(t, e, CharClass::Space), seq!['m', 's'])
}

/// A run of digits and points at `p`, optional blanks, `ms`, then a word
/// boundary (`([\d.]+)\s*ms\b`).
pub open spec fn bare_ms_match_at(t: Seq<char>, p: int) -> bool {
    let e = span_end(t, p, CharClass::Number);
    let q = span_end(t, e, CharClass::Space);
    e > p && has_lit(t, q, seq!['m', 's']) && (q + 2 == t.len() || !unicode_word(t[q + 2]))
}

/// The round-trip time in Windows ping output: the leftmost
/// `time=<number>ms` or `time<<number>ms` (the latter, "below 1 ms", read
/// as 0.5 ms); failing that, in any locale, the leftmost `<number>ms`
/// ending a word; otherwise `None`.
pub open spec fn windows_rtt(t: Seq<char>) -> Option<u32> {
    match first_from(t.len() as int, 0, |p: int| time_match_at(t, p)) {
        Some(p) => if t[p + 4] == '<' {
            Some(500)
        } else {
            rtt_from_text(t.subrange(p + 5, span_end(t, p + 5, CharClass::Number)))
        },
        None => match first_from(t.len() as int, 0, |p: int| bare_ms_match_at(t, p)) {
            Some(p) => rtt_from_text(t.subrange(p, span_end(t, p, CharClass::Number))),
            None => None,
        },
    }
}

fn time_match_exec(t: &Vec<char>, p: usize, lit_time: &Vec<char>, lit_ms: &Vec<char>) -> (r: Option<
    usize,
>)
    requires
        p <= t@.len(),
        lit_time@ == seq!['t', 'i', 'm', 'e'],
        lit_ms@ == seq!['m', 's'],
    ensures
        r is Some <==> time_match_at(t@, p as int),
        r matches Some(e) ==> e == span_end(t@, p + 5, CharClass::Number) && p + 5 <= e <= t@.len(),
{
    let n = t.len();
    assert(lit_time@.len() == 4 && lit_ms@.len() == 2);
    if !lit_at(t, p, lit_time) {
        return None;
    }
    assert(has_lit(t@, p as int, lit_time@));
    if !(p + 4 < n && (t[p + 4] == '=' || t[p + 4] == '<')) {
        return None;
    }
    let e = span(t, p + 5, CharClass::Number);
    if e <= p + 5 {
        return None;
    }
    let w = span(t, e, CharClass::Space);
    if lit_at(t, w, lit_ms) {
        Some(e)
    } else {
        None
    }
}

fn bare_ms_match_exec(t: &Vec<char>, p: usize, lit_ms: &Vec<char>) -> (r: Option<usize>)
    requires
        p <= t@.len(),
        lit_ms@ == seq!['m', 's'],
    ensures
        r is Some <==> bare_ms_match_at(t@, p as int),
        r matches Some(e) ==> e == span_end(t@, p as int, CharClass::Number) && p <= e <= t@.len(),
{
    let n = t.len();
    assert(lit_ms@.len() == 2);
    let e = span(t, p, CharClass::Number);
    if e <= p {
        return None;
    }
    let q = span(t, e, CharClass::Space);
    if !lit_at(t, q, lit_ms) {
        return None;
    }
    assert(has_lit(t@, q as int, lit_ms@));
    if q + 2 == n || !is_word_char(t[q + 2]) {
        Some(e)
    } else {
        None
    }
}

fn windows_rtt_exec(t: &Vec<char>) -> (r: Option<u32>)
    ensures
        r == windows_rtt(t@),
{
    let lit_time: Vec<char> = vec!['t', 'i', 'm', 'e'];
    let lit_ms: Vec<char> = vec!['m', 's'];
    let n = t.len();
    let ghost pred = |p: int| time_match_at(t@, p);
    let mut p: usize = 0;
    while p < n
        invariant
            p <= n,
            n == t@.len(),
            lit_time@ == seq!['t', 'i', 'm', 'e'],
            lit_ms@ == seq!['m', 's'],
            pred == (|p: int| time_match_at(t@, p)),
            forall|q: int| 0 <= q < p ==> !#[trigger] pred(q),
        decreases n - p,
    {
        if let Some(e) = time_match_exec(t, p, &lit_time, &lit_ms) {
            proof {
                lemma_first_from(n as int, 0, p as int, pred);
            }
            if t[p + 4] == '<' {
                return Some(500);
            }
            let cap = sub_vec(t, p + 5, e);
            return rtt_from_chars(&cap);
        }
        p = p + 1;
    }
    assert(!pred(n as int));
    proof {
        lemma_first_from(n as int, 0, n + 1, pred);
    }
    let ghost pred2 = |p: int| bare_ms_match_at(t@, p);
    let mut p: usize = 0;
    while p < n
        invariant
            p <= n,
            n == t@.len(),
            lit_ms@ == seq!['m', 's'],
            pred2 == (|p: int| bare_ms_match_at(t@, p)),
            forall|q: int| 0 <= q < p ==> !#[trigger] pred2(q),
            first_from(t@.len() as int, 0, |p: int| time_match_at(t@, p)) is None,
        decreases n - p,
    {
        if let Some(e) = bare_ms_match_exec(t, p, &lit_ms) {
            proof {
                lemma_first_from(n as int, 0, p as int, pred2);
            }
            let cap = sub_vec(t, p, e);
            return rtt_from_chars(&cap);
        }
        p = p + 1;
    }
    assert(!pred2(n as int));
    proof {
        lemma_first_from(n as int, 0, n + 1, pred2);
    }
    None
}

/// `ping -n 1 -w <milliseconds> <target>`: one echo request, timeout in
/// milliseconds, at least 100.
pub fn ping_command(target: &str, timeout_secs: u64, timeout_nanos: u32) -> (r: CommandLine)
    ensures
        r.program@ == "ping"@,
        texts(r.args@) == seq![
            "-n"@,
            "1"@,
            "-w"@,
            nat_text(timeout_millis_floor(timeout_secs, timeout_nanos)),
            target@,
        ],
{
    command5(
        "ping",
        owned("-n"),
        owned("1"),
        owned("-w"),
        timeout_millis_text(timeout_secs, timeout_nanos),
        owned(target),
    )
}

/// The round-trip time in Windows ping output, or `None` for a lost ping
/// or an unrecognised reply (never a failure).
pub fn parse_ping_rtt(stdout: &str) -> (r: Option<u32>)
    ensures
        r == windows_rtt(stdout@),
{
    let t = crate::scan::chars_of(stdout);
    windows_rtt_exec(&t)
}

/// Per-probe wait for `tracert -w`, in milliseconds: `wait_secs` times
/// 1000, saturating, at least 1.
pub open spec fn tracert_wait_ms(wait_secs: u32) -> nat {
    let ms = if wait_secs * 1000 > u32::MAX {
        u32::MAX as nat
    } else {
        (wait_secs * 1000) as nat
    };
    if ms < 1 {
        1
    } else {
        ms
    }
}

/// `tracert -d -h <max_hops> -w <wait_ms> <target>`.
pub fn traceroute_command(target: &str, max_hops: u32, wait_secs: u32) -> (r: CommandLine)
    ensures
        r.program@ == "tracert"@,
        texts(r.args@) == seq![
            "-d"@,
            "-h"@,
            nat_text(max_hops as nat),
            "-w"@,
            nat_text(tracert_wait_ms(wait_secs)),
            target@,
        ],
{
    let ms: u64 = if (wait_secs as u64) * 1000 > 0xffff_ffff {
        0xffff_ffff
    } else {
        (wait_secs as u64) * 1000
    };
    let ms = if ms < 1 {
        1
    } else {
        ms
    };
    let ghost views = seq![
        "-d"@,
        "-h"@,
        nat_text(max_hops as nat),
        "-w"@,
        nat_text(tracert_wait_ms(wait_secs)),
        target@,
    ];
    let mut args: Vec<String> = Vec::new();
    args.push(owned("-d"));
    args.push(owned("-h"));
    args.push(decimal_string(max_hops as u128));
    args.push(owned("-w"));
    args.push(decimal_string(ms as u128));
    args.push(owned(target));
    assert(texts(args@) =~= views);
    CommandLine { program: owned("tracert"), args }
}

/// The hops in tracert output: per hop line, the hop number and the last
/// dotted quad on the line (the three round-trip columns are ignored).
pub fn parse_traceroute(stdout: &str) -> (r: Vec<Hop>)
    ensures
        r@ == traceroute_hops(stdout@, true),
{
    parse_hops(stdout, true)
}

/// The gateway in `route print` output: the first row whose first two
/// columns are `0.0.0.0` and whose third column is an address.
pub fn parse_gateway_fallback(stdout: &str) -> (r: Option<IpAddr>)
    ensures
        r == gateway_in(stdout@, GatewayRule::DefaultRoute),
{
    find_gateway(stdout, GatewayRule::DefaultRoute)
}

} // verus!
