//! Linux: iputils `ping`, `traceroute`, and `ip route show default`.
use vstd::prelude::*;
use crate::ip::IpAddr;
use crate::platform::{
    CommandLine, GatewayRule, Hop, command5, command8, find_gateway, gateway_in, owned,
    parse_hops, texts, time_eq_rtt, time_eq_rtt_exec, traceroute_hops,
};
use crate::text::{decimal_string, nat_text};

verus! {

/// Whole seconds for iputils' `-W`, which takes no fractions: the timeout
/// rounded up, at least 1.
pub open spec fn timeout_secs(secs: u64, nanos: u32) -> nat {
    let up = if nanos > 0 && secs < u64::MAX {
        (secs + 1) as nat
    } else {
        secs as nat
    };
    if up < 1 {
        1
    } else {
        up
    }
}

/// `ping -c 1 -W <seconds> <target>`: one echo request.
pub fn ping_command(target: &str, timeout_secs_part: u64, timeout_nanos: u32) -> (r: CommandLine)
    ensures
        r.program@ == "ping"@,
        texts(r.args@) == seq![
            "-c"@,
            "1"@,
            "-W"@,
            nat_text(timeout_secs(timeout_secs_part, timeout_nanos)),
            target@,
        ],
{
    let up = if timeout_nanos > 0 && timeout_secs_part < u64::MAX {
        timeout_secs_part + 1
    } else {
        timeout_secs_part
    };
    let secs = if up < 1 {
        1
    } else {
        up
    };
    command5("ping", owned("-c"), owned("1"), owned("-W"), decimal_string(secs as u128), owned(target))
}

/// The round-trip time in iputils ping output (`time=13.5 ms`), or `None`
/// for a lost ping.
pub fn parse_ping_rtt(stdout: &str) -> (r: Option<u32>)
    ensures
        r == time_eq_rtt(stdout@),
{
    let t = crate::scan::chars_of(stdout);
    time_eq_rtt_exec(&t)
}

/// `traceroute -n -m <max_hops> -q 1 -w <wait_secs> <target>`.
pub fn traceroute_command(target: &str, max_hops: u32, wait_secs: u32) -> (r: CommandLine)
    ensures
        r.program@ == "traceroute"@,
        texts(r.args@) == seq![
            "-n"@,
            "-m"@,
            nat_text(max_hops as nat),
            "-q"@,
            "1"@,
            "-w"@,
            nat_text(wait_secs as nat),
            target@,
        ],
{
    command8(
        "traceroute",
        owned("-n"),
        owned("-m"),
        decimal_string(max_hops as u128),
        owned("-q"),
        owned("1"),
        owned("-w"),
        decimal_string(wait_secs as u128),
        owned(target),
    )
}

/// The hops in traceroute output: per hop line, the hop number and the
/// first dotted quad after it.
pub fn parse_traceroute(stdout: &str) -> (r: Vec<Hop>)
    ensures
        r@ == traceroute_hops(stdout@, false),
{
    parse_hops(stdout, false)
}

/// The gateway in `ip route show default` output: the first line with
/// `via <address>`.
pub fn parse_gateway_fallback(stdout: &str) -> (r: Option<IpAddr>)
    ensures
        r == gateway_in(stdout@, GatewayRule::Via),
{
    find_gateway(stdout, GatewayRule::Via)
}

} // verus!
