//! macOS: BSD `ping`, `traceroute`, and `route -n get default`.
use vstd::prelude::*;
use crate::ip::IpAddr;
use crate::platform::{
    CommandLine, GatewayRule, Hop, command5, command8, find_gateway, gateway_in, owned,
    parse_hops, texts, time_eq_rtt, time_eq_rtt_exec, timeout_millis_floor, timeout_millis_text,
    traceroute_hops,
};
use crate::text::{decimal_string, nat_text};

verus! {

/// `ping -c 1 -W <milliseconds> <target>`: one echo request; BSD `-W` takes
/// milliseconds, at least 100.
pub fn ping_command(target: &str, timeout_secs: u64, timeout_nanos: u32) -> (r: CommandLine)
    ensures
        r.program@ == "ping"@,
        texts(r.args@) == seq![
            "-c"@,
            "1"@,
            "-W"@,
            nat_text(timeout_millis_floor(timeout_secs, timeout_nanos)),
            target@,
        ],
{
    command5(
        "ping",
        owned("-c"),
        owned("1"),
        owned("-W"),
        timeout_millis_text(timeout_secs, timeout_nanos),
        owned(target),
    )
}

/// The round-trip time in BSD ping output (`time=12.345 ms`), or `None`
/// for a lost ping.
pub fn parse_ping_rtt(stdout: &str) -> (r: Option<u32>)
    ensures
        r == time_eq_rtt(stdout@),
{
    let t = crate::scan::chars_of(stdout);
    time_eq_rtt_exec(&t)
}

/// `traceroute -n -m <max_hops> -q 1 -w <wait_secs> <target>`.
pub fn traceroute_command(target: &str, max_hops: u32, wait_secs: u32) -> (r: CommandLine)
    ensures
        r.program@ == "traceroute"@,
        texts(r.args@) == seq![
            "-n"@,
            "-m"@,
            nat_text(max_hops as nat),
            "-q"@,
            "1"@,
            "-w"@,
            nat_text(wait_secs as nat),
            target@,
        ],
{
    command8(
        "traceroute",
        owned("-n"),
        owned("-m"),
        decimal_string(max_hops as u128),
        owned("-q"),
        owned("1"),
        owned("-w"),
        decimal_string(wait_secs as u128),
        owned(target),
    )
}

/// The hops in traceroute output: per hop line, the hop number and the
/// first dotted quad after it.
pub fn parse_traceroute(stdout: &str) -> (r: Vec<Hop>)
    ensures
        r@ == traceroute_hops(stdout@, false),
{
    parse_hops(stdout, false)
}

/// The gateway in `route -n get default` output: the first line that,
/// trimmed, starts with `gateway:` decides, with the rest of it parsed as
/// a whole address (`None` if that fails).
pub fn parse_gateway_fallback(stdout: &str) -> (r: Option<IpAddr>)
    ensures
        r == gateway_in(stdout@, GatewayRule::GatewayLabel),
{
    find_gateway(stdout, GatewayRule::GatewayLabel)
}

} // verus!
