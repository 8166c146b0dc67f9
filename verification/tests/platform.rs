use dping::ip::IpAddr;
use dping::platform::{linux, macos, windows, Hop};

fn v4(a: u8, b: u8, c: u8, d: u8) -> Option<IpAddr> {
    Some(IpAddr::V4([a, b, c, d]))
}

fn args(c: &dping::platform::CommandLine) -> Vec<&str> {
    c.args.iter().map(|s| s.as_str()).collect()
}

// ---- linux

#[test]
fn parses_iputils_ping_rtt() {
    let out = "PING 1.1.1.1 (1.1.1.1) 56(84) bytes of data.\n64 bytes from 1.1.1.1: icmp_seq=1 ttl=59 time=13.5 ms\n";
    assert_eq!(linux::parse_ping_rtt(out), Some(13_500));
}

#[test]
fn linux_no_time_line_is_lost() {
    assert_eq!(linux::parse_ping_rtt(""), None);
}

#[test]
fn linux_traceroute_with_timed_out_hop() {
    let out = "\
 1  192.168.1.1  1.234 ms
 2  * * *
 3  8.8.8.8  10.5 ms
";
    let hops = linux::parse_traceroute(out);
    assert_eq!(hops, vec![(1, v4(192, 168, 1, 1)), (2, None), (3, v4(8, 8, 8, 8))]);
}

#[test]
fn missing_traceroute_binary_yields_empty_hops_via_empty_stdout() {
    assert_eq!(linux::parse_traceroute(""), Vec::<Hop>::new());
}

#[test]
fn gateway_fallback_parses_via_line() {
    let out = "default via 192.168.1.1 dev eth0 proto dhcp metric 100\n";
    assert_eq!(linux::parse_gateway_fallback(out), v4(192, 168, 1, 1));
}

#[test]
fn gateway_fallback_missing_via_is_none() {
    assert_eq!(linux::parse_gateway_fallback("10.0.0.0/8 dev eth0 scope link\n"), None);
}

#[test]
fn linux_ping_command_rounds_timeout_up() {
    let c = linux::ping_command("1.1.1.1", 1, 500_000_000);
    assert_eq!(c.program, "ping");
    assert_eq!(args(&c), vec!["-c", "1", "-W", "2", "1.1.1.1"]);
    let c = linux::ping_command("h", 0, 0);
    assert_eq!(args(&c), vec!["-c", "1", "-W", "1", "h"]);
}

#[test]
fn linux_traceroute_command_flags() {
    let c = linux::traceroute_command("1.1.1.1", 15, 1);
    assert_eq!(c.program, "traceroute");
    assert_eq!(args(&c), vec!["-n", "-m", "15", "-q", "1", "-w", "1", "1.1.1.1"]);
}

#[test]
fn rtt_number_forms() {
    let line = |n: &str| format!("x time={n} ms");
    assert_eq!(linux::parse_ping_rtt(&line("12.")), Some(12_000));
    assert_eq!(linux::parse_ping_rtt(&line(".5")), Some(500));
    assert_eq!(linux::parse_ping_rtt(&line("0.0456")), Some(45));
    assert_eq!(linux::parse_ping_rtt(&line(".")), None);
    assert_eq!(linux::parse_ping_rtt(&line("1.2.3")), None);
    // the first `time=` match decides, even when its number is bad
    assert_eq!(linux::parse_ping_rtt("time=1.2.3 ms time=4 ms"), None);
    assert_eq!(linux::parse_ping_rtt("time=ms time=4ms"), Some(4_000));
}

#[test]
fn traceroute_lines_with_carriage_returns_and_noise() {
    let out = "traceroute to 1.1.1.1\r\n 1  10.0.0.1  0.5 ms\r\n 99999999999  1.2.3.4\r\n 4  1.2.3.456 9.9.9.9\r\n5\n";
    let hops = linux::parse_traceroute(out);
    assert_eq!(hops, vec![(1, v4(10, 0, 0, 1)), (4, None)]);
}

#[test]
fn gateway_fallback_skips_unparsable_via() {
    let out = "default via 300.1.1.1 dev x\ndefault via 10.0.0.254 dev eth1\n";
    assert_eq!(linux::parse_gateway_fallback(out), v4(10, 0, 0, 254));
}

// ---- macos

#[test]
fn parses_standard_ping_rtt() {
    let out = "PING 1.1.1.1 (1.1.1.1): 56 data bytes\n64 bytes from 1.1.1.1: icmp_seq=0 ttl=59 time=12.345 ms\n";
    assert_eq!(macos::parse_ping_rtt(out), Some(12_345));
}

#[test]
fn macos_no_time_line_is_lost() {
    assert_eq!(macos::parse_ping_rtt("Request timeout for icmp_seq 0\n"), None);
    assert_eq!(macos::parse_ping_rtt(""), None);
}

#[test]
fn macos_traceroute_with_timed_out_hop() {
    let out = "\
 1  192.168.1.1  1.234 ms
 2  *
 3  8.8.8.8  10.5 ms
";
    let hops = macos::parse_traceroute(out);
    assert_eq!(hops, vec![(1, v4(192, 168, 1, 1)), (2, None), (3, v4(8, 8, 8, 8))]);
}

#[test]
fn gateway_fallback_parses_gateway_line() {
    let out = "   route to: default\ndestination: default\ngateway: 192.168.1.1\ninterface: en0\n";
    assert_eq!(macos::parse_gateway_fallback(out), v4(192, 168, 1, 1));
}

#[test]
fn gateway_fallback_missing_line_is_none() {
    assert_eq!(macos::parse_gateway_fallback("no gateway here\n"), None);
}

#[test]
fn macos_first_gateway_line_decides() {
    assert_eq!(macos::parse_gateway_fallback("gateway: fe80::1%en0\ngateway: 10.0.0.1\n"), None);
    assert_eq!(
        macos::parse_gateway_fallback("  gateway:  fe80::1  \n"),
        Some(IpAddr::V6([0xfe80, 0, 0, 0, 0, 0, 0, 1]))
    );
}

#[test]
fn macos_ping_command_millis_floor() {
    let c = macos::ping_command("1.1.1.1", 0, 50_000_000);
    assert_eq!(args(&c), vec!["-c", "1", "-W", "100", "1.1.1.1"]);
    let c = macos::ping_command("1.1.1.1", 2, 345_000_000);
    assert_eq!(args(&c), vec!["-c", "1", "-W", "2345", "1.1.1.1"]);
}

// ---- windows

#[test]
fn parses_standard_english_ping_rtt() {
    let out = "Reply from 1.1.1.1: bytes=32 time=12ms TTL=59\n";
    assert_eq!(windows::parse_ping_rtt(out), Some(12_000));
}

#[test]
fn parses_sub_millisecond_ping_rtt() {
    let out = "Reply from 192.168.1.1: bytes=32 time<1ms TTL=64\n";
    assert_eq!(windows::parse_ping_rtt(out), Some(500));
}

#[test]
fn parses_localized_french_ping_rtt_via_fallback_tier() {
    let out = "Réponse de 1.1.1.1 : octets=32 temps=12ms TTL=59\n";
    assert_eq!(windows::parse_ping_rtt(out), Some(12_000));
}

#[test]
fn unmatchable_line_fails_closed_to_none() {
    assert_eq!(windows::parse_ping_rtt("Request timed out.\n"), None);
    assert_eq!(windows::parse_ping_rtt(""), None);
}

#[test]
fn fallback_needs_word_boundary_after_ms() {
    assert_eq!(windows::parse_ping_rtt("7msx 9ms"), Some(9_000));
    assert_eq!(windows::parse_ping_rtt("7msé 9ms"), Some(9_000));
    assert_eq!(windows::parse_ping_rtt("7ms, 9ms"), Some(7_000));
}

#[test]
fn tracert_three_probe_format_with_timeout_hop() {
    let out = "\
  1     1 ms     1 ms     1 ms  192.168.1.1
  2     *        *        *     Request timed out.
  3    11 ms    10 ms    12 ms  8.8.8.8
";
    let hops = windows::parse_traceroute(out);
    assert_eq!(hops, vec![(1, v4(192, 168, 1, 1)), (2, None), (3, v4(8, 8, 8, 8))]);
}

#[test]
fn tracert_takes_the_last_address_on_the_line() {
    let hops = windows::parse_traceroute("  4  host [10.1.2.3] via 10.9.9.9\n");
    assert_eq!(hops, vec![(4, v4(10, 9, 9, 9))]);
    let hops = linux::parse_traceroute("  4  host [10.1.2.3] via 10.9.9.9\n");
    assert_eq!(hops, vec![(4, v4(10, 1, 2, 3))]);
}

#[test]
fn gateway_fallback_parses_route_print_default_row() {
    let out = "Network Destination        Netmask          Gateway       Interface  Metric\n0.0.0.0          0.0.0.0      192.168.1.1     192.168.1.50     25\n";
    assert_eq!(windows::parse_gateway_fallback(out), v4(192, 168, 1, 1));
}

#[test]
fn gateway_fallback_no_default_row_is_none() {
    assert_eq!(windows::parse_gateway_fallback("some unrelated text\n"), None);
}

#[test]
fn route_print_on_link_row_is_skipped() {
    let out = "0.0.0.0 0.0.0.0 On-link 10.0.0.5\n0.0.0.0 0.0.0.0 10.0.0.1 10.0.0.5\n";
    assert_eq!(windows::parse_gateway_fallback(out), v4(10, 0, 0, 1));
}

#[test]
fn windows_commands() {
    let c = windows::ping_command("8.8.8.8", 1, 0);
    assert_eq!(args(&c), vec!["-n", "1", "-w", "1000", "8.8.8.8"]);
    let c = windows::traceroute_command("8.8.8.8", 15, 1);
    assert_eq!(c.program, "tracert");
    assert_eq!(args(&c), vec!["-d", "-h", "15", "-w", "1000", "8.8.8.8"]);
    let c = windows::traceroute_command("8.8.8.8", 15, 0);
    assert_eq!(args(&c), vec!["-d", "-h", "15", "-w", "1", "8.8.8.8"]);
    let c = windows::traceroute_command("8.8.8.8", 15, u32::MAX);
    assert_eq!(args(&c)[4], "4294967295");
}

#[test]
fn traceroute_deadline() {
    assert_eq!(dping::platform::traceroute_deadline_secs(15, 1), 25);
}

// ---- `\d` is Unicode: a non-ASCII decimal digit is matched, then the
// number fails to parse.

#[test]
fn non_ascii_digits_in_first_time_match_lose_the_ping() {
    // Arabic-Indic "12" matches `time=([\d.]+)\s*ms` first; it is not a
    // number `str::parse` accepts, so the ping counts as lost.
    let out = "time=\u{0661}\u{0662} ms\ntime=5 ms\n";
    assert_eq!(linux::parse_ping_rtt(out), None);
    assert_eq!(macos::parse_ping_rtt(out), None);
    assert_eq!(windows::parse_ping_rtt(out), None);
    assert_eq!(linux::parse_ping_rtt("time=5 ms\n"), Some(5_000));
}

#[test]
fn hop_line_with_non_ascii_hop_number_is_skipped() {
    let out = " \u{0661}  10.0.0.1  1 ms\n 2  10.0.0.2  2 ms\n";
    assert_eq!(linux::parse_traceroute(out), vec![(2, v4(10, 0, 0, 2))]);
}

#[test]
fn dotted_quad_with_non_ascii_digit_is_not_an_address() {
    // The leftmost `\d{1,3}\.\d{1,3}\.\d{1,3}\.\d{1,3}` match starts with a
    // Devanagari one, so the hop has no address even though a clean quad
    // follows.
    let out = " 3  \u{0967}.2.3.4 5.6.7.8\n";
    assert_eq!(linux::parse_traceroute(out), vec![(3, None)]);
    // The last match on a tracert line is the clean one.
    assert_eq!(windows::parse_traceroute(out), vec![(3, v4(5, 6, 7, 8))]);
}
