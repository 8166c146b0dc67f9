use dping::ip::IpAddr;
use dping::target::{assemble_targets, probe_target, TargetList};

#[test]
fn dedup_is_literal_string_not_dns_resolved() {
    let mut list = TargetList::new();
    list.add("cloudflare(1.1.1.1)".to_string(), "1.1.1.1".to_string());
    // A literal duplicate of an already-added address is skipped.
    list.add("dup".to_string(), "1.1.1.1".to_string());
    // A hostname that *resolves* to 1.1.1.1 is a different literal
    // string and must NOT be deduped against the IP anchor above.
    list.add("one.one.one.one".to_string(), "one.one.one.one".to_string());

    let targets = list.into_vec();
    assert_eq!(targets.len(), 2);
    assert_eq!(targets[0].address, "1.1.1.1");
    assert_eq!(targets[1].address, "one.one.one.one");
}

#[test]
fn empty_address_is_never_added() {
    let mut list = TargetList::new();
    list.add("nothing".to_string(), String::new());
    assert_eq!(list.into_vec().len(), 0);
}

#[test]
fn plan_order_is_gateway_hops_anchors_extras() {
    let hops = vec![
        (1, Some(IpAddr::V4([192, 168, 1, 1]))),
        (2, None),
        (3, Some(IpAddr::V4([100, 64, 0, 1]))),
        (4, Some(IpAddr::V4([1, 1, 1, 1]))),
    ];
    let t = assemble_targets(
        Some(IpAddr::V4([192, 168, 1, 1])),
        &hops,
        Some(" example.com , 8.8.4.4,,1.1.1.1"),
    );
    let got: Vec<(&str, &str)> = t.iter().map(|t| (t.name.as_str(), t.address.as_str())).collect();
    assert_eq!(
        got,
        vec![
            ("gateway", "192.168.1.1"),
            ("hop3(100.64.0.1)", "100.64.0.1"),
            ("hop4(1.1.1.1)", "1.1.1.1"),
            ("google(8.8.8.8)", "8.8.8.8"),
            ("example.com", "example.com"),
            ("8.8.4.4", "8.8.4.4"),
        ]
    );
}

#[test]
fn plan_without_discovery_is_the_anchors() {
    let t = assemble_targets(None, &Vec::new(), None);
    let got: Vec<(&str, &str)> = t.iter().map(|t| (t.name.as_str(), t.address.as_str())).collect();
    assert_eq!(got, vec![("cloudflare(1.1.1.1)", "1.1.1.1"), ("google(8.8.8.8)", "8.8.8.8")]);
}

#[test]
fn probe_target_is_first_extra_or_cloudflare() {
    assert_eq!(probe_target(Some(" example.com ,8.8.4.4")), "example.com");
    assert_eq!(probe_target(Some("")), "1.1.1.1");
    assert_eq!(probe_target(Some(" ,x")), "1.1.1.1");
    assert_eq!(probe_target(None), "1.1.1.1");
}
