use dping::ip::IpAddr;

#[test]
fn parses_ipv4_with_std_rules() {
    assert_eq!(IpAddr::parse("192.168.1.1"), Some(IpAddr::V4([192, 168, 1, 1])));
    assert_eq!(IpAddr::parse("0.0.0.0"), Some(IpAddr::V4([0, 0, 0, 0])));
    assert_eq!(IpAddr::parse("01.2.3.4"), None);
    assert_eq!(IpAddr::parse("1.2.3.256"), None);
    assert_eq!(IpAddr::parse("1.2.3"), None);
    assert_eq!(IpAddr::parse("1.2.3.4 "), None);
    assert_eq!(IpAddr::parse(""), None);
}

#[test]
fn parses_ipv6_with_std_rules() {
    assert_eq!(IpAddr::parse("::"), Some(IpAddr::V6([0; 8])));
    assert_eq!(IpAddr::parse("::1"), Some(IpAddr::V6([0, 0, 0, 0, 0, 0, 0, 1])));
    assert_eq!(
        IpAddr::parse("2001:DB8::8:800:200C:417A"),
        Some(IpAddr::V6([0x2001, 0xdb8, 0, 0, 0x8, 0x800, 0x200c, 0x417a]))
    );
    assert_eq!(
        IpAddr::parse("::ffff:192.0.2.1"),
        Some(IpAddr::V6([0, 0, 0, 0, 0, 0xffff, 0xc000, 0x0201]))
    );
    assert_eq!(
        IpAddr::parse("1:2:3:4:5:6:7:8"),
        Some(IpAddr::V6([1, 2, 3, 4, 5, 6, 7, 8]))
    );
    assert_eq!(IpAddr::parse("1:2:3:4:5:6:7:8:9"), None);
    assert_eq!(IpAddr::parse("1::2::3"), None);
    assert_eq!(IpAddr::parse("12345::"), None);
    assert_eq!(IpAddr::parse("fe80::1%en0"), None);
    assert_eq!(IpAddr::parse("1:2:3:4:5:6:7::"), Some(IpAddr::V6([1, 2, 3, 4, 5, 6, 7, 0])));
}

#[test]
fn prints_like_display() {
    assert_eq!(IpAddr::V4([10, 0, 0, 1]).to_text(), "10.0.0.1");
    assert_eq!(IpAddr::V6([0; 8]).to_text(), "::");
    assert_eq!(IpAddr::V6([0, 0, 0, 0, 0, 0, 0, 1]).to_text(), "::1");
    assert_eq!(
        IpAddr::V6([0x2001, 0xdb8, 0, 0, 1, 0, 0, 1]).to_text(),
        "2001:db8::1:0:0:1"
    );
    assert_eq!(IpAddr::V6([1, 0, 2, 3, 4, 5, 6, 7]).to_text(), "1:0:2:3:4:5:6:7");
    assert_eq!(
        IpAddr::V6([0, 0, 0, 0, 0, 0xffff, 0xc000, 0x0201]).to_text(),
        "::ffff:192.0.2.1"
    );
    assert_eq!(IpAddr::V6([0xfe80, 0, 0, 0, 0, 0, 0, 0]).to_text(), "fe80::");
}

#[test]
fn printed_addresses_parse_back() {
    for ip in [
        IpAddr::V4([1, 2, 3, 4]),
        IpAddr::V4([255, 0, 10, 100]),
        IpAddr::V6([0x2001, 0xdb8, 0, 0, 1, 0, 0, 1]),
        IpAddr::V6([0, 0, 0, 0, 0, 0xffff, 0x0a00, 1]),
    ] {
        assert_eq!(IpAddr::parse(&ip.to_text()), Some(ip));
    }
}
