use whatismyip::addr::IpAddress;
use whatismyip::myip::MyIp;
use whatismyip::parse::{parse_ip, parse_ipv4, parse_ipv6};
use whatismyip::wan::parse_wan_response;

#[test]
fn test_user_ips_parsing() {
    let ipv4_str = "192.168.1.1";
    let ipv4 = parse_ip(ipv4_str);
    if ipv4.is_none() {
        panic!("Failed to parse IPv4 address: {}", ipv4_str);
    }
    if ipv4 != Some(IpAddress::v4(192, 168, 1, 1)) {
        panic!("IPv4 address mismatch");
    }

    let ipv6_str = "2001:db8::1";
    let ipv6 = parse_ip(ipv6_str);
    if ipv6.is_none() {
        panic!("Failed to parse IPv6 address: {}", ipv6_str);
    }
    if ipv6 != Some(IpAddress::v6([0x2001, 0xdb8, 0, 0, 0, 0, 0, 1])) {
        panic!("IPv6 address mismatch");
    }
}

#[test]
fn parses_dotted_decimal() {
    assert_eq!(parse_ipv4("0.0.0.0"), Some(IpAddress::v4(0, 0, 0, 0)));
    assert_eq!(
        parse_ipv4("255.255.255.255"),
        Some(IpAddress::v4(255, 255, 255, 255))
    );
    assert_eq!(parse_ipv4("10.0.42.7"), Some(IpAddress::v4(10, 0, 42, 7)));
}

#[test]
fn rejects_malformed_dotted_decimal() {
    assert_eq!(parse_ipv4(""), None);
    assert_eq!(parse_ipv4("1.2.3"), None);
    assert_eq!(parse_ipv4("1.2.3.4.5"), None);
    assert_eq!(parse_ipv4("256.1.1.1"), None);
    assert_eq!(parse_ipv4("01.2.3.4"), None);
    assert_eq!(parse_ipv4("1.2.3.abc"), None);
    assert_eq!(parse_ipv4("1..2.3"), None);
    assert_eq!(parse_ipv4("1.2.3."), None);
    assert_eq!(parse_ipv4(".1.2.3"), None);
}

#[test]
fn parses_hex_groups() {
    assert_eq!(
        parse_ipv6("1:2:3:4:5:6:7:8"),
        Some(IpAddress::v6([1, 2, 3, 4, 5, 6, 7, 8]))
    );
    assert_eq!(
        parse_ipv6("2001:db8::1"),
        Some(IpAddress::v6([0x2001, 0xdb8, 0, 0, 0, 0, 0, 1]))
    );
    assert_eq!(parse_ipv6("::"), Some(IpAddress::v6([0, 0, 0, 0, 0, 0, 0, 0])));
    assert_eq!(parse_ipv6("::1"), Some(IpAddress::v6([0, 0, 0, 0, 0, 0, 0, 1])));
    assert_eq!(
        parse_ipv6("fe80::"),
        Some(IpAddress::v6([0xfe80, 0, 0, 0, 0, 0, 0, 0]))
    );
    assert_eq!(
        parse_ipv6("1:2:3:4:5:6:7::"),
        Some(IpAddress::v6([1, 2, 3, 4, 5, 6, 7, 0]))
    );
    // Either case is accepted; leading zeros in a group are fine.
    assert_eq!(
        parse_ipv6("00FF:00ff:0:0:0:0:0:A"),
        Some(IpAddress::v6([0xff, 0xff, 0, 0, 0, 0, 0, 0xa]))
    );
}

#[test]
fn rejects_malformed_hex_groups() {
    assert_eq!(parse_ipv6(""), None);
    assert_eq!(parse_ipv6(":"), None);
    assert_eq!(parse_ipv6(":::"), None);
    assert_eq!(parse_ipv6("1:2:3:4:5:6:7"), None);
    assert_eq!(parse_ipv6("1:2:3:4:5:6:7:8:9"), None);
    assert_eq!(parse_ipv6("1::2::3"), None);
    assert_eq!(parse_ipv6("12345::"), None);
    assert_eq!(parse_ipv6("1:2:3:4:5:6:7:8::"), None);
    assert_eq!(parse_ipv6("g::1"), None);
    assert_eq!(parse_ipv6("1:"), None);
    assert_eq!(parse_ipv6(":1"), None);
}

#[test]
fn wan_response_keeps_only_addresses() {
    let texts = vec![
        "93.184.216.34".to_string(),
        "not an address".to_string(),
        "2001:db8::1".to_string(),
        "999.1.1.1".to_string(),
    ];
    let ips = parse_wan_response(&texts);
    assert_eq!(ips.len(), 2);
    assert_eq!(ips[0], MyIp::new_plain(IpAddress::v4(93, 184, 216, 34)));
    assert_eq!(
        ips[1],
        MyIp::new_plain(IpAddress::v6([0x2001, 0xdb8, 0, 0, 0, 0, 0, 1]))
    );
}

#[test]
fn wan_response_may_be_empty() {
    let texts = vec!["nothing".to_string()];
    assert_eq!(parse_wan_response(&texts).len(), 0);
    assert_eq!(parse_wan_response(&Vec::new()).len(), 0);
}

#[test]
fn parse_inverts_formatting() {
    let samples4 = [
        IpAddress::v4(127, 0, 0, 1),
        IpAddress::v4(255, 0, 10, 99),
        IpAddress::v4(8, 8, 8, 8),
    ];
    for ip in samples4 {
        assert_eq!(parse_ip(&ip.to_text()), Some(ip));
    }
    let samples6 = [
        IpAddress::v6([0x2001, 0xdb8, 0, 0, 0, 0, 0, 1]),
        IpAddress::v6([0, 0, 0, 0, 0, 0, 0, 0]),
        IpAddress::v6([1, 0, 2, 3, 4, 5, 6, 7]),
        IpAddress::v6([0xfe80, 0, 0, 0, 0x1234, 0xabcd, 0x99, 0xf]),
    ];
    for ip in samples6 {
        assert_eq!(parse_ip(&ip.to_text()), Some(ip));
    }
}
