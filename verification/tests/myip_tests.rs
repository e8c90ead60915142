use whatismyip::addr::IpAddress;
use whatismyip::myip::{MyIp, ReversedIp};

#[test]
fn can_format_reversed_ip() {
    let actual = MyIp::new_reversed(
        IpAddress::v4(127, 0, 0, 1),
        ReversedIp("www.example.com".to_string()),
    )
    .to_display_string();
    assert_eq!(actual, String::from("127.0.0.1 (www.example.com)"));
}

#[test]
fn can_create_a_reversed_ip_from_a_string() {
    let input = "Testing".to_string();
    let actual: ReversedIp = input.clone().into();
    assert_eq!(actual, ReversedIp(input));
}

#[test]
fn can_format_plain_ip() {
    let actual = MyIp::new_plain(IpAddress::v4(127, 0, 0, 1)).to_display_string();
    assert_eq!(actual, "127.0.0.1".to_string());
}

#[test]
fn can_get_the_ip_v4() {
    let actual = MyIp::new_plain(IpAddress::v4(127, 0, 0, 1));
    assert_eq!(actual.ip(), IpAddress::v4(127, 0, 0, 1));
}

#[test]
fn can_get_the_ip_v6() {
    let actual = MyIp::new_reversed(
        IpAddress::v4(127, 0, 0, 1),
        ReversedIp("www.example.com".to_string()),
    );
    assert_eq!(actual.ip(), IpAddress::v4(127, 0, 0, 1));
}

/// A predictable stand-in for a reverse DNS lookup, so tests need no
/// network.
fn mock_reverse_ip(ip: &MyIp) -> Option<ReversedIp> {
    let text = ip.ip().to_text();
    if text == "127.0.0.1" || text == "::1" {
        Some(ReversedIp("localhost".to_string()))
    } else {
        Some(ReversedIp(format!("host-{text}.example.com")))
    }
}

#[test]
fn test_reverse_ip() {
    let test_ip = MyIp::new_plain(IpAddress::v4(127, 0, 0, 1));
    let reversed = mock_reverse_ip(&test_ip).unwrap();
    if reversed != ReversedIp("localhost".to_string()) {
        panic!("Expected 'localhost', got '{}'", reversed.0);
    }

    let test_ip = MyIp::new_plain(IpAddress::v4(192, 168, 1, 1));
    let reversed = mock_reverse_ip(&test_ip).unwrap();
    let reversed_str = reversed.0;
    if !reversed_str.contains("192.168.1.1") {
        panic!(
            "Expected string containing '192.168.1.1', got '{}'",
            reversed_str
        );
    }
}

#[test]
fn ipv4_text_is_dotted_decimal() {
    assert_eq!(IpAddress::v4(0, 0, 0, 0).to_text(), "0.0.0.0");
    assert_eq!(IpAddress::v4(255, 255, 255, 255).to_text(), "255.255.255.255");
    assert_eq!(IpAddress::v4(10, 0, 42, 7).to_text(), "10.0.42.7");
}

#[test]
fn ipv6_text_compresses_longest_zero_run() {
    assert_eq!(
        IpAddress::v6([0x2001, 0xdb8, 0, 0, 0, 0, 0, 1]).to_text(),
        "2001:db8::1"
    );
    assert_eq!(IpAddress::v6([0, 0, 0, 0, 0, 0, 0, 0]).to_text(), "::");
    assert_eq!(IpAddress::v6([0, 0, 0, 0, 0, 0, 0, 1]).to_text(), "::1");
    // A single zero group is not compressed.
    assert_eq!(
        IpAddress::v6([1, 0, 2, 3, 4, 5, 6, 7]).to_text(),
        "1:0:2:3:4:5:6:7"
    );
    // Of two runs the longer wins, wherever it stands.
    assert_eq!(
        IpAddress::v6([1, 0, 0, 2, 0, 0, 0, 3]).to_text(),
        "1:0:0:2::3"
    );
    // Of equally long runs the leftmost wins.
    assert_eq!(
        IpAddress::v6([0, 0, 1, 0, 0, 1, 0, 0]).to_text(),
        "::1:0:0:1:0:0"
    );
    assert_eq!(
        IpAddress::v6([0xfe80, 0, 0, 0, 0x1234, 0xabcd, 0x99, 0xf]).to_text(),
        "fe80::1234:abcd:99:f"
    );
}

#[test]
fn version_follows_the_variant() {
    assert_eq!(
        IpAddress::v4(1, 2, 3, 4).version(),
        whatismyip::IpVersion::Ipv4
    );
    assert_eq!(
        IpAddress::v6([0, 0, 0, 0, 0, 0, 0, 1]).version(),
        whatismyip::IpVersion::Ipv6
    );
}
