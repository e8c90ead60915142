use whatismyip::addr::IpAddress;
use whatismyip::aggregate::{aggregate_report, format_ips, process_ips};
use whatismyip::myip::{MyIp, ReversedIp};
use whatismyip::{AllSourcesFailed, PathError};

fn plain(a: u8, b: u8, c: u8, d: u8) -> MyIp {
    MyIp::new_plain(IpAddress::v4(a, b, c, d))
}

#[test]
fn duplicate_renderings_are_kept_once() {
    // The same address found by the WAN path and the local path, plus an
    // annotated rendering that differs from the plain one.
    let wan = vec![plain(10, 0, 0, 1), plain(10, 0, 0, 2)];
    let local = vec![
        plain(10, 0, 0, 1),
        MyIp::new_reversed(IpAddress::v4(10, 0, 0, 2), ReversedIp("two".to_string())),
    ];
    let lines = process_ips(&vec![wan, local]);
    // Three distinct renderings, not four raw entries.
    assert_eq!(lines.len(), 3);
    assert_eq!(lines[0], "10.0.0.1");
    assert_eq!(lines[1], "10.0.0.2");
    assert_eq!(lines[2], "10.0.0.2 (two)");
}

#[test]
fn small_reports_keep_first_seen_order() {
    let ips = vec!["10.0.0.2".to_string(), "10.0.0.1".to_string()];
    assert_eq!(format_ips(ips), "10.0.0.2\n10.0.0.1");
}

#[test]
fn five_entries_keep_first_seen_order() {
    let ips: Vec<String> = ["e", "d", "c", "b", "a"].iter().map(|s| s.to_string()).collect();
    assert_eq!(format_ips(ips), "e\nd\nc\nb\na");
}

#[test]
fn six_entries_are_sorted() {
    let ips: Vec<String> = ["f", "d", "c", "b", "a", "e"].iter().map(|s| s.to_string()).collect();
    assert_eq!(format_ips(ips), "a\nb\nc\nd\ne\nf");
}

#[test]
fn six_addresses_are_sorted() {
    let ips: Vec<String> = [
        "10.0.0.6",
        "10.0.0.5",
        "10.0.0.4",
        "10.0.0.3",
        "10.0.0.2",
        "10.0.0.1",
    ]
    .iter()
    .map(|s| s.to_string())
    .collect();
    assert_eq!(
        format_ips(ips),
        "10.0.0.1\n10.0.0.2\n10.0.0.3\n10.0.0.4\n10.0.0.5\n10.0.0.6"
    );
}

#[test]
fn empty_report_is_empty_text() {
    assert_eq!(format_ips(Vec::new()), "");
}

#[test]
fn all_paths_failing_fails_with_every_failure() {
    let paths: Vec<Result<Vec<MyIp>, PathError>> = vec![
        Err(PathError::NoNameserverReachable),
        Err(PathError::LookupFailed),
    ];
    match aggregate_report(paths) {
        Ok(_) => panic!("aggregate must fail when every path failed"),
        Err(AllSourcesFailed { failures }) => {
            assert_eq!(
                failures,
                vec![PathError::NoNameserverReachable, PathError::LookupFailed]
            );
        }
    }
}

#[test]
fn one_successful_path_is_enough() {
    let paths: Vec<Result<Vec<MyIp>, PathError>> = vec![
        Err(PathError::NoNameserverReachable),
        Ok(vec![plain(192, 168, 1, 1)]),
        Ok(vec![]),
    ];
    match aggregate_report(paths) {
        Ok(report) => assert_eq!(report, "192.168.1.1"),
        Err(_) => panic!("aggregate must succeed when a path succeeded"),
    }
}

#[test]
fn aggregate_dedups_and_sorts_large_output() {
    let a = vec![
        plain(10, 0, 0, 9),
        plain(10, 0, 0, 8),
        plain(10, 0, 0, 7),
        plain(10, 0, 0, 9),
    ];
    let b = vec![
        plain(10, 0, 0, 6),
        plain(10, 0, 0, 5),
        plain(10, 0, 0, 4),
        plain(10, 0, 0, 7),
    ];
    let paths: Vec<Result<Vec<MyIp>, PathError>> = vec![Ok(a), Ok(b)];
    match aggregate_report(paths) {
        Ok(report) => assert_eq!(
            report,
            "10.0.0.4\n10.0.0.5\n10.0.0.6\n10.0.0.7\n10.0.0.8\n10.0.0.9"
        ),
        Err(_) => panic!("aggregate must succeed when a path succeeded"),
    }
}
