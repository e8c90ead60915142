use whatismyip::IpVersion;
use whatismyip::addr::IpAddress;
use whatismyip::cache::{NameserverCache, ResolverCache};
use whatismyip::cli::{local_strategy, process_args, Args};
use whatismyip::fanout::{ReverseFanout, FANOUT_LIMIT};
use whatismyip::local::filter_local_ips;
use whatismyip::myip::{MyIp, ReversedIp};
use whatismyip::race::race_winner;
use whatismyip::retry::{RetryOrchestrator, RetryState, BACKOFF_MS, MAX_RETRIES};
use whatismyip::PathError;

#[test]
fn test_process_args_default() {
    let args = Args {
        only_local: false,
        only_wan: false,
        only_4: false,
        only_6: false,
        reverse: false,
    };
    let strategies = process_args(args);
    if strategies.len() != 2 {
        panic!("Expected 2 strategies, got {}", strategies.len());
    }
    assert_eq!(strategies, vec![IpVersion::Ipv4, IpVersion::Ipv6]);
}

#[test]
fn test_process_args_only_local() {
    let args = Args {
        only_local: true,
        only_wan: false,
        only_4: false,
        only_6: false,
        reverse: false,
    };
    let strategies = process_args(args);
    if !strategies.is_empty() {
        panic!("Expected 0 strategies, got {}", strategies.len());
    }
}

#[test]
fn test_process_args_only_ipv4() {
    let args = Args {
        only_local: false,
        only_wan: false,
        only_4: true,
        only_6: false,
        reverse: false,
    };
    let strategies = process_args(args);
    if strategies.len() != 1 {
        panic!("Expected 1 strategy, got {}", strategies.len());
    }
    assert_eq!(strategies, vec![IpVersion::Ipv4]);
}

#[test]
fn test_process_args_only_ipv6() {
    let args = Args {
        only_local: false,
        only_wan: false,
        only_4: false,
        only_6: true,
        reverse: false,
    };
    let strategies = process_args(args);
    if strategies.len() != 1 {
        panic!("Expected 1 strategy, got {}", strategies.len());
    }
    assert_eq!(strategies, vec![IpVersion::Ipv6]);
}

#[test]
fn local_pass_follows_the_flags() {
    let base = Args {
        only_local: false,
        only_wan: false,
        only_4: false,
        only_6: false,
        reverse: false,
    };
    assert_eq!(local_strategy(base), Some(None));
    assert_eq!(
        local_strategy(Args { only_4: true, ..base }),
        Some(Some(IpVersion::Ipv4))
    );
    assert_eq!(
        local_strategy(Args { only_6: true, ..base }),
        Some(Some(IpVersion::Ipv6))
    );
    assert_eq!(local_strategy(Args { only_wan: true, ..base }), None);
}

#[test]
fn local_filter_keeps_the_requested_family() {
    let addrs = vec![
        IpAddress::v4(192, 168, 1, 1),
        IpAddress::v6([0xfe80, 0, 0, 0, 0, 0, 0, 1]),
        IpAddress::v4(10, 0, 0, 1),
    ];
    let v4 = filter_local_ips(&addrs, Some(IpVersion::Ipv4));
    assert_eq!(v4.len(), 2);
    assert_eq!(v4[0].ip(), IpAddress::v4(192, 168, 1, 1));
    assert_eq!(v4[1].ip(), IpAddress::v4(10, 0, 0, 1));
    let v6 = filter_local_ips(&addrs, Some(IpVersion::Ipv6));
    assert_eq!(v6.len(), 1);
    let all = filter_local_ips(&addrs, None);
    assert_eq!(all.len(), 3);
}

#[test]
fn all_failures_make_exactly_four_attempts() {
    assert_eq!(MAX_RETRIES, 3);
    assert_eq!(BACKOFF_MS, 100);
    let mut m = RetryOrchestrator::new();
    let mut races: u32 = 1;
    let mut backoffs: u32 = 0;
    loop {
        m.on_race_failure();
        if m.state == RetryState::Retrying {
            // The caller waits BACKOFF_MS milliseconds here.
            m.on_backoff_elapsed();
            backoffs += 1;
            races += 1;
        } else {
            break;
        }
    }
    assert_eq!(m.state, RetryState::Failed);
    assert_eq!(m.failure, Some(PathError::NoNameserverReachable));
    assert_eq!(races, 4);
    assert_eq!(backoffs, 3);
    assert_eq!(m.races_started, 4);
}

#[test]
fn query_failure_is_not_retried() {
    let mut m = RetryOrchestrator::new();
    m.on_race_success();
    assert_eq!(m.state, RetryState::Querying);
    m.on_query_failure();
    assert_eq!(m.state, RetryState::Failed);
    assert_eq!(m.failure, Some(PathError::LookupFailed));
    // The retry budget was untouched: only race failures are retried.
    assert_eq!(m.retries_left, MAX_RETRIES);
}

#[test]
fn race_with_no_success_is_no_nameserver_reachable() {
    let outcomes: Vec<Option<IpAddress>> = vec![None, None, None, None];
    assert_eq!(race_winner(&outcomes), Err(PathError::NoNameserverReachable));
}

#[test]
fn race_takes_the_first_success() {
    let outcomes: Vec<Option<IpAddress>> = vec![
        None,
        Some(IpAddress::v4(8, 8, 8, 8)),
        Some(IpAddress::v4(9, 9, 9, 9)),
        None,
    ];
    assert_eq!(race_winner(&outcomes), Ok(IpAddress::v4(8, 8, 8, 8)));
}

#[test]
fn resolver_cache_returns_the_same_handle_twice() {
    let mut cache = ResolverCache::new();
    let first = cache.get_or_create(IpVersion::Ipv4, 7);
    // A second caller built its own resolver (handle 9); the cached one
    // still wins.
    let second = cache.get_or_create(IpVersion::Ipv4, 9);
    assert_eq!(first, 7);
    assert_eq!(second, first);
    // The other version is untouched and gets its own handle.
    let six = cache.get_or_create(IpVersion::Ipv6, 11);
    assert_eq!(six, 11);
    assert_eq!(cache.get_or_create(IpVersion::Ipv4, 13), 7);
}

#[test]
fn nameserver_cache_keeps_the_first_address() {
    let mut cache = NameserverCache::new();
    assert_eq!(cache.lookup(IpVersion::Ipv4, 0), None);
    cache.insert_if_absent(IpVersion::Ipv4, 0, IpAddress::v4(1, 1, 1, 1));
    cache.insert_if_absent(IpVersion::Ipv4, 0, IpAddress::v4(2, 2, 2, 2));
    assert_eq!(cache.lookup(IpVersion::Ipv4, 0), Some(IpAddress::v4(1, 1, 1, 1)));
    assert_eq!(cache.lookup(IpVersion::Ipv6, 0), None);
    assert_eq!(cache.lookup(IpVersion::Ipv4, 1), None);
}

#[test]
fn fanout_annotates_all_and_never_exceeds_the_limit() {
    assert_eq!(FANOUT_LIMIT, 16);
    let mut addrs: Vec<MyIp> = Vec::new();
    for i in 0..100u32 {
        addrs.push(MyIp::new_plain(IpAddress::v4(
            10,
            0,
            (i / 256) as u8,
            (i % 256) as u8,
        )));
    }
    let mut fanout = ReverseFanout::new(addrs);
    let mut in_flight: Vec<usize> = Vec::new();
    let mut max_in_flight: usize = 0;
    while !fanout.is_done() {
        while fanout.can_start() {
            let idx = fanout.start();
            in_flight.push(idx);
        }
        let pending = fanout.started - fanout.completed;
        assert!(pending <= FANOUT_LIMIT);
        if pending == FANOUT_LIMIT {
            assert!(!fanout.can_start());
        }
        if pending > max_in_flight {
            max_in_flight = pending;
        }
        let idx = in_flight.pop().unwrap();
        let name = format!("host-{}.example.com", fanout.address(idx).to_display_string());
        fanout.complete(idx, Some(ReversedIp(name)));
    }
    // The ceiling was actually reached, and never passed.
    assert_eq!(max_in_flight, FANOUT_LIMIT);
    let out = fanout.finish();
    assert_eq!(out.len(), 100);
    for entry in &out {
        assert!(matches!(entry, MyIp::Reversed { .. }));
    }
}

#[test]
fn fanout_absorbs_a_failed_lookup() {
    let addrs = vec![
        MyIp::new_plain(IpAddress::v4(10, 0, 0, 1)),
        MyIp::new_plain(IpAddress::v4(10, 0, 0, 2)),
    ];
    let mut fanout = ReverseFanout::new(addrs);
    let first = fanout.start();
    let second = fanout.start();
    fanout.complete(first, Some(ReversedIp("one.example.com".to_string())));
    // No PTR record for the second address: it degrades to plain.
    fanout.complete(second, None);
    let out = fanout.finish();
    assert_eq!(out.len(), 2);
    assert_eq!(out[0].to_display_string(), "10.0.0.1 (one.example.com)");
    assert_eq!(out[1], MyIp::new_plain(IpAddress::v4(10, 0, 0, 2)));
}

#[test]
fn constants_name_the_boundary() {
    assert_eq!(whatismyip::GOOGLE_NS1, "ns1.google.com");
    assert_eq!(whatismyip::GOOGLE_NS2, "ns2.google.com");
    assert_eq!(whatismyip::GOOGLE_NS3, "ns3.google.com");
    assert_eq!(whatismyip::GOOGLE_NS4, "ns4.google.com");
    assert_eq!(whatismyip::MYADDR_RECORD, "o-o.myaddr.l.google.com");
}
