use ferroscan::config::target::{expand_targets, host_addresses, parse_target_token, Expansion, HostAnswer, TargetSpec};
use ferroscan::error::Error;
use ferroscan::net::IpAddr;

fn v4(a: u8, b: u8, c: u8, d: u8) -> IpAddr {
    IpAddr::v4(a, b, c, d)
}

fn no_answers(n: usize) -> Vec<HostAnswer> {
    (0..n).map(|_| HostAnswer::Addrs(Vec::new())).collect()
}

fn reason_of(token: &str) -> String {
    match parse_target_token(token) {
        Err(Error::TargetParse { token: _, reason }) => reason,
        other => panic!("expected a target parse error, got {other:?}"),
    }
}

#[test]
fn parses_single_ipv4() {
    assert_eq!(parse_target_token("192.168.1.1").unwrap(), TargetSpec::Ip(v4(192, 168, 1, 1)));
}

#[test]
fn parses_single_ipv6() {
    assert_eq!(parse_target_token("::1").unwrap(), TargetSpec::Ip(IpAddr::V6(1)));
}

#[test]
fn parses_cidr() {
    let spec = parse_target_token("10.0.0.0/24").unwrap();
    assert!(matches!(spec, TargetSpec::Cidr(_)));
    assert_eq!(spec.estimated_hosts(), Some(254));
}

#[test]
fn parses_full_range() {
    let spec = parse_target_token("10.0.0.5-10.0.0.9").unwrap();
    assert_eq!(spec, TargetSpec::Range { start: v4(10, 0, 0, 5), end: v4(10, 0, 0, 9) });
    assert_eq!(spec.estimated_hosts(), Some(5));
}

#[test]
fn parses_last_octet_shorthand() {
    let spec = parse_target_token("172.16.0.10-20").unwrap();
    assert_eq!(spec, TargetSpec::Range { start: v4(172, 16, 0, 10), end: v4(172, 16, 0, 20) });
    assert_eq!(spec.estimated_hosts(), Some(11));
}

#[test]
fn target_rejects_reversed_range() {
    assert!(parse_target_token("10.0.0.9-10.0.0.1").is_err());
}

#[test]
fn parses_hostname() {
    assert_eq!(
        parse_target_token("scanme.example.com").unwrap(),
        TargetSpec::Host("scanme.example.com".into())
    );
}

#[test]
fn rejects_garbage() {
    assert!(parse_target_token("999.999.999.999").is_err());
    assert!(parse_target_token("10.0.0.256").is_err());
    assert!(parse_target_token("42").is_err());
    assert!(parse_target_token("--not-a-host").is_err());
}

#[test]
fn accepts_real_hostnames() {
    assert!(matches!(parse_target_token("localhost"), Ok(TargetSpec::Host(_))));
    assert!(matches!(parse_target_token("3com.example.com"), Ok(TargetSpec::Host(_))));
}

#[test]
fn expands_range_and_dedupes() {
    let specs = vec![
        parse_target_token("10.0.0.1-10.0.0.3").unwrap(),
        parse_target_token("10.0.0.2").unwrap(),
    ];
    let ips = expand_targets(&specs, &no_answers(2), 1000).unwrap();
    assert_eq!(ips, vec![v4(10, 0, 0, 1), v4(10, 0, 0, 2), v4(10, 0, 0, 3)]);
}

#[test]
fn enforces_max_targets_cap() {
    let specs = vec![parse_target_token("10.0.0.0/16").unwrap()];
    let err = expand_targets(&specs, &no_answers(1), 100).unwrap_err();
    assert!(matches!(err, Error::TooManyTargets { cap: 100, .. }));
}

#[test]
fn target_rejection_reasons() {
    assert_eq!(reason_of("   "), "empty target");
    assert_eq!(reason_of("10.0.0.0/33"), "not a valid CIDR: invalid IP address syntax");
    assert_eq!(reason_of("10.0.0.9-10.0.0.1"), "range end is before range start");
    assert_eq!(reason_of("10.0.0.1-::1"), "range endpoints must be the same IP family");
    assert_eq!(
        reason_of("10.0.0.1-300"),
        "range end must be an IP address or (for IPv4) a final-octet number"
    );
    assert_eq!(reason_of("42"), "not an IP, CIDR, range, or valid hostname");
    match parse_target_token(" bad_host! ") {
        Err(Error::TargetParse { token, .. }) => assert_eq!(token, "bad_host!"),
        other => panic!("unexpected {other:?}"),
    }
}

#[test]
fn targets_are_trimmed_and_hyphenated_hosts_fall_through() {
    assert_eq!(parse_target_token("  10.1.2.3\t").unwrap(), TargetSpec::Ip(v4(10, 1, 2, 3)));
    assert_eq!(parse_target_token("my-host.lan").unwrap(), TargetSpec::Host("my-host.lan".into()));
    assert_eq!(
        parse_target_token("2001:db8::1").unwrap(),
        TargetSpec::Ip(IpAddr::V6(0x2001_0db8_0000_0000_0000_0000_0000_0001))
    );
    assert_eq!(
        parse_target_token("::ffff:1.2.3.4").unwrap(),
        TargetSpec::Ip(IpAddr::V6(0xffff_0102_0304))
    );
}

#[test]
fn cidr_estimates_and_expansion() {
    let p31 = parse_target_token("10.0.0.0/31").unwrap();
    assert_eq!(p31.estimated_hosts(), Some(2));
    assert_eq!(expand_targets(&[p31], &no_answers(1), 10).unwrap(), vec![v4(10, 0, 0, 0), v4(10, 0, 0, 1)]);
    let p30 = parse_target_token("10.0.0.4/30").unwrap();
    assert_eq!(expand_targets(&[p30], &no_answers(1), 10).unwrap(), vec![v4(10, 0, 0, 5), v4(10, 0, 0, 6)]);
    let p32 = parse_target_token("10.0.0.7/32").unwrap();
    assert_eq!(p32.estimated_hosts(), Some(1));
    assert_eq!(parse_target_token("2001:db8::/120").unwrap().estimated_hosts(), Some(256));
    assert_eq!(TargetSpec::Host("example.com".into()).estimated_hosts(), None);
}

#[test]
fn hostname_answers_are_deduplicated_and_failures_reported() {
    let answer = HostAnswer::Addrs(vec![v4(10, 0, 0, 1), v4(10, 0, 0, 1), IpAddr::V6(1)]);
    assert_eq!(host_addresses("example.com", &answer).unwrap(), vec![v4(10, 0, 0, 1), IpAddr::V6(1)]);
    match host_addresses("example.com", &HostAnswer::Addrs(Vec::new())) {
        Err(Error::DnsResolution { host, reason }) => {
            assert_eq!(host, "example.com");
            assert_eq!(reason, "no addresses returned");
        },
        other => panic!("unexpected {other:?}"),
    }
    let specs = vec![parse_target_token("10.0.0.1").unwrap(), TargetSpec::Host("example.com".into())];
    let answers = vec![HostAnswer::Addrs(Vec::new()), HostAnswer::Failed("timed out".into())];
    match expand_targets(&specs, &answers, 10) {
        Err(Error::DnsResolution { host, reason }) => {
            assert_eq!(host, "example.com");
            assert_eq!(reason, "timed out");
        },
        other => panic!("unexpected {other:?}"),
    }
    let answers = vec![HostAnswer::Addrs(Vec::new()), HostAnswer::Addrs(vec![v4(10, 0, 0, 2), v4(10, 0, 0, 1)])];
    assert_eq!(expand_targets(&specs, &answers, 10).unwrap(), vec![v4(10, 0, 0, 1), v4(10, 0, 0, 2)]);
}

#[test]
fn cap_counts_hostnames_as_they_expand() {
    let specs = vec![parse_target_token("10.0.0.1-10.0.0.2").unwrap(), TargetSpec::Host("example.com".into())];
    let answers = vec![HostAnswer::Addrs(Vec::new()), HostAnswer::Addrs(vec![v4(10, 0, 0, 9)])];
    match expand_targets(&specs, &answers, 2) {
        Err(Error::TooManyTargets { count, cap }) => assert_eq!((count, cap), (3, 2)),
        other => panic!("unexpected {other:?}"),
    }
    assert_eq!(expand_targets(&specs, &answers, 3).unwrap().len(), 3);
}

#[test]
fn ipv6_cidr_expands_every_address() {
    let spec = parse_target_token("2001:db8::7/126").unwrap();
    let base = 0x2001_0db8_0000_0000_0000_0000_0000_0004u128;
    let expected: Vec<IpAddr> = (0..4).map(|i| IpAddr::V6(base + i)).collect();
    assert_eq!(expand_targets(&[spec], &no_answers(1), 10).unwrap(), expected);
}

#[test]
fn printed_addresses_parse_back() {
    let addrs = [
        v4(0, 0, 0, 0),
        v4(255, 255, 255, 255),
        v4(10, 0, 20, 3),
        IpAddr::V6(0),
        IpAddr::V6(1),
        IpAddr::V6(0xffff_c0a8_0001),
        IpAddr::V6(0x2001_0db8_0000_0000_0001_0000_0000_0001),
        IpAddr::V6(u128::MAX),
    ];
    for ip in addrs {
        assert_eq!(parse_target_token(&ip.to_string()).unwrap(), TargetSpec::Ip(ip), "{}", ip.to_string());
    }
}

#[test]
fn expansion_grows_target_by_target() {
    let specs = vec![parse_target_token("10.0.0.1-10.0.0.2").unwrap(), TargetSpec::Host("db.lan".into())];
    let exp = Expansion::start(&specs, 3).unwrap();
    let exp = exp.add(&specs[0], &HostAnswer::Addrs(Vec::new())).unwrap();
    let exp = exp.add(&specs[1], &HostAnswer::Addrs(vec![v4(10, 0, 0, 2), v4(10, 0, 0, 7)])).unwrap();
    assert_eq!(exp.into_addrs(), vec![v4(10, 0, 0, 1), v4(10, 0, 0, 2), v4(10, 0, 0, 7)]);
    let big = vec![parse_target_token("10.0.0.0/24").unwrap()];
    match Expansion::start(&big, 100) {
        Err(Error::TooManyTargets { count, cap }) => assert_eq!((count, cap), (254, 100)),
        _ => panic!("expected the estimate to exceed the cap"),
    }
}
