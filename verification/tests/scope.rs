use ferroscan::config::scope::Scope;
use ferroscan::config::target::HostAnswer;
use ferroscan::error::Error;
use ferroscan::net::IpAddr;

fn v4(a: u8, b: u8, c: u8, d: u8) -> IpAddr {
    IpAddr::v4(a, b, c, d)
}

fn build(entries: &[&str]) -> ferroscan::error::Result<Scope> {
    let entries: Vec<String> = entries.iter().map(|e| e.to_string()).collect();
    let answers: Vec<HostAnswer> = entries.iter().map(|_| HostAnswer::Addrs(Vec::new())).collect();
    Scope::build(&entries, &answers)
}

#[test]
fn empty_scope_allows_all() {
    let scope = build(&[]).unwrap();
    assert!(scope.is_empty());
    assert!(scope.allows(&v4(8, 8, 8, 8)));
}

#[test]
fn cidr_scope_enforced() {
    let scope = build(&["10.0.0.0/24"]).unwrap();
    assert!(scope.allows(&v4(10, 0, 0, 5)));
    assert!(!scope.allows(&v4(10, 0, 1, 5)));
    assert!(!scope.allows(&v4(8, 8, 8, 8)));
}

#[test]
fn single_ip_scope() {
    let scope = build(&["192.168.1.10"]).unwrap();
    assert!(scope.allows(&v4(192, 168, 1, 10)));
    assert!(!scope.allows(&v4(192, 168, 1, 11)));
}

#[test]
fn partition_splits_in_and_out_of_scope() {
    let scope = build(&["10.0.0.0/24"]).unwrap();
    let (allowed, refused) = scope.partition(vec![v4(10, 0, 0, 1), v4(10, 0, 1, 1)]);
    assert_eq!(allowed, vec![v4(10, 0, 0, 1)]);
    assert_eq!(refused, vec![v4(10, 0, 1, 1)]);
}

#[test]
fn rejects_bad_scope_entry() {
    assert!(build(&["not a cidr!!"]).is_err());
}

#[test]
fn scope_entries_are_trimmed_blank_ones_skipped_and_kept_as_text() {
    let scope = build(&["  10.0.0.0/24 ", "", "   ", "::1"]).unwrap();
    let raw: Vec<&str> = scope.raw().iter().map(|s| s.as_str()).collect();
    assert_eq!(raw, vec!["10.0.0.0/24", "::1"]);
    assert!(scope.allows(&IpAddr::V6(1)));
    assert!(!scope.allows(&IpAddr::V6(2)));
    assert!(build(&["", " "]).unwrap().is_empty());
}

#[test]
fn scope_errors_name_the_entry_and_reason() {
    match build(&["10.0.0.0/24", "10.0.0.0/40"]) {
        Err(Error::ScopeParse { entry, reason }) => {
            assert_eq!(entry, "10.0.0.0/40");
            assert_eq!(reason, "not a valid CIDR: invalid IP address syntax");
        },
        other => panic!("unexpected {other:?}"),
    }
    match build(&["not a cidr!!"]) {
        Err(Error::ScopeParse { entry, reason }) => {
            assert_eq!(entry, "not a cidr!!");
            assert_eq!(reason, "not a CIDR/IP and could not be resolved as a hostname");
        },
        other => panic!("unexpected {other:?}"),
    }
}

#[test]
fn hostname_scope_entries_are_pinned_to_their_answers() {
    assert_eq!(Scope::entry_hostname(" intranet.example "), Some("intranet.example".to_string()));
    assert_eq!(Scope::entry_hostname("10.0.0.1"), None);
    assert_eq!(Scope::entry_hostname("10.0.0.0/8"), None);
    assert_eq!(Scope::entry_hostname("  "), None);
    let entries = vec!["intranet.example".to_string()];
    let answers = vec![HostAnswer::Addrs(vec![v4(10, 1, 1, 1), v4(10, 1, 1, 2)])];
    let scope = Scope::build(&entries, &answers).unwrap();
    assert!(scope.allows(&v4(10, 1, 1, 2)));
    assert!(!scope.allows(&v4(10, 1, 1, 3)));
    let failed = vec![HostAnswer::Failed("no such host".to_string())];
    assert!(matches!(Scope::build(&entries, &failed), Err(Error::ScopeParse { .. })));
}

#[test]
fn default_scope_is_empty() {
    let scope = Scope::default();
    assert!(scope.is_empty());
    assert!(scope.raw().is_empty());
    assert!(Scope::new().allows(&IpAddr::V6(7)));
}

#[test]
fn ipv6_cidr_scope_enforced() {
    let scope = build(&["2001:db8::/64"]).unwrap();
    assert!(scope.allows(&IpAddr::V6(0x2001_0db8_0000_0000_0000_0000_0000_0005)));
    assert!(scope.allows(&IpAddr::V6(0x2001_0db8_0000_0000_ffff_ffff_ffff_ffff)));
    assert!(!scope.allows(&IpAddr::V6(0x2001_0db8_0000_0001_0000_0000_0000_0000)));
    assert!(!scope.allows(&v4(32, 1, 13, 184)));
    let host_bits_set = build(&["10.0.0.77/24"]).unwrap();
    assert!(host_bits_set.allows(&v4(10, 0, 0, 0)));
    assert!(host_bits_set.allows(&v4(10, 0, 0, 255)));
    assert!(!host_bits_set.allows(&v4(10, 0, 1, 0)));
}

#[test]
fn entries_are_added_one_at_a_time() {
    let mut scope = Scope::new();
    scope.add_entry(" 10.0.0.0/30 ", &HostAnswer::Addrs(Vec::new())).unwrap();
    scope.add_entry("   ", &HostAnswer::Addrs(Vec::new())).unwrap();
    assert!(scope.add_entry("bad host", &HostAnswer::Failed("nxdomain".into())).is_err());
    scope.add_entry("gw.lan", &HostAnswer::Addrs(vec![v4(192, 168, 0, 1)])).unwrap();
    let raw: Vec<&str> = scope.raw().iter().map(|s| s.as_str()).collect();
    assert_eq!(raw, vec!["10.0.0.0/30", "gw.lan"]);
    assert!(scope.allows(&v4(10, 0, 0, 3)));
    assert!(scope.allows(&v4(192, 168, 0, 1)));
    assert!(!scope.allows(&v4(10, 0, 0, 4)));
}

#[test]
fn adding_entries_never_revokes() {
    let mut scope = Scope::new();
    scope.add_entry("10.0.0.0/24", &HostAnswer::Addrs(Vec::new())).unwrap();
    assert!(scope.allows(&v4(10, 0, 0, 9)));
    scope.add_entry("192.168.0.1", &HostAnswer::Addrs(Vec::new())).unwrap();
    assert!(scope.allows(&v4(10, 0, 0, 9)));
    assert!(scope.allows(&v4(192, 168, 0, 1)));
    assert!(!scope.allows(&v4(8, 8, 8, 8)));
}
