use ferroscan::cli::{Cli, Format, Profile};
use ferroscan::config::scope::Scope;
use ferroscan::config::target::TargetSpec;
use ferroscan::config::{list_file_entries, ScanConfig};
use ferroscan::error::Error;
use ferroscan::net::IpAddr;

fn base() -> Cli {
    Cli {
        targets: vec!["10.0.0.1".to_string()],
        target_file: None,
        ports: None,
        top_ports: None,
        all_ports: false,
        concurrency: None,
        timeout_ms: None,
        retries: None,
        ulimit: None,
        profile: Profile::Normal,
        max_rate: None,
        scope: Vec::new(),
        scope_file: None,
        authorized: false,
        ping: false,
        format: Format::Human,
        output: None,
        no_progress: false,
        max_targets: 65536,
        verbose: 0,
    }
}

#[test]
fn list_files_skip_blanks_and_comments() {
    let text = "# targets\n10.0.0.1\r\n\n   \n  example.com  \n#10.0.0.9\n10.0.0.0/30";
    assert_eq!(list_file_entries(text), vec!["10.0.0.1", "example.com", "10.0.0.0/30"]);
    assert!(list_file_entries("").is_empty());
}

#[test]
fn targets_from_args_then_file() {
    let (inputs, targets, ports) = ScanConfig::validate(&base(), vec!["10.0.0.2".to_string()]).unwrap();
    assert_eq!(inputs, vec!["10.0.0.1".to_string(), "10.0.0.2".to_string()]);
    assert_eq!(targets, vec![TargetSpec::Ip(IpAddr::v4(10, 0, 0, 1)), TargetSpec::Ip(IpAddr::v4(10, 0, 0, 2))]);
    assert_eq!(ports.len(), 100);
}

#[test]
fn no_targets_and_bad_inputs_are_reported() {
    let mut c = base();
    c.targets = Vec::new();
    assert!(matches!(ScanConfig::validate(&c, Vec::new()), Err(Error::NoTargets { stage: "input" })));
    let mut c = base();
    c.targets.push("10.0.0.300".to_string());
    assert!(matches!(ScanConfig::validate(&c, Vec::new()), Err(Error::TargetParse { .. })));
    let mut c = base();
    c.ports = Some("0".to_string());
    assert!(matches!(ScanConfig::validate(&c, Vec::new()), Err(Error::PortParse { .. })));
}

#[test]
fn port_selection_precedence() {
    let mut c = base();
    c.ports = Some("443,80".to_string());
    c.top_ports = Some(5);
    c.all_ports = true;
    assert_eq!(ScanConfig::validate(&c, Vec::new()).unwrap().2, vec![80, 443]);
    c.ports = None;
    assert_eq!(ScanConfig::validate(&c, Vec::new()).unwrap().2, vec![21, 22, 23, 80, 443]);
    c.top_ports = None;
    assert_eq!(ScanConfig::validate(&c, Vec::new()).unwrap().2.len(), 65535);
}

#[test]
fn profile_defaults_apply_unless_overridden() {
    let c = base();
    let (i, t, p) = ScanConfig::validate(&c, Vec::new()).unwrap();
    let mut paranoid = base();
    paranoid.profile = Profile::Paranoid;
    let cfg = ScanConfig::assemble(paranoid, i.clone(), t.clone(), p.clone(), Scope::new());
    assert_eq!((cfg.timeout_ms, cfg.retries, cfg.max_rate), (3000, 2, Some(10)));
    assert!(cfg.progress);
    let mut explicit = base();
    explicit.profile = Profile::Paranoid;
    explicit.timeout_ms = Some(50);
    explicit.retries = Some(0);
    explicit.max_rate = Some(0);
    explicit.no_progress = true;
    let cfg = ScanConfig::assemble(explicit, i, t, p, Scope::new());
    assert_eq!((cfg.timeout_ms, cfg.retries, cfg.max_rate), (50, 0, Some(0)));
    assert!(!cfg.progress);
    assert_eq!(cfg.profile, Profile::Paranoid);
}

#[test]
fn profile_names_and_defaults() {
    let all = [Profile::Paranoid, Profile::Polite, Profile::Normal, Profile::Aggressive];
    let names: Vec<&str> = all.iter().map(|p| p.as_str()).collect();
    assert_eq!(names, vec!["paranoid", "polite", "normal", "aggressive"]);
    let timeouts: Vec<u64> = all.iter().map(|p| p.default_timeout_ms()).collect();
    assert_eq!(timeouts, vec![3000, 2000, 1500, 800]);
    let retries: Vec<u32> = all.iter().map(|p| p.default_retries()).collect();
    assert_eq!(retries, vec![2, 1, 1, 0]);
    let caps: Vec<Option<usize>> = all.iter().map(|p| p.concurrency_cap()).collect();
    assert_eq!(caps, vec![Some(8), Some(128), None, None]);
    let rates: Vec<Option<u32>> = all.iter().map(|p| p.default_max_rate()).collect();
    assert_eq!(rates, vec![Some(10), Some(200), None, None]);
}

#[test]
fn port_errors_pass_through_unchanged() {
    let mut c = base();
    c.ports = Some("22,0".to_string());
    match ScanConfig::validate(&c, Vec::new()) {
        Err(Error::PortParse { spec, reason }) => {
            assert_eq!(spec, "22,0");
            assert_eq!(reason, "port 0 out of range (1-65535)");
        },
        other => panic!("unexpected {other:?}"),
    }
    let mut c = base();
    c.top_ports = Some(0);
    match ScanConfig::validate(&c, Vec::new()) {
        Err(Error::PortParse { spec, reason }) => {
            assert_eq!(spec, "--top-ports 0");
            assert_eq!(reason, "must be at least 1");
        },
        other => panic!("unexpected {other:?}"),
    }
}
