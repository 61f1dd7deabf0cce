use ferroscan::cli::{Cli, Format, Profile};
use ferroscan::config::scope::Scope;
use ferroscan::config::target::{expand_targets, HostAnswer};
use ferroscan::config::ScanConfig;
use ferroscan::error::Error;
use ferroscan::net::IpAddr;
use ferroscan::runner::{
    admit_targets, after_discovery, discovery_concurrency, rate_cap, report_inputs, step, RunAction, RunEvent, RunState,
    Stage,
};
use ferroscan::scanner::batch::plan_from_limits;

fn v4(a: u8, b: u8, c: u8, d: u8) -> IpAddr {
    IpAddr::v4(a, b, c, d)
}

fn cli(target: &str, scope: &str) -> Cli {
    Cli {
        targets: vec![target.to_string()],
        target_file: None,
        ports: Some("80".to_string()),
        top_ports: None,
        all_ports: false,
        concurrency: Some(8),
        timeout_ms: Some(200),
        retries: Some(0),
        ulimit: None,
        profile: Profile::Normal,
        max_rate: None,
        scope: vec![scope.to_string()],
        scope_file: None,
        authorized: true,
        ping: false,
        format: Format::Json,
        output: None,
        no_progress: true,
        max_targets: 65536,
        verbose: 0,
    }
}

fn config_of(c: Cli) -> ScanConfig {
    let (inputs, targets, ports) = ScanConfig::validate(&c, Vec::new()).unwrap();
    let answers: Vec<HostAnswer> = c.scope.iter().map(|_| HostAnswer::Addrs(Vec::new())).collect();
    let scope = Scope::build(&c.scope, &answers).unwrap();
    ScanConfig::assemble(c, inputs, targets, ports, scope)
}

fn expand(config: &ScanConfig) -> Vec<IpAddr> {
    let answers: Vec<HostAnswer> = config.targets.iter().map(|_| HostAnswer::Addrs(Vec::new())).collect();
    expand_targets(&config.targets, &answers, config.max_targets).unwrap()
}

#[test]
fn out_of_scope_target_is_refused() {
    let config = config_of(cli("10.99.99.99", "127.0.0.0/8"));
    let (state, action) = step(&config, RunState::start(), RunEvent::Expanded(Ok(expand(&config))));
    assert_eq!(state.stage, Stage::Done);
    let err = match action {
        RunAction::Fail(e) => e,
        _ => panic!("expected the run to stop"),
    };
    assert!(
        matches!(err, Error::NoTargets { stage: "scope enforcement" }),
        "expected scope enforcement to leave no scannable targets, got {err:?}"
    );
    assert!(matches!(admit_targets(&config.scope, expand(&config)), Err(Error::NoTargets { stage: "scope enforcement" })));
}

#[test]
fn in_scope_targets_are_admitted_and_refusals_kept() {
    let config = config_of(cli("127.0.0.1-127.0.0.2", "127.0.0.1"));
    let admitted = admit_targets(&config.scope, expand(&config)).unwrap();
    assert_eq!(admitted.in_scope, vec![v4(127, 0, 0, 1)]);
    assert_eq!(admitted.refused, vec![v4(127, 0, 0, 2)]);
    assert!(matches!(admit_targets(&config.scope, Vec::new()), Err(Error::NoTargets { stage: "expansion" })));
}

#[test]
fn discovery_gates_and_fanout() {
    assert!(matches!(after_discovery(Vec::new()), Err(Error::NoTargets { stage: "discovery" })));
    assert_eq!(after_discovery(vec![v4(10, 0, 0, 1)]).unwrap(), vec![v4(10, 0, 0, 1)]);
    assert_eq!(discovery_concurrency(0), 1);
    assert_eq!(discovery_concurrency(4), 1);
    assert_eq!(discovery_concurrency(960), 192);
}

#[test]
fn rate_cap_ignores_zero() {
    assert_eq!(rate_cap(None), None);
    assert_eq!(rate_cap(Some(0)), None);
    assert_eq!(rate_cap(Some(200)), Some(200));
}

#[test]
fn report_inputs_follow_the_config() {
    let config = config_of(cli("127.0.0.1", "127.0.0.0/8"));
    let i = report_inputs(&config, 5, 1234, 1, 0, 1, 8);
    assert_eq!(i.profile, "normal");
    assert!(i.authorized_ack);
    assert_eq!((i.started_at_epoch_ms, i.duration_ms), (5, 1234));
    assert_eq!(i.target_inputs, vec!["127.0.0.1".to_string()]);
    assert_eq!(i.scope, vec!["127.0.0.0/8".to_string()]);
    assert_eq!((i.hosts_in_scope, i.hosts_refused_out_of_scope, i.hosts_scanned), (1, 0, 1));
    assert_eq!((i.ports_per_host, i.concurrency, i.timeout_ms, i.retries), (1, 8, 200, 0));
}

fn scan_hosts(action: &RunAction) -> Vec<IpAddr> {
    match action {
        RunAction::Scan { hosts, .. } => hosts.clone(),
        RunAction::Discover { hosts, .. } => hosts.clone(),
        _ => panic!("expected a scan or discovery"),
    }
}

#[test]
fn a_run_steps_through_its_stages() {
    let mut c = cli("127.0.0.0-127.0.0.2", "127.0.0.0/31");
    c.ping = true;
    c.max_rate = Some(50);
    let config = config_of(c);
    let state = RunState::start();
    let (state, action) = step(&config, state, RunEvent::Expanded(Ok(expand(&config))));
    match &action {
        RunAction::Plan { refused } => assert_eq!(refused, &vec![v4(127, 0, 0, 2)]),
        _ => panic!("expected planning"),
    }
    let plan = plan_from_limits(Some(8), Profile::Normal, 1024, 4096);
    let (state, action) = step(&config, state, RunEvent::Planned(Ok(plan)));
    assert_eq!(scan_hosts(&action), vec![v4(127, 0, 0, 0), v4(127, 0, 0, 1)]);
    assert!(matches!(action, RunAction::Discover { concurrency: 1, .. }));
    let (state, action) = step(&config, state, RunEvent::Discovered(vec![false, true]));
    assert_eq!(scan_hosts(&action), vec![v4(127, 0, 0, 1)]);
    assert!(matches!(action, RunAction::Scan { concurrency: 8, rate: Some(50), .. }));
    let (state, action) = step(&config, state, RunEvent::Scanned { started_at_epoch_ms: 7, duration_ms: 30 });
    assert_eq!(state.stage, Stage::Done);
    match action {
        RunAction::Finish(i) => {
            assert_eq!((i.hosts_in_scope, i.hosts_refused_out_of_scope, i.hosts_scanned), (2, 1, 1));
            assert_eq!((i.started_at_epoch_ms, i.duration_ms, i.concurrency), (7, 30, 8));
        },
        _ => panic!("expected the report inputs"),
    }
}

#[test]
fn a_run_stops_when_nothing_is_left() {
    let config = config_of(cli("10.99.99.99", "127.0.0.0/8"));
    let (state, action) = step(&config, RunState::start(), RunEvent::Expanded(Ok(expand(&config))));
    assert_eq!(state.stage, Stage::Done);
    assert!(matches!(action, RunAction::Fail(Error::NoTargets { stage: "scope enforcement" })));

    let mut c = cli("127.0.0.1", "127.0.0.0/8");
    c.ping = true;
    let config = config_of(c);
    let (state, _) = step(&config, RunState::start(), RunEvent::Expanded(Ok(expand(&config))));
    let (state, _) = step(&config, state, RunEvent::Planned(Ok(plan_from_limits(None, Profile::Normal, 1024, 4096))));
    let (state, action) = step(&config, state, RunEvent::Discovered(vec![false]));
    assert_eq!(state.stage, Stage::Done);
    assert!(matches!(action, RunAction::Fail(Error::NoTargets { stage: "discovery" })));

    let (_, action) = step(&config, RunState::start(), RunEvent::Expanded(Err(Error::TooManyTargets { count: 9, cap: 8 })));
    assert!(matches!(action, RunAction::Fail(Error::TooManyTargets { count: 9, cap: 8 })));
}

#[test]
fn without_discovery_the_admitted_hosts_are_scanned() {
    let config = config_of(cli("127.0.0.1-127.0.0.2", "127.0.0.0/8"));
    let (state, _) = step(&config, RunState::start(), RunEvent::Expanded(Ok(expand(&config))));
    let (state, action) = step(&config, state, RunEvent::Planned(Ok(plan_from_limits(Some(4), Profile::Normal, 1024, 4096))));
    assert_eq!(state.stage, Stage::Scanning);
    assert_eq!(scan_hosts(&action), vec![v4(127, 0, 0, 1), v4(127, 0, 0, 2)]);
    assert!(matches!(action, RunAction::Scan { concurrency: 4, rate: None, .. }));
}
