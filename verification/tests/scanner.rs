use ferroscan::discovery::{is_alive, responded, select_up, PING_PORTS};
use ferroscan::net::IpAddr;
use ferroscan::scanner::{
    effective_concurrency, probe_at, probe_step, rtt_millis, total_probes, window_full, ConnectOutcome, PortState,
    ProbeResult, ProbeStep,
};
use ferroscan::scanner::tally::{ScanMove, ScanTally};

fn v4(a: u8, b: u8, c: u8, d: u8) -> IpAddr {
    IpAddr::v4(a, b, c, d)
}

#[test]
fn probe_outcomes_decide_port_state() {
    let ip = v4(127, 0, 0, 1);
    assert_eq!(
        probe_step(ip, 22, ConnectOutcome::Connected { rtt_ms: 3 }, 0, 1),
        ProbeStep::Done(ProbeResult { ip, port: 22, state: PortState::Open, rtt_ms: Some(3) })
    );
    assert_eq!(
        probe_step(ip, 23, ConnectOutcome::Refused, 0, 5),
        ProbeStep::Done(ProbeResult { ip, port: 23, state: PortState::Closed, rtt_ms: None })
    );
    assert_eq!(probe_step(ip, 24, ConnectOutcome::TimedOut, 0, 2), ProbeStep::Retry { attempt: 1 });
    assert_eq!(probe_step(ip, 24, ConnectOutcome::TimedOut, 1, 2), ProbeStep::Retry { attempt: 2 });
    assert_eq!(
        probe_step(ip, 26, ConnectOutcome::Failed, 0, 3),
        ProbeStep::Done(ProbeResult { ip, port: 26, state: PortState::Filtered, rtt_ms: None })
    );
    assert_eq!(
        probe_step(ip, 24, ConnectOutcome::TimedOut, 2, 2),
        ProbeStep::Done(ProbeResult { ip, port: 24, state: PortState::Filtered, rtt_ms: None })
    );
    assert_eq!(
        probe_step(ip, 25, ConnectOutcome::Failed, 0, 0),
        ProbeStep::Done(ProbeResult { ip, port: 25, state: PortState::Filtered, rtt_ms: None })
    );
}

#[test]
fn a_probe_with_retries_makes_bounded_attempts() {
    let ip = v4(10, 0, 0, 1);
    let mut attempt = 0;
    let mut attempts = 1;
    loop {
        match probe_step(ip, 80, ConnectOutcome::TimedOut, attempt, 3) {
            ProbeStep::Retry { attempt: a } => {
                attempt = a;
                attempts += 1;
            },
            ProbeStep::Done(r) => {
                assert_eq!(r.state, PortState::Filtered);
                break;
            },
        }
    }
    assert_eq!(attempts, 4);
}

#[test]
fn window_and_probe_counts() {
    assert_eq!(effective_concurrency(0), 1);
    assert_eq!(effective_concurrency(64), 64);
    assert!(window_full(1, 0));
    assert!(!window_full(63, 64));
    assert!(window_full(64, 64));
    assert_eq!(total_probes(3, 1000), 3000);
    assert_eq!(total_probes(usize::MAX, 2), usize::MAX);
    assert_eq!(rtt_millis(42), 42);
    assert_eq!(rtt_millis(u128::MAX), u64::MAX);
}

#[test]
fn probes_are_enumerated_host_major() {
    let hosts = vec![v4(10, 0, 0, 1), v4(10, 0, 0, 2)];
    let ports = vec![22u16, 80, 443];
    let order: Vec<(IpAddr, u16)> = (0..6).map(|k| probe_at(&hosts, &ports, k)).collect();
    assert_eq!(
        order,
        vec![
            (hosts[0], 22),
            (hosts[0], 80),
            (hosts[0], 443),
            (hosts[1], 22),
            (hosts[1], 80),
            (hosts[1], 443)
        ]
    );
}

#[test]
fn liveness_from_responses() {
    assert!(responded(ConnectOutcome::Connected { rtt_ms: 1 }));
    assert!(responded(ConnectOutcome::Refused));
    assert!(!responded(ConnectOutcome::TimedOut));
    assert!(!responded(ConnectOutcome::Failed));
    assert!(is_alive(&[false, false, true, false, false]));
    assert!(!is_alive(&[false; 5]));
    assert!(!is_alive(&[]));
    assert_eq!(PING_PORTS, [80, 443, 22, 3389, 445]);
    let hosts = [v4(10, 0, 0, 1), v4(10, 0, 0, 2), v4(10, 0, 0, 3)];
    assert_eq!(select_up(&hosts, &[true, false, true]), vec![v4(10, 0, 0, 1), v4(10, 0, 0, 3)]);
}

#[test]
fn the_window_holds_no_more_than_its_size() {
    let concurrency = 3;
    let mut in_flight = 0usize;
    let mut launched = 0;
    while launched < 10 {
        if window_full(in_flight, concurrency) {
            in_flight -= 1;
        } else {
            in_flight += 1;
            launched += 1;
        }
        assert!(in_flight <= 3);
    }
}

#[test]
fn tally_accounts_for_every_probe_and_keeps_the_window() {
    let targets = vec![v4(10, 0, 0, 1), v4(10, 0, 0, 2)];
    let ports = vec![22u16, 80, 443];
    let mut t = ScanTally::new(targets.len(), ports.len(), 2);
    assert_eq!(t.total, 6);
    let mut pending: Vec<(IpAddr, u16)> = Vec::new();
    let mut launched: Vec<(IpAddr, u16)> = Vec::new();
    let mut lose_next = true;
    loop {
        match t.next_move() {
            ScanMove::Launch { k } => {
                assert_eq!(k, launched.len());
                let pair = probe_at(&targets, &ports, k);
                launched.push(pair);
                pending.push(pair);
                t.launched_next();
                assert!(t.in_flight <= 2);
            },
            ScanMove::Collect => {
                assert!(t.in_flight == 2 || t.launched == t.total);
                let (ip, port) = pending.remove(0);
                if lose_next {
                    lose_next = false;
                    t.lost_one();
                } else {
                    t.collected(ProbeResult { ip, port, state: PortState::Filtered, rtt_ms: None });
                }
            },
            ScanMove::Done => break,
        }
    }
    assert_eq!(launched.len(), 6);
    assert_eq!(launched[3], (v4(10, 0, 0, 2), 22));
    assert_eq!(t.lost, 1);
    let results = t.into_results();
    assert_eq!(results.len(), 5);
}

#[test]
fn tally_with_no_ports_is_done_at_once() {
    let t = ScanTally::new(4, 0, 8);
    assert_eq!(t.next_move(), ScanMove::Done);
    assert!(t.into_results().is_empty());
}
