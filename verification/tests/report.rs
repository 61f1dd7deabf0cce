use ferroscan::net::IpAddr;
use ferroscan::report::{epoch_ms_from_clock, format_rfc3339_utc, now_epoch_ms, ReportInputs, ScanReport};
use ferroscan::scanner::tally::{ScanMove, ScanTally};
use ferroscan::scanner::{probe_at, PortState, ProbeResult};

fn v4(a: u8, b: u8, c: u8, d: u8) -> IpAddr {
    IpAddr::v4(a, b, c, d)
}

fn result(ip: IpAddr, port: u16, state: PortState, rtt_ms: Option<u64>) -> ProbeResult {
    ProbeResult { ip, port, state, rtt_ms }
}

fn inputs() -> ReportInputs {
    ReportInputs {
        profile: "normal".into(),
        authorized_ack: true,
        started_at_epoch_ms: 0,
        duration_ms: 1000,
        target_inputs: vec!["10.0.0.0/30".into()],
        scope: vec!["10.0.0.0/24".into()],
        hosts_in_scope: 2,
        hosts_refused_out_of_scope: 0,
        hosts_scanned: 2,
        ports_per_host: 2,
        concurrency: 16,
        timeout_ms: 1500,
        retries: 1,
    }
}

#[test]
fn formats_known_epoch() {
    assert_eq!(format_rfc3339_utc(1_609_459_200_000), "2021-01-01T00:00:00Z");
    assert_eq!(format_rfc3339_utc(0), "1970-01-01T00:00:00Z");
    assert_eq!(format_rfc3339_utc(1_784_046_000_000), "2026-07-14T16:20:00Z");
}

#[test]
fn build_rolls_up_states_and_groups_open_ports() {
    let results = vec![
        result(v4(10, 0, 0, 1), 443, PortState::Open, Some(2)),
        result(v4(10, 0, 0, 1), 22, PortState::Open, Some(1)),
        result(v4(10, 0, 0, 1), 25, PortState::Closed, None),
        result(v4(10, 0, 0, 2), 80, PortState::Filtered, None),
    ];
    let report = ScanReport::build(&results, inputs());

    assert_eq!(report.summary.open_ports, 2);
    assert_eq!(report.summary.closed_ports, 1);
    assert_eq!(report.summary.filtered_ports, 1);
    assert_eq!(report.summary.hosts_up, 1);
    assert_eq!(report.meta.total_probes, 4);

    let host = &report.hosts[0];
    assert_eq!(host.ip, v4(10, 0, 0, 1));
    assert_eq!(host.open_ports.iter().map(|p| p.port).collect::<Vec<_>>(), vec![22, 443]);
}

#[test]
fn report_meta_carries_the_inputs() {
    let report = ScanReport::build(&[], inputs());
    let m = &report.meta;
    assert_eq!((m.tool.as_str(), m.version.as_str(), m.profile.as_str()), ("ferroscan", "0.1.0", "normal"));
    assert_eq!(m.started_at_utc, "1970-01-01T00:00:00Z");
    assert_eq!((m.duration_ms, m.total_probes, m.concurrency, m.timeout_ms, m.retries), (1000, 0, 16, 1500, 1));
    assert_eq!(m.scope, vec!["10.0.0.0/24".to_string()]);
    assert!(m.authorized_ack);
    assert!(report.hosts.is_empty());
    assert_eq!(report.summary.hosts_up, 0);
}

#[test]
fn hosts_are_ordered_v4_first_then_by_address() {
    let results = vec![
        result(IpAddr::V6(1), 80, PortState::Open, None),
        result(v4(10, 0, 0, 9), 443, PortState::Open, Some(3)),
        result(v4(10, 0, 0, 2), 8080, PortState::Open, Some(4)),
        result(v4(10, 0, 0, 9), 22, PortState::Open, Some(5)),
        result(v4(10, 0, 0, 2), 21, PortState::Filtered, None),
    ];
    let report = ScanReport::build(&results, inputs());
    let ips: Vec<IpAddr> = report.hosts.iter().map(|h| h.ip).collect();
    assert_eq!(ips, vec![v4(10, 0, 0, 2), v4(10, 0, 0, 9), IpAddr::V6(1)]);
    let p: Vec<(u16, Option<u64>)> = report.hosts[1].open_ports.iter().map(|p| (p.port, p.rtt_ms)).collect();
    assert_eq!(p, vec![(22, Some(5)), (443, Some(3))]);
    assert_eq!(report.hosts[0].open_ports[0].transport, "tcp");
    assert_eq!(report.hosts[0].open_ports[0].state, "open");
    assert_eq!(report.summary.hosts_up, 3);
    assert_eq!(report.summary.open_ports + report.summary.closed_ports + report.summary.filtered_ports, 5);
}

#[test]
fn human_summary_lists_open_ports() {
    let results = vec![
        result(v4(10, 0, 0, 1), 443, PortState::Open, Some(2)),
        result(v4(10, 0, 0, 1), 22, PortState::Open, None),
        result(v4(10, 0, 0, 1), 25, PortState::Closed, None),
    ];
    let report = ScanReport::build(&results, inputs());
    let text = report.human_text("1.00", "3");
    let expected = format!(
        "ferroscan v0.1.0 — scan complete\n\
         profile: normal | concurrency: 16 | timeout: 1500ms | retries: 1\n\
         started: 1970-01-01T00:00:00Z | duration: 1.00s | throughput: 3 probes/s\n\
         scope: 10.0.0.0/24\n\
         hosts: 2 in scope, 2 scanned, 1 up (0 refused out-of-scope)\n\
         probes: 3 total | open: 2 | closed: 1 | filtered: 0\n\
         \n\
         {:<39}  {:<10}  {:<7}  RTT\n\
         {}\n\
         {:<39}  {:<10}  {:<7}  -\n\
         {:<39}  {:<10}  {:<7}  2ms\n",
        "HOST", "PORT", "STATE", "-".repeat(72), "10.0.0.1", "22/tcp", "open", "10.0.0.1", "443/tcp", "open"
    );
    assert_eq!(text, expected);
}

#[test]
fn human_summary_without_findings() {
    let mut i = inputs();
    i.scope = Vec::new();
    let report = ScanReport::build(&[result(v4(10, 0, 0, 1), 80, PortState::Filtered, None)], i);
    let text = report.human_text("0.25", "4");
    assert!(text.contains("scope: (none configured)\n"));
    assert!(text.ends_with("\n\nNo open ports found.\n"));
    let mut two = inputs();
    two.scope = vec!["10.0.0.0/24".into(), "::1".into()];
    let report = ScanReport::build(&[], two);
    assert!(report.human_text("0.00", "0").contains("scope: 10.0.0.0/24, ::1\n"));
}

#[test]
fn clock_readings_become_epoch_millis() {
    assert_eq!(epoch_ms_from_clock(None), 0);
    assert_eq!(epoch_ms_from_clock(Some(1_609_459_200_000)), 1_609_459_200_000);
    assert_eq!(epoch_ms_from_clock(Some(u128::MAX)), u64::MAX);
    assert!(now_epoch_ms() > 1_600_000_000_000);
}

#[test]
fn addresses_print_as_std_does() {
    assert_eq!(v4(192, 168, 1, 10).to_string(), "192.168.1.10");
    assert_eq!(IpAddr::V6(0).to_string(), "::");
    assert_eq!(IpAddr::V6(1).to_string(), "::1");
    assert_eq!(IpAddr::V6(0x2001_0db8_0000_0000_0000_0000_0000_0001).to_string(), "2001:db8::1");
    assert_eq!(IpAddr::V6(0x2001_0db8_0000_0001_0000_0000_0000_0001).to_string(), "2001:db8:0:1::1");
    assert_eq!(IpAddr::V6(0x2001_0db8_0000_0000_0001_0000_0000_0001).to_string(), "2001:db8::1:0:0:1");
    assert_eq!(IpAddr::V6(0x0001_0000_0002_0003_0004_0005_0006_0007).to_string(), "1:0:2:3:4:5:6:7");
    assert_eq!(IpAddr::V6(0xffff_0102_0304).to_string(), "::ffff:1.2.3.4");
    assert_eq!(IpAddr::V6(0xfe80_0000_0000_0000_abcd_ef00_0000_0000).to_string(), "fe80::abcd:ef00:0:0");
}

#[test]
fn timestamps_are_twenty_characters_and_drop_millis() {
    assert_eq!(format_rfc3339_utc(951_782_400_000), "2000-02-29T00:00:00Z");
    assert_eq!(format_rfc3339_utc(1_999), "1970-01-01T00:00:01Z");
    assert_eq!(format_rfc3339_utc(1_999), format_rfc3339_utc(1_000));
    assert_eq!(format_rfc3339_utc(253_402_300_799_999), "9999-12-31T23:59:59Z");
    assert_eq!(format_rfc3339_utc(253_402_300_799_999).chars().count(), 20);
}

#[test]
fn report_of_a_finished_scan_counts_hosts_times_ports() {
    let targets = vec![v4(10, 0, 0, 1), v4(10, 0, 0, 2)];
    let ports = vec![22u16, 80];
    let mut t = ScanTally::new(targets.len(), ports.len(), 3);
    let mut pending: Vec<(IpAddr, u16)> = Vec::new();
    loop {
        match t.next_move() {
            ScanMove::Launch { k } => {
                pending.push(probe_at(&targets, &ports, k));
                t.launched_next();
            },
            ScanMove::Collect => {
                let (ip, port) = pending.pop().unwrap();
                t.collected(result(ip, port, PortState::Closed, None));
            },
            ScanMove::Done => break,
        }
    }
    let report = ScanReport::build(&t.into_results(), inputs());
    assert_eq!(report.meta.total_probes, 4);
    assert_eq!(report.meta.total_probes, report.meta.hosts_scanned * report.meta.ports_per_host);
    assert_eq!(report.summary.closed_ports, 4);
}
