use ferroscan::config::ports::{all_ports, parse_port_spec, top_ports, TOP_PORTS};
use ferroscan::error::Error;

#[test]
fn parses_list() {
    assert_eq!(parse_port_spec("80,443,22").unwrap(), vec![22, 80, 443]);
}

#[test]
fn parses_range() {
    assert_eq!(parse_port_spec("20-23").unwrap(), vec![20, 21, 22, 23]);
}

#[test]
fn parses_mixed_and_dedupes() {
    assert_eq!(parse_port_spec("22,80,79-81,443").unwrap(), vec![22, 79, 80, 81, 443]);
}

#[test]
fn rejects_zero() {
    assert!(parse_port_spec("0").is_err());
    assert!(parse_port_spec("0-10").is_err());
}

#[test]
fn rejects_overflow() {
    assert!(parse_port_spec("70000").is_err());
}

#[test]
fn ports_rejects_reversed_range() {
    assert!(parse_port_spec("100-50").is_err());
}

#[test]
fn top_ports_takes_prefix_sorted() {
    let p = top_ports(3).unwrap();
    assert_eq!(p.len(), 3);
    assert_eq!(p, vec![23, 80, 443]);
}

#[test]
fn top_ports_clamps() {
    let p = top_ports(100_000).unwrap();
    assert_eq!(p.len(), TOP_PORTS.len());
}

#[test]
fn all_ports_is_full_range() {
    assert_eq!(all_ports().len(), 65535);
}

fn reason_of(r: ferroscan::error::Result<Vec<u16>>) -> (String, String) {
    match r {
        Err(Error::PortParse { spec, reason }) => (spec, reason),
        other => panic!("expected a port parse error, got {other:?}"),
    }
}

#[test]
fn port_errors_name_the_spec_and_reason() {
    assert_eq!(
        reason_of(parse_port_spec("0-10")),
        ("0-10".to_string(), "port 0 out of range (1-65535)".to_string())
    );
    assert_eq!(
        reason_of(parse_port_spec("22,70000")),
        ("22,70000".to_string(), "port 70000 out of range (1-65535)".to_string())
    );
    assert_eq!(reason_of(parse_port_spec("100-50")).1, "range 100-50 is reversed");
    assert_eq!(reason_of(parse_port_spec("http")).1, "'http' is not a number");
    assert_eq!(reason_of(parse_port_spec(" , ,")).1, "no ports selected");
    assert_eq!(
        reason_of(top_ports(0)),
        ("--top-ports 0".to_string(), "must be at least 1".to_string())
    );
}

#[test]
fn port_items_are_trimmed_and_plus_signs_accepted() {
    assert_eq!(parse_port_spec(" 443 , 22 - 23 ,").unwrap(), vec![22, 23, 443]);
    assert_eq!(parse_port_spec("+80").unwrap(), vec![80]);
    assert_eq!(parse_port_spec("65535").unwrap(), vec![65535]);
}

#[test]
fn full_top_list_is_ascending_without_duplicates() {
    let p = top_ports(TOP_PORTS.len()).unwrap();
    assert_eq!(p.len(), 100);
    assert!(p.windows(2).all(|w| w[0] < w[1]));
    assert!(p.iter().all(|&x| x >= 1));
    let all = all_ports();
    assert_eq!((all[0], all[65534]), (1, 65535));
}

#[test]
fn readme_port_spec_example() {
    let p = parse_port_spec("22,80,443,8000-8100").unwrap();
    assert_eq!(p.len(), 3 + 101);
    assert_eq!((p[0], p[1], p[2], p[3], p[103]), (22, 80, 443, 8000, 8100));
}

#[test]
fn port_lists_are_order_free_and_round_trip() {
    assert_eq!(parse_port_spec("443,22-23").unwrap(), parse_port_spec("22-23,443").unwrap());
    assert_eq!(parse_port_spec("80,80,80").unwrap(), parse_port_spec("80").unwrap());
    let v = parse_port_spec("8000-8003,22,443").unwrap();
    let text = v.iter().map(|p| p.to_string()).collect::<Vec<_>>().join(",");
    assert_eq!(parse_port_spec(&text).unwrap(), v);
}

#[test]
fn port_parts_reorder_and_repeat_freely() {
    let a = parse_port_spec("8000-8002,22,443,22").unwrap();
    let b = parse_port_spec("443,22,8000-8002").unwrap();
    let c = parse_port_spec("22,8000-8002,443,443,22").unwrap();
    assert_eq!(a, vec![22, 443, 8000, 8001, 8002]);
    assert_eq!(a, b);
    assert_eq!(b, c);
}

#[test]
fn top_ports_selects_exactly_n() {
    for n in [1usize, 2, 10, 57, 99, 100, 101] {
        let p = top_ports(n).unwrap();
        assert_eq!(p.len(), n.min(100));
        let mut prefix: Vec<u16> = TOP_PORTS[..n.min(100)].to_vec();
        prefix.sort_unstable();
        assert_eq!(p, prefix);
    }
}
