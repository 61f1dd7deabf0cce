//! The scan report data model, assembled from probe results: a port-state
//! rollup and the open-port findings grouped by host.

use vstd::prelude::*;
use vstd::arithmetic::div_mod::{
    lemma_div_multiples_vanish_fancy, lemma_fundamental_div_mod, lemma_mod_multiples_vanish,
};
use vstd::relations::{sorted_by, total_ordering};

use std::time::{Duration, SystemTime, SystemTimeError, UNIX_EPOCH};

use crate::net::IpAddr;
use vstd::seq_lib::lemma_sorted_unique;
use crate::text::{dec_chars, push_decimal, push_str, zero_pad};
use crate::scanner::{PortState, ProbeResult};

verus! {

/// The tool name recorded in every report.
pub const TOOL_NAME: &'static str = "ferroscan";

/// The tool version recorded in every report.
pub const TOOL_VERSION: &'static str = "0.1.0";

/// Severity-style rollup counts of port states.
#[derive(Debug, Clone, Copy, PartialEq, Eq, Structural)]
pub struct Summary {
    pub hosts_up: usize,
    pub open_ports: usize,
    pub closed_ports: usize,
    pub filtered_ports: usize,
}

/// A single open-port finding.
#[derive(Debug, Clone)]
pub struct PortReport {
    pub port: u16,
    pub transport: String,
    pub state: String,
    pub rtt_ms: Option<u64>,
}

/// Per-host findings. Only hosts with at least one open port are listed; the
/// closed/filtered totals live in [`Summary`].
#[derive(Debug, Clone)]
pub struct HostReport {
    pub ip: IpAddr,
    pub open_ports: Vec<PortReport>,
}

/// Inputs needed to assemble a report alongside the raw probe results.
#[derive(Debug, Clone)]
pub struct ReportInputs {
    pub profile: String,
    pub authorized_ack: bool,
    pub started_at_epoch_ms: u64,
    pub duration_ms: u128,
    pub target_inputs: Vec<String>,
    pub scope: Vec<String>,
    pub hosts_in_scope: usize,
    pub hosts_refused_out_of_scope: usize,
    pub hosts_scanned: usize,
    pub ports_per_host: usize,
    pub concurrency: usize,
    pub timeout_ms: u64,
    pub retries: u32,
}

/// Scan-level metadata (targets, timing, tool version, profile).
#[derive(Debug, Clone)]
pub struct ScanMeta {
    pub tool: String,
    pub version: String,
    pub profile: String,
    pub authorized_ack: bool,
    pub started_at_utc: String,
    pub started_at_epoch_ms: u64,
    pub duration_ms: u128,
    pub target_inputs: Vec<String>,
    pub scope: Vec<String>,
    pub hosts_in_scope: usize,
    pub hosts_refused_out_of_scope: usize,
    pub hosts_scanned: usize,
    pub ports_per_host: usize,
    pub total_probes: usize,
    pub concurrency: usize,
    pub timeout_ms: u64,
    pub retries: u32,
}

/// Top-level scan report.
#[derive(Debug, Clone)]
pub struct ScanReport {
    pub meta: ScanMeta,
    pub summary: Summary,
    pub hosts: Vec<HostReport>,
}

/// The content of a port finding.
pub struct PortModel {
    pub port: u16,
    pub transport: Seq<char>,
    pub state: Seq<char>,
    pub rtt_ms: Option<u64>,
}

/// The content of a host's findings.
pub struct HostModel {
    pub ip: IpAddr,
    pub ports: Seq<PortModel>,
}

impl PortReport {
    pub open spec fn model(self) -> PortModel {
        PortModel { port: self.port, transport: self.transport@, state: self.state@, rtt_ms: self.rtt_ms }
    }
}

impl HostReport {
    pub open spec fn model(self) -> HostModel {
        HostModel { ip: self.ip, ports: self.open_ports@.map_values(|p: PortReport| p.model()) }
    }
}

/// The host models of a list of host reports.
pub open spec fn host_models(hosts: Seq<HostReport>) -> Seq<HostModel> {
    hosts.map_values(|h: HostReport| h.model())
}

/// Sort key of an open finding: family (0 = IPv4), address, port, result index.
pub type FindingKey = (u8, u128, u16, u64);

/// Lexicographic order of finding keys (std's order of integer tuples).
pub open spec fn key_le(a: FindingKey, b: FindingKey) -> bool {
    a.0 < b.0 || (a.0 == b.0 && (a.1 < b.1 || (a.1 == b.1 && (a.2 < b.2 || (a.2 == b.2 && a.3 <= b.3)))))
}

pub open spec fn key_order() -> spec_fn(FindingKey, FindingKey) -> bool {
    |a: FindingKey, b: FindingKey| key_le(a, b)
}

/// The key of the finding for result `i`.
pub open spec fn finding_key(r: ProbeResult, i: int) -> FindingKey {
    match r.ip {
        IpAddr::V4(a) => (0u8, a as u128, r.port, i as u64),
        IpAddr::V6(a) => (1u8, a, r.port, i as u64),
    }
}

/// The keys of the open results, in result order.
pub open spec fn open_keys(results: Seq<ProbeResult>) -> Seq<FindingKey>
    decreases results.len(),
{
    if results.len() == 0 {
        Seq::empty()
    } else {
        let rest = open_keys(results.drop_last());
        if results.last().state == PortState::Open {
            rest.push(finding_key(results.last(), results.len() - 1))
        } else {
            rest
        }
    }
}

/// The address a key names.
pub open spec fn key_ip(k: FindingKey) -> IpAddr {
    if k.0 == 0 {
        IpAddr::V4(k.1 as u32)
    } else {
        IpAddr::V6(k.1)
    }
}

/// The finding a key stands for.
pub open spec fn key_port(k: FindingKey, results: Seq<ProbeResult>) -> PortModel {
    PortModel { port: k.2, transport: "tcp"@, state: "open"@, rtt_ms: results[k.3 as int].rtt_ms }
}

/// Consecutive keys of one address grouped into one host, in key order.
pub open spec fn group_hosts(keys: Seq<FindingKey>, results: Seq<ProbeResult>) -> Seq<HostModel>
    decreases keys.len(),
{
    if keys.len() == 0 {
        Seq::empty()
    } else {
        let g = group_hosts(keys.drop_last(), results);
        let k = keys.last();
        let p = key_port(k, results);
        if g.len() > 0 && g.last().ip == key_ip(k) {
            g.update(g.len() - 1, HostModel { ip: g.last().ip, ports: g.last().ports.push(p) })
        } else {
            g.push(HostModel { ip: key_ip(k), ports: seq![p] })
        }
    }
}

/// The per-host findings of a scan: the open results sorted by address, then
/// port (then result order), grouped by address.
pub open spec fn spec_hosts(results: Seq<ProbeResult>) -> Seq<HostModel> {
    group_hosts(open_keys(results).sort_by(key_order()), results)
}

/// How many results have state `s`.
pub open spec fn count_state(results: Seq<ProbeResult>, s: PortState) -> nat
    decreases results.len(),
{
    if results.len() == 0 {
        0
    } else {
        count_state(results.drop_last(), s) + if results.last().state == s { 1nat } else { 0nat }
    }
}

/// The lexicographic key order is a total order.
pub proof fn lemma_key_order_total()
    ensures
        total_ordering(key_order()),
{
}

/// `slice::sort_unstable` on integer tuples, which std orders lexicographically:
/// the result is sorted and holds the same keys.
#[verifier::external_body]
fn sort_keys(v: &mut Vec<FindingKey>)
    ensures
        sorted_by(final(v)@, key_order()),
        final(v)@.to_multiset() == old(v)@.to_multiset(),
{
    v.sort_unstable()
}

/// The key of result `i` as an executable value.
fn key_of(r: &ProbeResult, i: usize) -> (k: FindingKey)
    ensures
        k == finding_key(*r, i as int),
{
    match r.ip {
        IpAddr::V4(a) => (0u8, a as u128, r.port, i as u64),
        IpAddr::V6(a) => (1u8, a, r.port, i as u64),
    }
}

/// A finding for an open port.
fn open_port(port: u16, rtt_ms: Option<u64>) -> (p: PortReport)
    ensures
        p.model() == (PortModel { port, transport: "tcp"@, state: "open"@, rtt_ms }),
{
    PortReport { port, transport: String::from_str("tcp"), state: String::from_str("open"), rtt_ms }
}

/// Group sorted keys into hosts.
fn group(keys: &Vec<FindingKey>, results: &[ProbeResult]) -> (hosts: Vec<HostReport>)
    requires
        forall|i: int| 0 <= i < keys@.len() ==> (#[trigger] keys@[i]).3 < results@.len() && (keys@[i].0 == 0 ==> keys@[i].1 <= u32::MAX),
    ensures
        host_models(hosts@) == group_hosts(keys@, results@),
{
    let mut hosts: Vec<HostReport> = Vec::new();
    let mut current: Option<HostReport> = None;
    let mut i: usize = 0;
    assert(keys@.take(0) =~= Seq::<FindingKey>::empty());
    assert(host_models(hosts@) =~= Seq::<HostModel>::empty());
    while i < keys.len()
        invariant
            i <= keys@.len(),
            forall|k: int| 0 <= k < keys@.len() ==> (#[trigger] keys@[k]).3 < results@.len() && (keys@[k].0 == 0 ==> keys@[k].1 <= u32::MAX),
            group_hosts(keys@.take(i as int), results@) == host_models(hosts@) + match current {
                Some(h) => seq![h.model()],
                None => Seq::<HostModel>::empty(),
            },
            i > 0 <==> current is Some,
            current matches Some(h) ==> h.ip == key_ip(keys@[i - 1]),
        decreases keys@.len() - i,
    {
        let k = keys[i];
        let ip = if k.0 == 0 { IpAddr::V4(k.1 as u32) } else { IpAddr::V6(k.1) };
        let port = open_port(k.2, results[k.3 as usize].rtt_ms);
        let ghost before_hosts = host_models(hosts@);
        let ghost g = group_hosts(keys@.take(i as int), results@);
        proof {
            assert(keys@.take(i + 1).drop_last() =~= keys@.take(i as int));
            assert(keys@.take(i + 1).last() == k);
        }
        match current {
            Some(mut h) => {
                if h.ip == ip {
                    let ghost hm = h.model();
                    h.open_ports.push(port);
                    proof {
                        assert(h.model().ports =~= hm.ports.push(port.model()));
                        assert(g.last() == hm);
                        assert(host_models(hosts@) + seq![h.model()] =~= g.update(g.len() - 1, HostModel { ip: g.last().ip, ports: g.last().ports.push(key_port(k, results@)) }));
                    }
                    current = Some(h);
                } else {
                    let ghost hm = h.model();
                    hosts.push(h);
                    let mut ports: Vec<PortReport> = Vec::new();
                    ports.push(port);
                    let nh = HostReport { ip, open_ports: ports };
                    proof {
                        assert(host_models(hosts@) =~= before_hosts.push(hm));
                        assert(nh.model().ports =~= seq![port.model()]);
                        assert(g.last() == hm);
                        assert(host_models(hosts@) + seq![nh.model()] =~= g.push(HostModel { ip: key_ip(k), ports: seq![key_port(k, results@)] }));
                    }
                    current = Some(nh);
                }
            },
            None => {
                let mut ports: Vec<PortReport> = Vec::new();
                ports.push(port);
                let nh = HostReport { ip, open_ports: ports };
                proof {
                    assert(nh.model().ports =~= seq![port.model()]);
                    assert(g =~= Seq::<HostModel>::empty());
                    assert(host_models(hosts@) + seq![nh.model()] =~= g.push(HostModel { ip: key_ip(k), ports: seq![key_port(k, results@)] }));
                }
                current = Some(nh);
            },
        }
        i = i + 1;
    }
    match current {
        Some(h) => {
            let ghost before_hosts = host_models(hosts@);
            hosts.push(h);
            assert(host_models(hosts@) =~= before_hosts.push(h.model()));
        },
        None => {
            assert(host_models(hosts@) + Seq::<HostModel>::empty() =~= host_models(hosts@));
        },
    }
    assert(keys@.take(keys@.len() as int) =~= keys@);
    hosts
}

/// Whether `y` is a Gregorian leap year.
pub open spec fn is_leap(y: int) -> bool {
    (y % 4 == 0 && y % 100 != 0) || y % 400 == 0
}

/// Days in month `m` of year `y`.
pub open spec fn month_len(y: int, m: int) -> int {
    if m == 2 {
        if is_leap(y) { 29 } else { 28 }
    } else if m == 4 || m == 6 || m == 9 || m == 11 {
        30
    } else {
        31
    }
}

/// Leap years among 1..=y (for y >= 0), by the Gregorian rule.
pub open spec fn leaps_through(y: int) -> int {
    y / 4 - y / 100 + y / 400
}

/// Days from 1970-01-01 to the first day of year `y`.
pub open spec fn days_before_year(y: int) -> int {
    365 * (y - 1970) + leaps_through(y - 1) - leaps_through(1969)
}

/// Days from the first of January to the first of month `m` of year `y`.
pub open spec fn days_before_month(y: int, m: int) -> int {
    let common: int = if m == 1 {
        0
    } else if m == 2 {
        31
    } else if m == 3 {
        59
    } else if m == 4 {
        90
    } else if m == 5 {
        120
    } else if m == 6 {
        151
    } else if m == 7 {
        181
    } else if m == 8 {
        212
    } else if m == 9 {
        243
    } else if m == 10 {
        273
    } else if m == 11 {
        304
    } else {
        334
    };
    common + if m > 2 && is_leap(y) { 1int } else { 0int }
}

/// Days from 1970-01-01 to the date `y-m-d`.
pub open spec fn days_since_epoch(y: int, m: int, d: int) -> int {
    days_before_year(y) + days_before_month(y, m) + d - 1
}

/// A real calendar date.
pub open spec fn valid_date(y: int, m: int, d: int) -> bool {
    1 <= m <= 12 && 1 <= d <= month_len(y, m)
}

/// The facts of Hinnant's day-of-era decomposition, checked over all days of
/// a 400-year era: `yoe` is the year of the era (years start on the first of
/// March), `doy` the day of that year, `mp` the month (0 = March).
proof fn lemma_era_facts(doe: u32, yoe: u32, doy: u32, y1: u32)
    by (bit_vector)
    requires
        doe <= 146096,
        yoe == (doe - doe / 1460 + doe / 36524 - doe / 146096) / 365,
        doy + 365 * yoe + yoe / 4 == doe + yoe / 100,
        y1 == yoe + 1,
    ensures
        yoe <= 399,
        doy <= 365,
        doy == 365 ==> ((y1 % 4 == 0 && y1 % 100 != 0) || y1 % 400 == 0),
{
}

/// The month (0 = March) and its first day within a shifted year.
proof fn lemma_month_facts(doy: u32, mp: u32)
    by (bit_vector)
    requires
        doy <= 365,
        mp == (5 * doy + 2) / 153,
    ensures
        mp <= 11,
        153 * mp + 2 <= 5 * doy + 4,
        5 * doy + 5 <= 153 * mp + 155,
{
}

/// The date Hinnant's `civil_from_days` computes for a day count `days >= 0`
/// since 1970-01-01 (internal: the contracts speak of `date_of_day`).
spec fn civil_from_days(days: int) -> (int, int, int) {
    let z = days + 719468;
    let era = z / 146097;
    let doe = z % 146097;
    let yoe = (doe - doe / 1460 + doe / 36524 - doe / 146096) / 365;
    let doy = doe - (365 * yoe + yoe / 4 - yoe / 100);
    let mp = (5 * doy + 2) / 153;
    let d = doy - (153 * mp + 2) / 5 + 1;
    let m = if mp < 10 { mp + 3 } else { mp - 9 };
    (yoe + era * 400 + if m <= 2 { 1int } else { 0int }, m, d)
}

/// One more year adds one leap year exactly when that year is leap.
proof fn lemma_leaps_step(x: int)
    ensures
        leaps_through(x) == leaps_through(x - 1) + if is_leap(x) { 1int } else { 0int },
{
}

/// Whole 400-year eras shift the leap count by 97 per era.
proof fn lemma_leaps_era(e: int, j: int)
    ensures
        leaps_through(400 * e + j) == 97 * e + leaps_through(j),
        is_leap(400 * e + j) == is_leap(j),
{
    lemma_fundamental_div_mod(j, 4);
    lemma_fundamental_div_mod(j, 100);
    lemma_fundamental_div_mod(j, 400);
    assert(400 * e + j == 4 * (100 * e + j / 4) + j % 4);
    assert(400 * e + j == 100 * (4 * e + j / 100) + j % 100);
    assert(400 * e + j == 400 * (e + j / 400) + j % 400);
    lemma_div_multiples_vanish_fancy(100 * e + j / 4, j % 4, 4);
    lemma_div_multiples_vanish_fancy(4 * e + j / 100, j % 100, 100);
    lemma_div_multiples_vanish_fancy(e + j / 400, j % 400, 400);
    lemma_mod_multiples_vanish(100 * e, j, 4);
    lemma_mod_multiples_vanish(4 * e, j, 100);
    lemma_mod_multiples_vanish(e, j, 400);
}

/// Days before the next year are one year's length more.
proof fn lemma_days_before_next_year(y: int)
    ensures
        days_before_year(y + 1) == days_before_year(y) + 365 + if is_leap(y) { 1int } else { 0int },
{
    lemma_leaps_step(y);
}

/// Later years start later.
proof fn lemma_days_before_year_mono(a: int, b: int)
    requires
        a < b,
    ensures
        days_before_year(a) + 365 <= days_before_year(b),
    decreases b - a,
{
    lemma_days_before_next_year(a);
    if a + 1 < b {
        lemma_days_before_year_mono(a + 1, b);
    }
}

/// A valid date lies within its year.
proof fn lemma_date_in_year(y: int, m: int, d: int)
    requires
        valid_date(y, m, d),
    ensures
        days_before_year(y) <= days_since_epoch(y, m, d) < days_before_year(y + 1),
{
    lemma_days_before_next_year(y);
}

/// A valid date lies within its month: later months start later.
proof fn lemma_month_order(y: int, m1: int, d1: int, m2: int)
    requires
        valid_date(y, m1, d1),
        m1 < m2 <= 12,
    ensures
        days_before_month(y, m1) + d1 - 1 < days_before_month(y, m2),
{
}

/// Law: a day count since 1970-01-01 names at most one calendar date.
pub proof fn lemma_date_unique(y1: int, m1: int, d1: int, y2: int, m2: int, d2: int)
    requires
        valid_date(y1, m1, d1),
        valid_date(y2, m2, d2),
        days_since_epoch(y1, m1, d1) == days_since_epoch(y2, m2, d2),
    ensures
        y1 == y2 && m1 == m2 && d1 == d2,
{
    lemma_date_in_year(y1, m1, d1);
    lemma_date_in_year(y2, m2, d2);
    if y1 < y2 {
        lemma_days_before_year_mono(y1 + 1, y2 + 1);
        lemma_days_before_year_mono(y1, y2);
        if y1 + 1 < y2 {
            lemma_days_before_year_mono(y1 + 1, y2);
        }
    }
    if y2 < y1 {
        lemma_days_before_year_mono(y2, y1);
        if y2 + 1 < y1 {
            lemma_days_before_year_mono(y2 + 1, y1);
        }
    }
    assert(y1 == y2);
    if m1 < m2 {
        lemma_month_order(y1, m1, d1, m2);
    }
    if m2 < m1 {
        lemma_month_order(y1, m2, d2, m1);
    }
}

/// Hinnant's computation yields a valid date of the given day count.
proof fn lemma_civil_correct(days: int)
    requires
        days >= 0,
    ensures
        civil_from_days(days).0 >= 1970,
        valid_date(civil_from_days(days).0, civil_from_days(days).1, civil_from_days(days).2),
        days_since_epoch(civil_from_days(days).0, civil_from_days(days).1, civil_from_days(days).2) == days,
{
    let z = days + 719468;
    let era = z / 146097;
    let doe = z % 146097;
    assert(z == era * 146097 + doe && 0 <= doe < 146097);
    let yoe = (doe - doe / 1460 + doe / 36524 - doe / 146096) / 365;
    let doy = doe - (365 * yoe + yoe / 4 - yoe / 100);
    let mp = (5 * doy + 2) / 153;
    assert(0 <= yoe);
    lemma_era_facts(doe as u32, yoe as u32, doy as u32, (yoe + 1) as u32);
    lemma_month_facts(doy as u32, mp as u32);
    let d = doy - (153 * mp + 2) / 5 + 1;
    let m = if mp < 10 { mp + 3 } else { mp - 9 };
    let cm = (153 * mp + 2) / 5;
    assert(era >= 4);
    lemma_leaps_era(era, yoe);
    lemma_leaps_era(era, yoe - 1);
    lemma_leaps_era(era, yoe + 1);
    lemma_leaps_step(yoe);
    assert(leaps_through(yoe) == yoe / 4 - yoe / 100);
    assert(leaps_through(1969) == 477);
    if mp < 10 {
        let y = yoe + era * 400;
        assert(days_before_year(y) == 146097 * era + 365 * (yoe - 1970) + leaps_through(yoe - 1) - 477);
        assert(days_before_month(y, m) == 59 + cm + if is_leap(yoe) { 1int } else { 0int });
        assert(d <= month_len(y, m));
    } else {
        let y = yoe + era * 400 + 1;
        assert(days_before_year(y) == 146097 * era + 365 * (yoe + 1 - 1970) + leaps_through(yoe) - 477);
        assert(days_before_month(y, m) == cm - 306);
        assert(is_leap(y) == is_leap(yoe + 1));
        assert(d <= month_len(y, m));
    }
}

/// `{:0w}` of a non-negative number.
pub open spec fn padded(n: int, w: nat) -> Seq<char> {
    zero_pad(dec_chars(n as nat), w)
}

/// The calendar date `days` days after 1970-01-01.
pub open spec fn date_of_day(days: int) -> (int, int, int) {
    choose|t: (int, int, int)| valid_date(t.0, t.1, t.2) && days_since_epoch(t.0, t.1, t.2) == days
}

/// RFC 3339 UTC text `YYYY-MM-DDThh:mm:ssZ` of an epoch-milliseconds time.
pub open spec fn spec_rfc3339(epoch_ms: u64) -> Seq<char> {
    let secs = epoch_ms as int / 1000;
    let days = secs / 86400;
    let tod = secs % 86400;
    let date = date_of_day(days);
    padded(date.0, 4) + "-"@ + padded(date.1, 2) + "-"@ + padded(date.2, 2) + "T"@ + padded(
        tod / 3600,
        2,
    ) + ":"@ + padded((tod % 3600) / 60, 2) + ":"@ + padded(tod % 60, 2) + "Z"@
}

/// A zero-padded field of width `w` is `w` characters when the number fits.
proof fn lemma_padded_len(n: int, w: nat)
    requires
        0 <= n < pow10(w),
        w >= 1,
    ensures
        padded(n, w).len() == w,
{
    lemma_dec_len_pow(n as nat, w);
}

/// Law: the timestamp of every time before the year 10000 has the form
/// `YYYY-MM-DDThh:mm:ssZ`, 20 characters, with a valid calendar date; and the
/// milliseconds are dropped, so two times in the same second give the same
/// text.
pub proof fn lemma_rfc3339_form(epoch_ms: u64)
    requires
        epoch_ms < 253_402_300_800_000,
    ensures
        spec_rfc3339(epoch_ms).len() == 20,
        valid_date(date_of_day(epoch_ms as int / 1000 / 86400).0, date_of_day(epoch_ms as int / 1000 / 86400).1, date_of_day(epoch_ms as int / 1000 / 86400).2),
        spec_rfc3339(epoch_ms) == spec_rfc3339((epoch_ms - epoch_ms % 1000) as u64),
{
    let secs = epoch_ms as int / 1000;
    let days = secs / 86400;
    let tod = secs % 86400;
    lemma_civil_correct(days);
    let c = civil_from_days(days);
    assert(valid_date(c.0, c.1, c.2) && days_since_epoch(c.0, c.1, c.2) == days);
    let date = date_of_day(days);
    assert(valid_date(date.0, date.1, date.2) && days_since_epoch(date.0, date.1, date.2) == days);
    lemma_date_unique(date.0, date.1, date.2, c.0, c.1, c.2);
    assert(days < 2932897);
    assert(days_before_year(10000) == 2932897);
    if date.0 >= 10000 {
        lemma_date_in_year(date.0, date.1, date.2);
        if date.0 > 10000 {
            lemma_days_before_year_mono(10000, date.0);
        }
    }
    assert(pow10(4) == 10000nat && pow10(2) == 100nat) by {
        reveal_with_fuel(pow10, 5);
    }
    lemma_padded_len(date.0, 4);
    lemma_padded_len(date.1, 2);
    lemma_padded_len(date.2, 2);
    lemma_padded_len(tod / 3600, 2);
    lemma_padded_len((tod % 3600) / 60, 2);
    lemma_padded_len(tod % 60, 2);
    reveal_strlit("-");
    reveal_strlit("T");
    reveal_strlit(":");
    reveal_strlit("Z");
    let trunc = (epoch_ms - epoch_ms % 1000) as u64;
    assert(trunc as int / 1000 == secs) by {
        vstd::arithmetic::div_mod::lemma_fundamental_div_mod(epoch_ms as int, 1000);
        vstd::arithmetic::div_mod::lemma_fundamental_div_mod_converse(trunc as int, 1000, secs, 0);
    }
}

/// Format epoch-millis as an RFC 3339 UTC timestamp (Hinnant's
/// `civil_from_days` algorithm).
pub fn format_rfc3339_utc(epoch_ms: u64) -> (r: String)
    ensures
        r@ == spec_rfc3339(epoch_ms),
{
    let secs = epoch_ms / 1000;
    let days = secs / 86400;
    let tod = secs % 86400;
    let (hh, mm, ss) = (tod / 3600, (tod % 3600) / 60, tod % 60);
    let z = days + 719_468;
    let era = z / 146_097;
    let doe = z - era * 146_097;
    let yoe = (doe - doe / 1460 + doe / 36_524 - doe / 146_096) / 365;
    proof {
        lemma_era_facts(doe as u32, yoe as u32, (doe + yoe / 100 - 365 * yoe - yoe / 4) as u32, (yoe + 1) as u32);
    }
    let doy = doe - (365 * yoe + yoe / 4 - yoe / 100);
    let mp = (5 * doy + 2) / 153;
    proof {
        lemma_month_facts(doy as u32, mp as u32);
    }
    let d = doy - (153 * mp + 2) / 5 + 1;
    let m = if mp < 10 { mp + 3 } else { mp - 9 };
    let y = yoe + era * 400 + if m <= 2 { 1 } else { 0 };
    proof {
        let days_i = days as int;
        lemma_civil_correct(days_i);
        assert(civil_from_days(days_i) == (y as int, m as int, d as int));
        let t = date_of_day(days_i);
        lemma_date_unique(t.0, t.1, t.2, y as int, m as int, d as int);
    }
    let mut out = String::new();
    push_padded(&mut out, y, 4);
    push_str(&mut out, "-");
    push_padded(&mut out, m, 2);
    push_str(&mut out, "-");
    push_padded(&mut out, d, 2);
    push_str(&mut out, "T");
    push_padded(&mut out, hh, 2);
    push_str(&mut out, ":");
    push_padded(&mut out, mm, 2);
    push_str(&mut out, ":");
    push_padded(&mut out, ss, 2);
    push_str(&mut out, "Z");
    out
}

/// Number of decimal digits of `n`.
fn decimal_len(n: u64) -> (r: usize)
    ensures
        r == dec_chars(n as nat).len(),
        1 <= r <= 20,
{
    let mut digits: usize = 1;
    let mut t = n;
    while t >= 10
        invariant
            1 <= digits <= 20,
            t <= n,
            dec_chars(n as nat).len() == digits - 1 + dec_chars(t as nat).len(),
        decreases t,
    {
        proof {
            assert(dec_chars(t as nat) == dec_chars((t / 10) as nat).push(crate::text::digit_char((t % 10) as nat)));
            lemma_digits_bound(n, t, digits);
        }
        t = t / 10;
        digits = digits + 1;
    }
    assert(dec_chars(t as nat).len() == 1);
    digits
}

/// A `u64` has at most 20 decimal digits.
proof fn lemma_digits_bound(n: u64, t: u64, digits: usize)
    requires
        t >= 10,
        1 <= digits,
        dec_chars(n as nat).len() == digits - 1 + dec_chars(t as nat).len(),
    ensures
        digits < 20,
{
    lemma_dec_len_le(n as nat);
    lemma_dec_len_ge(t as nat);
}

/// `dec_chars(n)` has at most 20 characters for `n <= u64::MAX`.
proof fn lemma_dec_len_le(n: nat)
    requires
        n <= u64::MAX,
    ensures
        dec_chars(n).len() <= 20,
{
    assert(pow10(20) == 100000000000000000000nat) by {
        reveal_with_fuel(pow10, 21);
    }
    lemma_dec_len_pow(n, 20);
}

/// Every decimal text has at least one digit.
proof fn lemma_dec_len_pos(n: nat)
    ensures
        dec_chars(n).len() >= 1,
    decreases n,
{
    if n >= 10 {
        lemma_dec_len_pos(n / 10);
    }
}

/// `dec_chars(n)` has at least 2 characters when `n >= 10`.
proof fn lemma_dec_len_ge(n: nat)
    requires
        n >= 10,
    ensures
        dec_chars(n).len() >= 2,
{
    lemma_dec_len_pos(n / 10);
}

/// Numbers below `10^k` have at most `k` digits.
proof fn lemma_dec_len_pow(n: nat, k: nat)
    requires
        k >= 1,
        n < pow10(k),
    ensures
        dec_chars(n).len() <= k,
    decreases k,
{
    if n >= 10 {
        assert(pow10(k) == 10 * pow10((k - 1) as nat));
        assert(n / 10 < pow10((k - 1) as nat));
        if k == 1 {
            assert(pow10(1) == 10) by { reveal_with_fuel(pow10, 2); }
        } else {
            lemma_dec_len_pow(n / 10, (k - 1) as nat);
        }
    }
}

/// `10^k`.
pub open spec fn pow10(k: nat) -> nat
    decreases k,
{
    if k == 0 {
        1
    } else {
        10 * pow10((k - 1) as nat)
    }
}

/// Append `n` in decimal, left-padded with zeros to width `w`.
fn push_padded(s: &mut String, n: u64, w: usize)
    ensures
        final(s)@ == old(s)@ + padded(n as int, w as nat),
{
    let len = decimal_len(n);
    let ghost start = s@;
    let mut k = len;
    while k < w
        invariant
            len <= k,
            k <= w || k == len,
            s@ == start + Seq::new((k - len) as nat, |i: int| '0'),
        decreases w - k,
    {
        crate::text::push_char(s, '0');
        k = k + 1;
        assert(s@ =~= start + Seq::new((k - len) as nat, |i: int| '0'));
    }
    push_decimal(s, n as u128);
    proof {
        if len < w {
            assert(s@ =~= start + (Seq::new((w - len) as nat, |i: int| '0') + dec_chars(n as nat)));
        } else {
            assert(Seq::new((k - len) as nat, |i: int| '0') =~= Seq::<char>::empty());
            assert(s@ =~= start + dec_chars(n as nat));
        }
    }
}

/// Every key of an open result names an existing result and a representable address.
proof fn lemma_open_keys_wf(results: Seq<ProbeResult>)
    ensures
        forall|k: FindingKey| open_keys(results).contains(k) ==> k.3 < results.len() && (k.0 == 0 ==> k.1 <= u32::MAX) && k.0 <= 1,
    decreases results.len(),
{
    if results.len() > 0 {
        lemma_open_keys_wf(results.drop_last());
        let rest = open_keys(results.drop_last());
        assert forall|k: FindingKey| open_keys(results).contains(k) implies k.3 < results.len() && (k.0 == 0 ==> k.1 <= u32::MAX) && k.0 <= 1 by {
            let s = open_keys(results);
            let i = choose|i: int| 0 <= i < s.len() && s[i] == k;
            if i < rest.len() {
                assert(rest[i] == k);
                assert(rest.contains(k));
            }
        }
    }
}

/// `std::time::SystemTime`, carried through unchanged.
#[verifier::external_type_specification]
#[verifier::external_body]
pub struct ExSystemTime(SystemTime);

/// `std::time::SystemTimeError`, carried through unchanged.
#[verifier::external_type_specification]
#[verifier::external_body]
pub struct ExSystemTimeError(SystemTimeError);

/// `SystemTime::now`: the machine's clock, of which nothing is stated.
#[verifier::external_body]
fn system_now() -> (r: SystemTime) {
    SystemTime::now()
}

/// `SystemTime::duration_since(UNIX_EPOCH)`: the time since the epoch, or an
/// error when the clock reads before it. Nothing is stated of the value.
#[verifier::external_body]
fn since_epoch(t: &SystemTime) -> (r: std::result::Result<Duration, SystemTimeError>) {
    t.duration_since(UNIX_EPOCH)
}

/// `Duration::as_millis`: the whole milliseconds of a duration. `Duration` is
/// opaque here, so nothing is stated of the value.
#[verifier::external_body]
fn duration_millis(d: &Duration) -> (r: u128) {
    d.as_millis()
}

/// Epoch milliseconds from a clock reading: 0 for a reading before the
/// epoch, saturating at `u64::MAX`.
pub fn epoch_ms_from_clock(reading: Option<u128>) -> (r: u64)
    ensures
        r == (match reading {
            Some(ms) => if ms > u64::MAX { u64::MAX as u128 } else { ms },
            None => 0,
        }),
{
    match reading {
        Some(ms) => if ms > u64::MAX as u128 {
            u64::MAX
        } else {
            ms as u64
        },
        None => 0,
    }
}

/// The current wall-clock time in Unix epoch milliseconds (0 when the clock
/// reads before the epoch; saturating at `u64::MAX`).
pub fn now_epoch_ms() -> (r: u64)
{
    match since_epoch(&system_now()) {
        Ok(d) => epoch_ms_from_clock(Some(duration_millis(&d))),
        Err(_) => epoch_ms_from_clock(None),
    }
}

impl ScanReport {
    /// Build a report from probe results and scan inputs: the state rollup,
    /// and the open ports grouped by host (hosts ascending by address, ports
    /// ascending within a host).
    pub fn build(results: &[ProbeResult], inputs: ReportInputs) -> (r: ScanReport)
        ensures
            r.summary.open_ports == count_state(results@, PortState::Open),
            r.summary.closed_ports == count_state(results@, PortState::Closed),
            r.summary.filtered_ports == count_state(results@, PortState::Filtered),
            r.summary.hosts_up == r.hosts@.len(),
            host_models(r.hosts@) == spec_hosts(results@),
            r.meta.tool@ == "ferroscan"@,
            r.meta.version@ == "0.1.0"@,
            r.meta.profile == inputs.profile,
            r.meta.authorized_ack == inputs.authorized_ack,
            r.meta.started_at_utc@ == spec_rfc3339(inputs.started_at_epoch_ms),
            r.meta.started_at_epoch_ms == inputs.started_at_epoch_ms,
            r.meta.duration_ms == inputs.duration_ms,
            r.meta.target_inputs == inputs.target_inputs,
            r.meta.scope == inputs.scope,
            r.meta.hosts_in_scope == inputs.hosts_in_scope,
            r.meta.hosts_refused_out_of_scope == inputs.hosts_refused_out_of_scope,
            r.meta.hosts_scanned == inputs.hosts_scanned,
            r.meta.ports_per_host == inputs.ports_per_host,
            r.meta.total_probes == results@.len(),
            r.meta.concurrency == inputs.concurrency,
            r.meta.timeout_ms == inputs.timeout_ms,
            r.meta.retries == inputs.retries,
    {
        broadcast use vstd::seq_lib::group_to_multiset_ensures;
        let mut open: usize = 0;
        let mut closed: usize = 0;
        let mut filtered: usize = 0;
        let mut keys: Vec<FindingKey> = Vec::new();
        let mut i: usize = 0;
        assert(results@.take(0) =~= Seq::<ProbeResult>::empty());
        while i < results.len()
            invariant
                i <= results@.len(),
                open == count_state(results@.take(i as int), PortState::Open),
                closed == count_state(results@.take(i as int), PortState::Closed),
                filtered == count_state(results@.take(i as int), PortState::Filtered),
                open + closed + filtered == i,
                keys@ == open_keys(results@.take(i as int)),
            decreases results@.len() - i,
        {
            let r = &results[i];
            proof {
                assert(results@.take(i + 1).drop_last() =~= results@.take(i as int));
                assert(results@.take(i + 1).last() == *r);
            }
            match r.state {
                PortState::Open => {
                    open = open + 1;
                    keys.push(key_of(r, i));
                },
                PortState::Closed => {
                    closed = closed + 1;
                },
                PortState::Filtered => {
                    filtered = filtered + 1;
                },
            }
            i = i + 1;
        }
        assert(results@.take(results@.len() as int) =~= results@);
        let ghost unsorted = keys@;
        sort_keys(&mut keys);
        proof {
            unsorted.lemma_sort_by_ensures(key_order());
            lemma_key_order_total();
            lemma_sorted_unique(keys@, unsorted.sort_by(key_order()), key_order());
            lemma_open_keys_wf(results@);
            assert forall|q: int| 0 <= q < keys@.len() implies (#[trigger] keys@[q]).3 < results@.len() && (keys@[q].0 == 0 ==> keys@[q].1 <= u32::MAX) by {
                assert(keys@.to_multiset().count(keys@[q]) > 0);
                assert(unsorted.contains(keys@[q]));
            }
        }
        let hosts = group(&keys, results);
        let summary = Summary { hosts_up: hosts.len(), open_ports: open, closed_ports: closed, filtered_ports: filtered };
        let meta = ScanMeta {
            tool: String::from_str(TOOL_NAME),
            version: String::from_str(TOOL_VERSION),
            profile: inputs.profile,
            authorized_ack: inputs.authorized_ack,
            started_at_utc: format_rfc3339_utc(inputs.started_at_epoch_ms),
            started_at_epoch_ms: inputs.started_at_epoch_ms,
            duration_ms: inputs.duration_ms,
            target_inputs: inputs.target_inputs,
            scope: inputs.scope,
            hosts_in_scope: inputs.hosts_in_scope,
            hosts_refused_out_of_scope: inputs.hosts_refused_out_of_scope,
            hosts_scanned: inputs.hosts_scanned,
            ports_per_host: inputs.ports_per_host,
            total_probes: results.len(),
            concurrency: inputs.concurrency,
            timeout_ms: inputs.timeout_ms,
            retries: inputs.retries,
        };
        ScanReport { meta, summary, hosts }
    }
}

/// Report order of addresses: IPv4 before IPv6, then numerically.
pub open spec fn ip_before(a: IpAddr, b: IpAddr) -> bool {
    match (a, b) {
        (IpAddr::V4(x), IpAddr::V4(y)) => x < y,
        (IpAddr::V4(_), IpAddr::V6(_)) => true,
        (IpAddr::V6(_), IpAddr::V4(_)) => false,
        (IpAddr::V6(x), IpAddr::V6(y)) => x < y,
    }
}

/// The ports of a host are listed in ascending order.
pub open spec fn ports_ascending(ports: Seq<PortModel>) -> bool {
    forall|a: int, b: int| 0 <= a < b < ports.len() ==> #[trigger] ports[a].port <= #[trigger] ports[b].port
}

/// The number of findings listed over all hosts.
pub open spec fn finding_count(hosts: Seq<HostModel>) -> nat
    decreases hosts.len(),
{
    if hosts.len() == 0 {
        0
    } else {
        finding_count(hosts.drop_last()) + hosts.last().ports.len()
    }
}

/// Keys that stand for open results: family 0 or 1, IPv4 values in range.
pub open spec fn keys_wf(keys: Seq<FindingKey>) -> bool {
    forall|i: int| 0 <= i < keys.len() ==> (#[trigger] keys[i]).0 <= 1 && (keys[i].0 == 0 ==> keys[i].1 <= u32::MAX)
}

/// Of two ordered keys, the addresses are equal or in report order; with
/// equal addresses the ports are ordered.
proof fn lemma_key_step(a: FindingKey, b: FindingKey)
    requires
        key_le(a, b),
        a.0 <= 1 && (a.0 == 0 ==> a.1 <= u32::MAX),
        b.0 <= 1 && (b.0 == 0 ==> b.1 <= u32::MAX),
    ensures
        key_ip(a) == key_ip(b) ==> a.2 <= b.2,
        key_ip(a) != key_ip(b) ==> ip_before(key_ip(a), key_ip(b)),
{
}

/// Grouping ordered keys lists hosts in report order, each with at least one
/// port and its ports ascending, and lists every key once.
proof fn lemma_group_sorted(keys: Seq<FindingKey>, results: Seq<ProbeResult>)
    requires
        sorted_by(keys, key_order()),
        keys_wf(keys),
    ensures
        forall|i: int, j: int| 0 <= i < j < group_hosts(keys, results).len() ==> ip_before(
            #[trigger] group_hosts(keys, results)[i].ip,
            #[trigger] group_hosts(keys, results)[j].ip,
        ),
        forall|i: int| 0 <= i < group_hosts(keys, results).len() ==> (#[trigger] group_hosts(keys, results)[i]).ports.len() > 0
            && ports_ascending(group_hosts(keys, results)[i].ports),
        keys.len() > 0 ==> group_hosts(keys, results).len() > 0 && group_hosts(keys, results).last().ip == key_ip(keys.last())
            && group_hosts(keys, results).last().ports.last().port == keys.last().2,
        finding_count(group_hosts(keys, results)) == keys.len(),
    decreases keys.len(),
{
    if keys.len() > 0 {
        let rest = keys.drop_last();
        assert(sorted_by(rest, key_order()));
        assert(keys_wf(rest)) by {
            assert forall|i: int| 0 <= i < rest.len() implies (#[trigger] rest[i]).0 <= 1 && (rest[i].0 == 0 ==> rest[i].1 <= u32::MAX) by {
                assert(rest[i] == keys[i]);
            }
        }
        lemma_group_sorted(rest, results);
        let g = group_hosts(rest, results);
        let k = keys.last();
        let p = key_port(k, results);
        assert(keys[keys.len() - 1] == k);
        if g.len() > 0 && g.last().ip == key_ip(k) {
            let kp = rest.last();
            assert(keys[rest.len() - 1] == kp);
            assert(key_order()(kp, k));
            lemma_key_step(kp, k);
            let h = HostModel { ip: g.last().ip, ports: g.last().ports.push(p) };
            let ng = g.update(g.len() - 1, h);
            assert(ng == group_hosts(keys, results));
            assert(ports_ascending(h.ports)) by {
                let old_ports = g.last().ports;
                assert(g[g.len() - 1] == g.last());
                assert forall|a: int, b: int| 0 <= a < b < h.ports.len() implies #[trigger] h.ports[a].port <= #[trigger] h.ports[b].port by {
                    if b == h.ports.len() - 1 {
                        if a < old_ports.len() - 1 {
                            assert(old_ports[a].port <= old_ports[old_ports.len() - 1].port);
                        }
                    } else {
                        assert(old_ports[a].port <= old_ports[b].port);
                    }
                }
            }
            assert forall|i: int, j: int| 0 <= i < j < ng.len() implies ip_before(#[trigger] ng[i].ip, #[trigger] ng[j].ip) by {
                assert(g[i].ip == ng[i].ip);
                assert(g[j].ip == ng[j].ip);
            }
            assert forall|i: int| 0 <= i < ng.len() implies (#[trigger] ng[i]).ports.len() > 0 && ports_ascending(ng[i].ports) by {
                if i < ng.len() - 1 {
                    assert(ng[i] == g[i]);
                }
            }
            assert(ng.drop_last() =~= g.drop_last());
            assert(finding_count(g) == finding_count(g.drop_last()) + g.last().ports.len());
        } else {
            let h = HostModel { ip: key_ip(k), ports: seq![p] };
            let ng = g.push(h);
            assert(ng == group_hosts(keys, results));
            if g.len() > 0 {
                let kp = rest.last();
                assert(keys[rest.len() - 1] == kp);
                assert(key_order()(kp, k));
                lemma_key_step(kp, k);
                assert(ip_before(g.last().ip, key_ip(k)));
            }
            assert forall|i: int, j: int| 0 <= i < j < ng.len() implies ip_before(#[trigger] ng[i].ip, #[trigger] ng[j].ip) by {
                if j == ng.len() - 1 {
                    if i < g.len() - 1 {
                        assert(ip_before(g[i].ip, g[g.len() - 1].ip));
                    }
                } else {
                    assert(g[i].ip == ng[i].ip);
                    assert(g[j].ip == ng[j].ip);
                }
            }
            assert forall|i: int| 0 <= i < ng.len() implies (#[trigger] ng[i]).ports.len() > 0 && ports_ascending(ng[i].ports) by {
                if i < ng.len() - 1 {
                    assert(ng[i] == g[i]);
                }
            }
            assert(ng.drop_last() =~= g);
        }
    }
}

/// The number of open results is the number of their keys.
proof fn lemma_open_keys_len(results: Seq<ProbeResult>)
    ensures
        open_keys(results).len() == count_state(results, PortState::Open),
    decreases results.len(),
{
    if results.len() > 0 {
        lemma_open_keys_len(results.drop_last());
    }
}

/// Every result has exactly one of the three states.
proof fn lemma_counts_partition(results: Seq<ProbeResult>)
    ensures
        count_state(results, PortState::Open) + count_state(results, PortState::Closed) + count_state(
            results,
            PortState::Filtered,
        ) == results.len(),
    decreases results.len(),
{
    if results.len() > 0 {
        lemma_counts_partition(results.drop_last());
    }
}

/// Law: a report's findings are ordered and complete. Hosts are listed once
/// each in ascending address order (IPv4 before IPv6), every host has at least
/// one open port, its ports are ascending, the findings number exactly the
/// open results, and the open, closed and filtered counts add up to the
/// probes made.
pub proof fn lemma_report_ordered(results: Seq<ProbeResult>)
    ensures
        forall|i: int, j: int| 0 <= i < j < spec_hosts(results).len() ==> ip_before(
            #[trigger] spec_hosts(results)[i].ip,
            #[trigger] spec_hosts(results)[j].ip,
        ),
        forall|i: int| 0 <= i < spec_hosts(results).len() ==> (#[trigger] spec_hosts(results)[i]).ports.len() > 0
            && ports_ascending(spec_hosts(results)[i].ports),
        finding_count(spec_hosts(results)) == count_state(results, PortState::Open),
        count_state(results, PortState::Open) + count_state(results, PortState::Closed) + count_state(
            results,
            PortState::Filtered,
        ) == results.len(),
{
    broadcast use vstd::seq_lib::group_to_multiset_ensures;
    let unsorted = open_keys(results);
    let keys = unsorted.sort_by(key_order());
    lemma_key_order_total();
    unsorted.lemma_sort_by_ensures(key_order());
    lemma_open_keys_wf(results);
    assert(keys_wf(keys)) by {
        assert forall|i: int| 0 <= i < keys.len() implies (#[trigger] keys[i]).0 <= 1 && (keys[i].0 == 0 ==> keys[i].1 <= u32::MAX) by {
            assert(keys.to_multiset().count(keys[i]) > 0);
            assert(unsorted.contains(keys[i]));
        }
    }
    lemma_group_sorted(keys, results);
    lemma_open_keys_len(results);
    assert(keys.len() == unsorted.len()) by {
        assert(keys.to_multiset().len() == unsorted.to_multiset().len());
    }
    lemma_counts_partition(results);
}

} // verus!
