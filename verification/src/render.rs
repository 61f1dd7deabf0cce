//! The human-readable summary of a report, derived from the same data as the
//! JSON. The two timing figures (seconds with two decimals, probes per second
//! rounded) are floating-point renderings and arrive as text.

use vstd::prelude::*;

use crate::config::scope::texts;
use crate::net::IpAddr;
use crate::net_text::{ip_display, push_ip};
use crate::report::{host_models, HostModel, HostReport, PortModel, PortReport, ScanReport};
use crate::text::{dec_chars, push_char, push_decimal, push_str, space_pad};

verus! {

/// The RTT column: milliseconds, or `-` when unknown.
pub open spec fn rtt_text(rtt: Option<u64>) -> Seq<char> {
    match rtt {
        Some(r) => dec_chars(r as nat) + "ms"@,
        None => "-"@,
    }
}

/// One table row: address, `port/transport`, state and RTT, in columns of
/// 39, 10 and 7 characters separated by two spaces.
pub open spec fn port_row(ip: IpAddr, p: PortModel) -> Seq<char> {
    space_pad(ip_display(ip), 39) + "  "@ + space_pad(dec_chars(p.port as nat) + "/"@ + p.transport, 10) + "  "@
        + space_pad(p.state, 7) + "  "@ + rtt_text(p.rtt_ms) + "\n"@
}

/// The rows of one host's open ports.
pub open spec fn port_rows(ip: IpAddr, ports: Seq<PortModel>) -> Seq<char>
    decreases ports.len(),
{
    if ports.len() == 0 {
        Seq::empty()
    } else {
        port_rows(ip, ports.drop_last()) + port_row(ip, ports.last())
    }
}

/// The rows of every host, in order.
pub open spec fn host_rows(hosts: Seq<HostModel>) -> Seq<char>
    decreases hosts.len(),
{
    if hosts.len() == 0 {
        Seq::empty()
    } else {
        host_rows(hosts.drop_last()) + port_rows(hosts.last().ip, hosts.last().ports)
    }
}

/// Texts joined by `sep`.
pub open spec fn join_texts(v: Seq<Seq<char>>, sep: Seq<char>) -> Seq<char>
    decreases v.len(),
{
    if v.len() == 0 {
        Seq::empty()
    } else if v.len() == 1 {
        v[0]
    } else {
        join_texts(v.drop_last(), sep) + sep + v.last()
    }
}

/// The scope line.
pub open spec fn scope_line(scope: Seq<Seq<char>>) -> Seq<char> {
    if scope.len() == 0 {
        "scope: (none configured)\n"@
    } else {
        "scope: "@ + join_texts(scope, ", "@) + "\n"@
    }
}

/// The table header and its rule.
pub open spec fn table_head() -> Seq<char> {
    space_pad("HOST"@, 39) + "  "@ + space_pad("PORT"@, 10) + "  "@ + space_pad("STATE"@, 7) + "  RTT\n"@
        + Seq::new(72, |i: int| '-') + "\n"@
}

/// The findings part: the table of open ports, or a note that there are none.
pub open spec fn findings_text(hosts: Seq<HostModel>) -> Seq<char> {
    if hosts.len() == 0 {
        "No open ports found.\n"@
    } else {
        table_head() + host_rows(hosts)
    }
}

/// The first header line: the tool version.
pub open spec fn title_line(r: ScanReport) -> Seq<char> {
    "ferroscan v"@ + r.meta.version@ + " — scan complete\n"@
}

/// The profile and probe parameters.
pub open spec fn params_line(r: ScanReport) -> Seq<char> {
    "profile: "@ + r.meta.profile@ + " | concurrency: "@ + dec_chars(r.meta.concurrency as nat) + " | timeout: "@
        + dec_chars(r.meta.timeout_ms as nat) + "ms | retries: "@ + dec_chars(r.meta.retries as nat) + "\n"@
}

/// The start time and the rendered timing figures.
pub open spec fn timing_line(r: ScanReport, duration: Seq<char>, throughput: Seq<char>) -> Seq<char> {
    "started: "@ + r.meta.started_at_utc@ + " | duration: "@ + duration + "s | throughput: "@ + throughput
        + " probes/s\n"@
}

/// The host counts of each stage.
pub open spec fn hosts_line(r: ScanReport) -> Seq<char> {
    "hosts: "@ + dec_chars(r.meta.hosts_in_scope as nat) + " in scope, "@ + dec_chars(r.meta.hosts_scanned as nat)
        + " scanned, "@ + dec_chars(r.summary.hosts_up as nat) + " up ("@ + dec_chars(
        r.meta.hosts_refused_out_of_scope as nat,
    ) + " refused out-of-scope)\n"@
}

/// The probe counts by state.
pub open spec fn probes_line(r: ScanReport) -> Seq<char> {
    "probes: "@ + dec_chars(r.meta.total_probes as nat) + " total | open: "@ + dec_chars(r.summary.open_ports as nat)
        + " | closed: "@ + dec_chars(r.summary.closed_ports as nat) + " | filtered: "@ + dec_chars(
        r.summary.filtered_ports as nat,
    ) + "\n"@
}

/// The header lines of the summary, then a blank line.
pub open spec fn head_text(r: ScanReport, duration: Seq<char>, throughput: Seq<char>) -> Seq<char> {
    title_line(r) + params_line(r) + timing_line(r, duration, throughput) + scope_line(texts(r.meta.scope@))
        + hosts_line(r) + probes_line(r) + "\n"@
}

/// The whole human-readable summary.
pub open spec fn human_text(r: ScanReport, duration: Seq<char>, throughput: Seq<char>) -> Seq<char> {
    head_text(r, duration, throughput) + findings_text(host_models(r.hosts@))
}

/// Law: the rows of two runs of ports are the rows of the first, then those
/// of the second, and one port gives exactly its own row — the rows list
/// every port, once each, in order.
pub proof fn lemma_port_rows_concat(ip: IpAddr, a: Seq<PortModel>, b: Seq<PortModel>, p: PortModel)
    ensures
        port_rows(ip, a + b) == port_rows(ip, a) + port_rows(ip, b),
        port_rows(ip, seq![p]) == port_row(ip, p),
    decreases b.len(),
{
    let one = seq![p];
    assert(one.drop_last() =~= Seq::<PortModel>::empty());
    assert(port_rows(ip, one.drop_last()) == Seq::<char>::empty());
    assert(port_rows(ip, one) == port_rows(ip, one.drop_last()) + port_row(ip, one.last()));
    assert(Seq::<char>::empty() + port_row(ip, p) =~= port_row(ip, p));
    if b.len() == 0 {
        assert(a + b =~= a);
        assert(port_rows(ip, a) + Seq::<char>::empty() =~= port_rows(ip, a));
    } else {
        assert((a + b).drop_last() =~= a + b.drop_last());
        assert((a + b).last() == b.last());
        lemma_port_rows_concat(ip, a, b.drop_last(), p);
        assert(port_rows(ip, a) + port_rows(ip, b.drop_last()) + port_row(ip, b.last()) =~= port_rows(ip, a) + (
        port_rows(ip, b.drop_last()) + port_row(ip, b.last())));
    }
}

/// Law: the rows of two runs of hosts are the rows of the first, then those
/// of the second, and one host gives exactly the rows of its open ports —
/// every host's findings are listed, none dropped or repeated, in order.
pub proof fn lemma_host_rows_concat(a: Seq<HostModel>, b: Seq<HostModel>, h: HostModel)
    ensures
        host_rows(a + b) == host_rows(a) + host_rows(b),
        host_rows(seq![h]) == port_rows(h.ip, h.ports),
    decreases b.len(),
{
    let one = seq![h];
    assert(one.drop_last() =~= Seq::<HostModel>::empty());
    assert(host_rows(one.drop_last()) == Seq::<char>::empty());
    assert(host_rows(one) == host_rows(one.drop_last()) + port_rows(one.last().ip, one.last().ports));
    assert(Seq::<char>::empty() + port_rows(h.ip, h.ports) =~= port_rows(h.ip, h.ports));
    if b.len() == 0 {
        assert(a + b =~= a);
        assert(host_rows(a) + Seq::<char>::empty() =~= host_rows(a));
    } else {
        assert((a + b).drop_last() =~= a + b.drop_last());
        assert((a + b).last() == b.last());
        lemma_host_rows_concat(a, b.drop_last(), h);
        assert(host_rows(a) + host_rows(b.drop_last()) + port_rows(b.last().ip, b.last().ports) =~= host_rows(a) + (
        host_rows(b.drop_last()) + port_rows(b.last().ip, b.last().ports)));
    }
}

/// Law: the summary holds a table row for every finding of every host: port
/// `j` of host `i` appears as its own row, with the host's address and the
/// port, between the rows before it and those after it.
pub proof fn lemma_every_finding_has_a_row(r: ScanReport, duration: Seq<char>, throughput: Seq<char>, i: int, j: int)
    requires
        0 <= i < r.hosts@.len(),
        0 <= j < r.hosts@[i].open_ports@.len(),
    ensures
        exists|pre: Seq<char>, post: Seq<char>| human_text(r, duration, throughput) == pre + port_row(
            r.hosts@[i].ip,
            #[trigger] r.hosts@[i].open_ports@[j].model(),
        ) + post,
{
    let hm = host_models(r.hosts@);
    let h = hm[i];
    let p = h.ports[j];
    assert(p == r.hosts@[i].open_ports@[j].model());
    let rows = lemma_row_within(hm, i, j);
    let pre = head_text(r, duration, throughput) + table_head() + rows.0;
    let post = rows.1;
    assert(human_text(r, duration, throughput) == head_text(r, duration, throughput) + (table_head() + host_rows(hm)));
    assert(human_text(r, duration, throughput) =~= pre + port_row(h.ip, p) + post);
}

/// The rows of `hm` around the row of port `j` of host `i`.
proof fn lemma_row_within(hm: Seq<HostModel>, i: int, j: int) -> (parts: (Seq<char>, Seq<char>))
    requires
        0 <= i < hm.len(),
        0 <= j < hm[i].ports.len(),
    ensures
        host_rows(hm) == parts.0 + port_row(hm[i].ip, hm[i].ports[j]) + parts.1,
{
    let h = hm[i];
    let pm = h.ports;
    let p = pm[j];
    assert(hm =~= hm.take(i) + (seq![h] + hm.skip(i + 1)));
    assert(pm =~= pm.take(j) + (seq![p] + pm.skip(j + 1)));
    lemma_host_rows_concat(hm.take(i), seq![h] + hm.skip(i + 1), h);
    lemma_host_rows_concat(seq![h], hm.skip(i + 1), h);
    lemma_port_rows_concat(h.ip, pm.take(j), seq![p] + pm.skip(j + 1), p);
    lemma_port_rows_concat(h.ip, seq![p], pm.skip(j + 1), p);
    let pre = host_rows(hm.take(i)) + port_rows(h.ip, pm.take(j));
    let post = port_rows(h.ip, pm.skip(j + 1)) + host_rows(hm.skip(i + 1));
    assert(host_rows(hm) =~= pre + port_row(h.ip, p) + post);
    (pre, post)
}

/// Append `t` right-padded with spaces to `w` characters.
fn push_cell(s: &mut String, t: &str, w: usize)
    ensures
        final(s)@ == old(s)@ + space_pad(t@, w as nat),
{
    let ghost start = s@;
    push_str(s, t);
    let n = t.unicode_len();
    let mut k = n;
    while k < w
        invariant
            n == t@.len(),
            n <= k,
            k <= w || k == n,
            s@ == start + t@ + Seq::new((k - n) as nat, |i: int| ' '),
        decreases w - k,
    {
        push_char(s, ' ');
        k = k + 1;
        assert(s@ =~= start + t@ + Seq::new((k - n) as nat, |i: int| ' '));
    }
    proof {
        if n >= w {
            assert(Seq::new((k - n) as nat, |i: int| ' ') =~= Seq::<char>::empty());
        }
    }
    assert(s@ =~= start + space_pad(t@, w as nat));
}

/// Append one table row.
fn push_row(s: &mut String, ip: IpAddr, p: &PortReport)
    ensures
        final(s)@ == old(s)@ + port_row(ip, p.model()),
{
    let ghost start = s@;
    let ip_text = ip.to_string();
    push_cell(s, ip_text.as_str(), 39);
    push_str(s, "  ");
    let mut port_text = String::new();
    push_decimal(&mut port_text, p.port as u128);
    push_char(&mut port_text, '/');
    push_str(&mut port_text, p.transport.as_str());
    push_cell(s, port_text.as_str(), 10);
    push_str(s, "  ");
    push_cell(s, p.state.as_str(), 7);
    push_str(s, "  ");
    match p.rtt_ms {
        Some(r) => {
            push_decimal(s, r as u128);
            push_str(s, "ms");
        },
        None => {
            push_str(s, "-");
        },
    }
    push_char(s, '\n');
    proof {
        reveal_strlit("/");
        reveal_strlit("\n");
        assert(port_text@ =~= dec_chars(p.port as nat) + "/"@ + p.transport@);
    }
    assert(s@ =~= start + port_row(ip, p.model()));
}

/// Append the rows of every host.
fn push_rows(s: &mut String, hosts: &Vec<HostReport>)
    ensures
        final(s)@ == old(s)@ + host_rows(host_models(hosts@)),
{
    let ghost start = s@;
    let ghost hm = host_models(hosts@);
    let mut i: usize = 0;
    assert(hm.take(0) =~= Seq::<HostModel>::empty());
    while i < hosts.len()
        invariant
            hm == host_models(hosts@),
            i <= hosts@.len(),
            s@ == start + host_rows(hm.take(i as int)),
        decreases hosts@.len() - i,
    {
        let h = &hosts[i];
        let ghost pm = h.model().ports;
        let ghost before = s@;
        let mut j: usize = 0;
        assert(pm.take(0) =~= Seq::<PortModel>::empty());
        while j < h.open_ports.len()
            invariant
                pm == h.model().ports,
                j <= h.open_ports@.len(),
                s@ == before + port_rows(h.ip, pm.take(j as int)),
            decreases h.open_ports@.len() - j,
        {
            push_row(s, h.ip, &h.open_ports[j]);
            proof {
                assert(pm.take(j + 1).drop_last() =~= pm.take(j as int));
                assert(pm.take(j + 1).last() == h.open_ports@[j as int].model());
            }
            j = j + 1;
            assert(s@ =~= before + port_rows(h.ip, pm.take(j as int)));
        }
        proof {
            assert(pm.take(j as int) =~= pm);
            assert(hm.take(i + 1).drop_last() =~= hm.take(i as int));
            assert(hm.take(i + 1).last() == h.model());
        }
        i = i + 1;
        assert(s@ =~= start + host_rows(hm.take(i as int)));
    }
    assert(hm.take(i as int) =~= hm);
}

/// Append the scope entries joined by `, `.
fn push_joined(s: &mut String, v: &Vec<String>)
    ensures
        final(s)@ == old(s)@ + join_texts(texts(v@), ", "@),
{
    let ghost start = s@;
    let ghost t = texts(v@);
    let mut i: usize = 0;
    assert(t.take(0) =~= Seq::<Seq<char>>::empty());
    while i < v.len()
        invariant
            t == texts(v@),
            i <= v@.len(),
            s@ == start + join_texts(t.take(i as int), ", "@),
        decreases v@.len() - i,
    {
        if i > 0 {
            push_str(s, ", ");
        }
        push_str(s, v[i].as_str());
        proof {
            let sub = t.take(i + 1);
            assert(sub.drop_last() =~= t.take(i as int));
            assert(sub.last() == v@[i as int]@);
            if i == 0 {
                assert(sub.len() == 1);
            }
        }
        i = i + 1;
        assert(s@ =~= start + join_texts(t.take(i as int), ", "@));
    }
    assert(t.take(i as int) =~= t);
}

fn push_title(s: &mut String, r: &ScanReport)
    ensures
        final(s)@ == old(s)@ + title_line(*r),
{
    let ghost start = s@;
    push_str(s, "ferroscan v");
    push_str(s, r.meta.version.as_str());
    push_str(s, " — scan complete\n");
    assert(s@ =~= start + title_line(*r));
}

fn push_params(s: &mut String, r: &ScanReport)
    ensures
        final(s)@ == old(s)@ + params_line(*r),
{
    let ghost start = s@;
    push_str(s, "profile: ");
    push_str(s, r.meta.profile.as_str());
    push_str(s, " | concurrency: ");
    push_decimal(s, r.meta.concurrency as u128);
    push_str(s, " | timeout: ");
    push_decimal(s, r.meta.timeout_ms as u128);
    push_str(s, "ms | retries: ");
    push_decimal(s, r.meta.retries as u128);
    push_str(s, "\n");
    assert(s@ =~= start + params_line(*r));
}

fn push_timing(s: &mut String, r: &ScanReport, duration: &str, throughput: &str)
    ensures
        final(s)@ == old(s)@ + timing_line(*r, duration@, throughput@),
{
    let ghost start = s@;
    push_str(s, "started: ");
    push_str(s, r.meta.started_at_utc.as_str());
    push_str(s, " | duration: ");
    push_str(s, duration);
    push_str(s, "s | throughput: ");
    push_str(s, throughput);
    push_str(s, " probes/s\n");
    assert(s@ =~= start + timing_line(*r, duration@, throughput@));
}

fn push_scope(s: &mut String, r: &ScanReport)
    ensures
        final(s)@ == old(s)@ + scope_line(texts(r.meta.scope@)),
{
    let ghost start = s@;
    if r.meta.scope.len() == 0 {
        push_str(s, "scope: (none configured)\n");
    } else {
        push_str(s, "scope: ");
        push_joined(s, &r.meta.scope);
        push_str(s, "\n");
    }
    assert(s@ =~= start + scope_line(texts(r.meta.scope@)));
}

fn push_hosts(s: &mut String, r: &ScanReport)
    ensures
        final(s)@ == old(s)@ + hosts_line(*r),
{
    let ghost start = s@;
    push_str(s, "hosts: ");
    push_decimal(s, r.meta.hosts_in_scope as u128);
    push_str(s, " in scope, ");
    push_decimal(s, r.meta.hosts_scanned as u128);
    push_str(s, " scanned, ");
    push_decimal(s, r.summary.hosts_up as u128);
    push_str(s, " up (");
    push_decimal(s, r.meta.hosts_refused_out_of_scope as u128);
    push_str(s, " refused out-of-scope)\n");
    assert(s@ =~= start + hosts_line(*r));
}

fn push_probes(s: &mut String, r: &ScanReport)
    ensures
        final(s)@ == old(s)@ + probes_line(*r),
{
    let ghost start = s@;
    push_str(s, "probes: ");
    push_decimal(s, r.meta.total_probes as u128);
    push_str(s, " total | open: ");
    push_decimal(s, r.summary.open_ports as u128);
    push_str(s, " | closed: ");
    push_decimal(s, r.summary.closed_ports as u128);
    push_str(s, " | filtered: ");
    push_decimal(s, r.summary.filtered_ports as u128);
    push_str(s, "\n");
    assert(s@ =~= start + probes_line(*r));
}

/// Append the header lines.
fn push_head(s: &mut String, r: &ScanReport, duration: &str, throughput: &str)
    ensures
        final(s)@ == old(s)@ + head_text(*r, duration@, throughput@),
{
    let ghost start = s@;
    push_title(s, r);
    push_params(s, r);
    push_timing(s, r, duration, throughput);
    push_scope(s, r);
    push_hosts(s, r);
    push_probes(s, r);
    push_str(s, "\n");
    assert(s@ =~= start + head_text(*r, duration@, throughput@));
}

impl ScanReport {
    /// The human-readable summary: scan parameters, host and probe counts,
    /// then a table of open ports (or a note that none were found).
    /// `duration` and `throughput` are the run time in seconds and the
    /// probes per second, already rendered.
    pub fn human_text(&self, duration: &str, throughput: &str) -> (r: String)
        ensures
            r@ == human_text(*self, duration@, throughput@),
    {
        let mut s = String::new();
        push_head(&mut s, self, duration, throughput);
        let ghost mid = s@;
        if self.hosts.len() == 0 {
            push_str(&mut s, "No open ports found.\n");
        } else {
            push_cell(&mut s, "HOST", 39);
            push_str(&mut s, "  ");
            push_cell(&mut s, "PORT", 10);
            push_str(&mut s, "  ");
            push_cell(&mut s, "STATE", 7);
            push_str(&mut s, "  RTT\n");
            let ghost before_rule = s@;
            let mut k: usize = 0;
            while k < 72
                invariant
                    k <= 72,
                    s@ == before_rule + Seq::new(k as nat, |i: int| '-'),
                decreases 72 - k,
            {
                push_char(&mut s, '-');
                k = k + 1;
                assert(s@ =~= before_rule + Seq::new(k as nat, |i: int| '-'));
            }
            push_str(&mut s, "\n");
            assert(s@ =~= mid + table_head());
            push_rows(&mut s, &self.hosts);
        }
        assert(s@ =~= human_text(*self, duration@, throughput@));
        s
    }
}

} // verus!
