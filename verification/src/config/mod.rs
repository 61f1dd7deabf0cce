//! Configuration: target, port and scope parsing, and the validated
//! [`ScanConfig`] assembled from them, with profile defaults applied where
//! the user did not override.

pub mod ports;
pub mod scope;
pub mod target;

use std::path::PathBuf;

use vstd::prelude::*;

use crate::cli::{Cli, Format, Profile};
use crate::error::{Error, Result};
use crate::text::{chars_of, dec_chars, is_ws, split, split_bounds, string_of_range, trim, trim_bounds, trim_end, trim_start};
use ports::{TOP_PORTS, all_ports, ascending_listing, every_port, lemma_all_ports_listing, parse_port_spec, spec_ports, top_ports, top_set};
use scope::Scope;
use target::{parse_target_token, target_outcome, TargetModel, TargetSpec};

verus! {

/// A fully-validated, ready-to-run scan configuration.
#[derive(Debug)]
pub struct ScanConfig {
    /// Parsed (not yet expanded) target specifications.
    pub targets: Vec<TargetSpec>,
    /// The target strings as given, for report metadata.
    pub target_inputs: Vec<String>,
    /// Sorted, de-duplicated ports to scan.
    pub ports: Vec<u16>,
    /// User-requested concurrency cap (may be further limited by the fd budget).
    pub requested_concurrency: Option<usize>,
    /// Per-connection timeout, in milliseconds.
    pub timeout_ms: u64,
    /// Retries for ambiguous (timed-out) probes.
    pub retries: u32,
    /// Optional target for raising the fd soft limit.
    pub ulimit: Option<u64>,
    /// The selected timing/safety profile.
    pub profile: Profile,
    /// Optional global rate cap (probes/sec).
    pub max_rate: Option<u32>,
    /// The authorized scope allowlist.
    pub scope: Scope,
    /// Whether the operator acknowledged authorization.
    pub authorized: bool,
    /// Whether to run TCP-ping host discovery first.
    pub ping: bool,
    /// Report format.
    pub format: Format,
    /// Optional output file (stdout if `None`).
    pub output: Option<PathBuf>,
    /// Whether to render a progress bar.
    pub progress: bool,
    /// Safety cap on expanded host count.
    pub max_targets: usize,
}

/// The texts of a list of strings.
pub open spec fn texts(v: Seq<String>) -> Seq<Seq<char>> {
    v.map_values(|s: String| s@)
}

/// The entries of a newline-delimited list file: each line trimmed, blank
/// lines and lines starting with `#` skipped.
pub open spec fn list_entries(lines: Seq<Seq<char>>) -> Seq<Seq<char>>
    decreases lines.len(),
{
    if lines.len() == 0 {
        Seq::empty()
    } else {
        let rest = list_entries(lines.drop_last());
        let t = trim(lines.last());
        if t.len() == 0 || t[0] == '#' {
            rest
        } else {
            rest.push(t)
        }
    }
}

/// The entries of a list file's text (`\r\n` line ends trim away with the whitespace).
pub open spec fn file_entries(content: Seq<char>) -> Seq<Seq<char>> {
    list_entries(split(content, '\n'))
}

/// Parse a newline-delimited list file's text, trimming whitespace and skipping
/// blank lines and `#` comments.
pub fn list_file_entries(content: &str) -> (r: Vec<String>)
    ensures
        texts(r@) == file_entries(content@),
{
    let v = chars_of(content);
    let b = split_bounds(&v, 0, v.len(), '\n');
    assert(v@.subrange(0, v@.len() as int) =~= v@);
    let ghost lines = split(v@, '\n');
    let mut out: Vec<String> = Vec::new();
    let mut i: usize = 0;
    assert(lines.take(0) =~= Seq::<Seq<char>>::empty());
    assert(texts(out@) =~= Seq::<Seq<char>>::empty());
    while i < b.len()
        invariant
            i <= b@.len() == lines.len(),
            lines == split(v@, '\n'),
            forall|k: int| 0 <= k < b@.len() ==> (#[trigger] b@[k]).0 <= b@[k].1 <= v@.len() && v@.subrange(b@[k].0 as int, b@[k].1 as int) == lines[k],
            texts(out@) == list_entries(lines.take(i as int)),
        decreases b@.len() - i,
    {
        let (lo, hi) = b[i];
        let (a, c) = trim_bounds(&v, lo, hi);
        proof {
            assert(lines.take(i + 1).drop_last() =~= lines.take(i as int));
            assert(lines.take(i + 1).last() == lines[i as int]);
        }
        if a < c && v[a] != '#' {
            let s = string_of_range(&v, a, c);
            let ghost before = texts(out@);
            out.push(s);
            assert(texts(out@) =~= before.push(v@.subrange(a as int, c as int)));
        }
        i = i + 1;
    }
    assert(lines.take(lines.len() as int) =~= lines);
    out
}

/// Parse every target input in order; the first rejected token (trimmed) and
/// its reason are the failure.
pub open spec fn parse_all(inputs: Seq<Seq<char>>) -> std::result::Result<Seq<TargetModel>, (Seq<char>, Seq<char>)>
    decreases inputs.len(),
{
    if inputs.len() == 0 {
        Ok(Seq::empty())
    } else {
        match parse_all(inputs.drop_last()) {
            Err(e) => Err(e),
            Ok(rest) => match target_outcome(inputs.last()) {
                Ok(m) => Ok(rest.push(m)),
                Err(reason) => Err((trim(inputs.last()), reason)),
            },
        }
    }
}

/// The models of a list of targets.
pub open spec fn target_models(v: Seq<TargetSpec>) -> Seq<TargetModel> {
    v.map_values(|t: TargetSpec| t.model())
}

/// Which ports the command line selects, as a set: `--ports`, else
/// `--top-ports`, else `--all-ports`, else the whole built-in top list; or
/// the specification and reason of the port error the selection is refused with.
pub open spec fn port_selection(cli: &Cli) -> std::result::Result<Set<int>, (Seq<char>, Seq<char>)> {
    match cli.ports {
        Some(spec) => match spec_ports(spec@) {
            Ok(s) => if s.is_empty() { Err((spec@, "no ports selected"@)) } else { Ok(s) },
            Err(e) => Err((spec@, e)),
        },
        None => match cli.top_ports {
            Some(n) => if n == 0 {
                Err(("--top-ports "@ + dec_chars(0), "must be at least 1"@))
            } else {
                Ok(top_set(if n < 100 { n as int } else { 100 }))
            },
            None => if cli.all_ports {
                Ok(every_port())
            } else {
                Ok(top_set(100))
            },
        },
    }
}

/// The strings of `a` followed by those of `b`.
fn concat_inputs(a: &Vec<String>, b: &Vec<String>) -> (r: Vec<String>)
    ensures
        texts(r@) == texts(a@) + texts(b@),
{
    let mut out: Vec<String> = Vec::new();
    let mut i: usize = 0;
    while i < a.len()
        invariant
            i <= a@.len(),
            out@.len() == i,
            forall|k: int| 0 <= k < i ==> (#[trigger] out@[k])@ == a@[k]@,
        decreases a@.len() - i,
    {
        out.push(a[i].clone());
        i = i + 1;
    }
    let mut j: usize = 0;
    while j < b.len()
        invariant
            j <= b@.len(),
            out@.len() == a@.len() + j,
            forall|k: int| 0 <= k < a@.len() ==> (#[trigger] out@[k])@ == a@[k]@,
            forall|k: int| 0 <= k < j ==> (#[trigger] out@[a@.len() + k])@ == b@[k]@,
        decreases b@.len() - j,
    {
        out.push(b[j].clone());
        assert(out@[a@.len() + j] == b@[j as int]);
        j = j + 1;
    }
    assert forall|k: int| 0 <= k < out@.len() implies #[trigger] texts(out@)[k] == (texts(a@) + texts(b@))[k] by {
        if k >= a@.len() {
            assert(out@[a@.len() + (k - a@.len())] == out@[k]);
        }
    }
    assert(texts(out@) =~= texts(a@) + texts(b@));
    out
}

/// Parse every input in order, stopping at the first rejected one.
fn parse_targets(inputs: &Vec<String>) -> (r: Result<Vec<TargetSpec>>)
    ensures
        match r {
            Ok(targets) => parse_all(texts(inputs@)) == Ok::<Seq<TargetModel>, (Seq<char>, Seq<char>)>(target_models(targets@)),
            Err(Error::TargetParse { token, reason }) => parse_all(texts(inputs@)) == Err::<Seq<TargetModel>, (Seq<char>, Seq<char>)>((token@, reason@)),
            Err(_) => false,
        },
{
    let ghost all = texts(inputs@);
    let mut targets: Vec<TargetSpec> = Vec::new();
    let mut k: usize = 0;
    assert(all.take(0) =~= Seq::<Seq<char>>::empty());
    assert(target_models(targets@) =~= Seq::<TargetModel>::empty());
    while k < inputs.len()
        invariant
            k <= inputs@.len(),
            all == texts(inputs@),
            parse_all(all.take(k as int)) == Ok::<Seq<TargetModel>, (Seq<char>, Seq<char>)>(target_models(targets@)),
        decreases inputs@.len() - k,
    {
        proof {
            assert(all.take(k + 1).drop_last() =~= all.take(k as int));
            assert(all.take(k + 1).last() == inputs@[k as int]@);
        }
        match parse_target_token(inputs[k].as_str()) {
            Ok(t) => {
                let ghost before = target_models(targets@);
                targets.push(t);
                assert(target_models(targets@) =~= before.push(t.model()));
            },
            Err(e) => {
                proof {
                    lemma_parse_all_prefix_err(all, k as int + 1);
                }
                return Err(e);
            },
        }
        k = k + 1;
    }
    assert(all.take(inputs@.len() as int) =~= all);
    Ok(targets)
}

/// The ports a command line selects, ascending; an empty selection is an error.
fn select_ports(cli: &Cli) -> (r: Result<Vec<u16>>)
    ensures
        match r {
            Ok(ports) => port_selection(cli) matches Ok(s) && ascending_listing(ports@, s),
            Err(Error::PortParse { spec, reason }) => port_selection(cli) == Err::<Set<int>, (Seq<char>, Seq<char>)>((spec@, reason@)),
            Err(_) => false,
        },
{
    let ports = match &cli.ports {
        Some(spec) => parse_port_spec(spec.as_str()),
        None => match cli.top_ports {
            Some(n) => top_ports(n),
            None => if cli.all_ports {
                let v = all_ports();
                proof {
                    lemma_all_ports_listing(v@);
                }
                Ok(v)
            } else {
                top_ports(100)
            },
        },
    };
    match ports {
        Ok(p) => {
            if p.len() == 0 {
                proof {
                    // every selection that succeeds lists at least one port
                    if cli.ports is None && cli.top_ports is Some {
                        let n = cli.top_ports.unwrap();
                        let k: int = if n < 100 { n as int } else { 100 };
                        assert(0 < k && TOP_PORTS@[0] == TOP_PORTS@[0]);
                        assert(top_set(k).contains(TOP_PORTS@[0] as int));
                    }
                    if cli.ports is None && cli.top_ports is None && !cli.all_ports {
                        assert(TOP_PORTS@[0] == TOP_PORTS@[0]);
                        assert(top_set(100).contains(TOP_PORTS@[0] as int));
                    }
                }
                return Err(Error::NoPorts);
            }
            proof {
                if let Some(spec) = &cli.ports {
                    if let Ok(sel) = spec_ports(spec@) {
                        assert(p@[0] == p@[0]);
                        assert(sel.contains(p@[0] as int));
                    }
                }
            }
            Ok(p)
        },
        Err(e) => Err(e),
    }
}

impl ScanConfig {
    /// Validate the targets and ports of a command line: the positional
    /// targets followed by those read from the target file (`file_targets`),
    /// each parsed; and exactly one port selection, defaulting to the built-in
    /// top-ports list. Returns the target inputs, the parsed targets and the
    /// ascending ports.
    pub fn validate(cli: &Cli, file_targets: Vec<String>) -> (r: Result<(Vec<String>, Vec<TargetSpec>, Vec<u16>)>)
        ensures
            match r {
                Ok((inputs, targets, ports)) => {
                    &&& texts(inputs@) == texts(cli.targets@) + texts(file_targets@)
                    &&& inputs@.len() > 0
                    &&& parse_all(texts(inputs@)) == Ok::<Seq<TargetModel>, (Seq<char>, Seq<char>)>(target_models(targets@))
                    &&& port_selection(cli) matches Ok(s) && ascending_listing(ports@, s)
                },
                Err(Error::NoTargets { stage }) => stage@ == "input"@ && cli.targets@.len() + file_targets@.len() == 0,
                Err(Error::TargetParse { token, reason }) => cli.targets@.len() + file_targets@.len() > 0
                    && parse_all(texts(cli.targets@) + texts(file_targets@)) == Err::<Seq<TargetModel>, (Seq<char>, Seq<char>)>((token@, reason@)),
                Err(Error::PortParse { spec, reason }) => cli.targets@.len() + file_targets@.len() > 0
                    && parse_all(texts(cli.targets@) + texts(file_targets@)) is Ok
                    && port_selection(cli) == Err::<Set<int>, (Seq<char>, Seq<char>)>((spec@, reason@)),
                Err(_) => false,
            },
    {
        let inputs = concat_inputs(&cli.targets, &file_targets);
        if inputs.len() == 0 {
            proof {
                assert(texts(inputs@).len() == texts(cli.targets@).len() + texts(file_targets@).len());
            }
            return Err(Error::NoTargets { stage: "input" });
        }
        proof {
            assert(texts(inputs@).len() == texts(cli.targets@).len() + texts(file_targets@).len());
        }
        let targets = match parse_targets(&inputs) {
            Ok(t) => t,
            Err(e) => return Err(e),
        };
        let ports = match select_ports(cli) {
            Ok(p) => p,
            Err(e) => return Err(e),
        };
        Ok((inputs, targets, ports))
    }

    /// Assemble the configuration, applying profile defaults where the user
    /// did not override (explicit flags win).
    pub fn assemble(cli: Cli, target_inputs: Vec<String>, targets: Vec<TargetSpec>, ports: Vec<u16>, scope: Scope) -> (r: ScanConfig)
        ensures
            r.targets == targets,
            r.target_inputs == target_inputs,
            r.ports == ports,
            r.requested_concurrency == cli.concurrency,
            r.timeout_ms == (match cli.timeout_ms {
                Some(t) => t,
                None => cli.profile.spec_timeout_ms(),
            }),
            r.retries == (match cli.retries {
                Some(n) => n,
                None => cli.profile.spec_retries(),
            }),
            r.ulimit == cli.ulimit,
            r.profile == cli.profile,
            r.max_rate == (match cli.max_rate {
                Some(x) => Some(x),
                None => cli.profile.spec_max_rate(),
            }),
            r.scope == scope,
            r.authorized == cli.authorized,
            r.ping == cli.ping,
            r.format == cli.format,
            r.output == cli.output,
            r.progress == !cli.no_progress,
            r.max_targets == cli.max_targets,
    {
        let profile = cli.profile;
        let timeout_ms = match cli.timeout_ms {
            Some(t) => t,
            None => profile.default_timeout_ms(),
        };
        let retries = match cli.retries {
            Some(n) => n,
            None => profile.default_retries(),
        };
        let max_rate = match cli.max_rate {
            Some(x) => Some(x),
            None => profile.default_max_rate(),
        };
        ScanConfig {
            targets,
            target_inputs,
            ports,
            requested_concurrency: cli.concurrency,
            timeout_ms,
            retries,
            ulimit: cli.ulimit,
            profile,
            max_rate,
            scope,
            authorized: cli.authorized,
            ping: cli.ping,
            format: cli.format,
            output: cli.output,
            progress: !cli.no_progress,
            max_targets: cli.max_targets,
        }
    }
}

/// A rejected input stays the failure however many inputs follow it.
proof fn lemma_parse_all_prefix_err(all: Seq<Seq<char>>, k: int)
    requires
        0 < k <= all.len(),
        parse_all(all.take(k)) is Err,
    ensures
        parse_all(all) == parse_all(all.take(k)),
    decreases all.len() - k,
{
    if k < all.len() {
        assert(all.take(k + 1).drop_last() =~= all.take(k));
        lemma_parse_all_prefix_err(all, k + 1);
    } else {
        assert(all.take(k) =~= all);
    }
}

/// What `trim_start` leaves starts with a non-whitespace character.
proof fn lemma_trim_start_clean(s: Seq<char>)
    ensures
        trim_start(s).len() > 0 ==> !is_ws(trim_start(s)[0]),
        trim_start(s).len() <= s.len(),
        trim_start(s) == s.skip(s.len() - trim_start(s).len()),
    decreases s.len(),
{
    if s.len() > 0 && is_ws(s[0]) {
        lemma_trim_start_clean(s.drop_first());
        assert(s.drop_first().skip(s.drop_first().len() - trim_start(s).len()) =~= s.skip(s.len() - trim_start(s).len()));
    } else {
        assert(s.skip(0) =~= s);
    }
}

/// What `trim_end` leaves ends with a non-whitespace character and is a prefix.
proof fn lemma_trim_end_clean(s: Seq<char>)
    ensures
        trim_end(s).len() > 0 ==> !is_ws(trim_end(s).last()),
        trim_end(s).len() <= s.len(),
        trim_end(s) == s.take(trim_end(s).len() as int),
    decreases s.len(),
{
    if s.len() > 0 && is_ws(s.last()) {
        lemma_trim_end_clean(s.drop_last());
        assert(s.drop_last().take(trim_end(s).len() as int) =~= s.take(trim_end(s).len() as int));
    } else {
        assert(s.take(s.len() as int) =~= s);
    }
}

/// Trimming twice is trimming once.
proof fn lemma_trim_idempotent(s: Seq<char>)
    ensures
        trim(trim(s)) == trim(s),
{
    let u = trim_start(s);
    let t = trim_end(u);
    lemma_trim_start_clean(s);
    lemma_trim_end_clean(u);
    if t.len() > 0 {
        assert(t == u.take(t.len() as int));
        assert(u.take(t.len() as int)[0] == u[0]);
        assert(t[0] == u[0]);
    }
    assert(trim_start(t) == t);
    lemma_trim_end_clean(t);
    assert(trim_end(t) == t);
}

/// Law: every entry read from a list file is non-empty, already trimmed, and
/// not a `#` comment.
pub proof fn lemma_list_entries_clean(lines: Seq<Seq<char>>)
    ensures
        forall|i: int| 0 <= i < list_entries(lines).len() ==> (#[trigger] list_entries(lines)[i]).len() > 0
            && list_entries(lines)[i][0] != '#' && trim(list_entries(lines)[i]) == list_entries(lines)[i],
    decreases lines.len(),
{
    if lines.len() > 0 {
        lemma_list_entries_clean(lines.drop_last());
        lemma_trim_idempotent(lines.last());
        let rest = list_entries(lines.drop_last());
        assert forall|i: int| 0 <= i < list_entries(lines).len() implies (#[trigger] list_entries(lines)[i]).len() > 0
            && list_entries(lines)[i][0] != '#' && trim(list_entries(lines)[i]) == list_entries(lines)[i] by {
            if i < rest.len() {
                assert(list_entries(lines)[i] == rest[i]);
            }
        }
    }
}

} // verus!
