//! Scan orchestration as a state machine: expand targets → enforce scope →
//! plan concurrency → (optionally) discover → scan → assemble the report.
//!
//! The caller runs the loop: it performs the outside work an action asks for
//! (DNS, reading the fd limit, connection attempts under a rate limiter) and
//! hands back what came of it as the next event. Every decision that stands
//! in front of network activity — which addresses may be probed, when a run
//! stops for lack of targets, how wide discovery fans out, whether a rate cap
//! applies — is made by [`step`].

use vstd::prelude::*;

use crate::config::scope::{allowed_of, refused_of, scope_allows, texts, EntryModel, Scope};
use crate::config::ScanConfig;
use crate::discovery::{select_up, up_hosts};
use crate::error::{Error, Result};
use crate::net::IpAddr;
use crate::report::ReportInputs;
use crate::scanner::batch::BatchPlan;

verus! {

/// Number of file descriptors a single discovery host uses (one per ping port).
pub const DISCOVERY_FANOUT: usize = 5;

/// The addresses admitted for probing, and those refused as out of scope.
pub struct Admitted {
    /// In-scope addresses, in expansion order.
    pub in_scope: Vec<IpAddr>,
    /// Out-of-scope addresses, in expansion order; these are never probed.
    pub refused: Vec<IpAddr>,
}

/// Enforce the authorized scope on the expanded addresses, before any packet
/// is sent. Stops the run when expansion produced nothing, or when nothing
/// expanded is in scope.
pub fn admit_targets(scope: &Scope, expanded: Vec<IpAddr>) -> (r: Result<Admitted>)
    ensures
        match r {
            Ok(a) => {
                &&& expanded@.len() > 0
                &&& a.in_scope@ == allowed_of(scope@.entries, expanded@)
                &&& a.refused@ == refused_of(scope@.entries, expanded@)
                &&& a.in_scope@.len() > 0
            },
            Err(Error::NoTargets { stage }) => {
                ||| (stage@ == "expansion"@ && expanded@.len() == 0)
                ||| (stage@ == "scope enforcement"@ && expanded@.len() > 0 && allowed_of(scope@.entries, expanded@).len() == 0)
            },
            Err(_) => false,
        },
{
    if expanded.len() == 0 {
        return Err(Error::NoTargets { stage: "expansion" });
    }
    let (in_scope, refused) = scope.partition(expanded);
    if in_scope.len() == 0 {
        return Err(Error::NoTargets { stage: "scope enforcement" });
    }
    Ok(Admitted { in_scope, refused })
}

/// How many hosts discovery pings at once: each host takes one descriptor per
/// ping port, so the scan concurrency is divided by the fan-out, and at least
/// one host is pinged at a time.
pub fn discovery_concurrency(concurrency: usize) -> (r: usize)
    ensures
        r == (if concurrency / 5 < 1 { 1 } else { concurrency / 5 }),
        r >= 1,
{
    let c = concurrency / DISCOVERY_FANOUT;
    if c < 1 {
        1
    } else {
        c
    }
}

/// The hosts to scan after discovery: those that responded, in order. Stops
/// the run when no host responded.
pub fn after_discovery(up: Vec<IpAddr>) -> (r: Result<Vec<IpAddr>>)
    ensures
        match r {
            Ok(v) => v == up && up@.len() > 0,
            Err(Error::NoTargets { stage }) => stage@ == "discovery"@ && up@.len() == 0,
            Err(_) => false,
        },
{
    if up.len() == 0 {
        return Err(Error::NoTargets { stage: "discovery" });
    }
    Ok(up)
}

/// The global rate cap in probes per second, if one applies: a cap of 0
/// means no cap.
pub fn rate_cap(max_rate: Option<u32>) -> (r: Option<u32>)
    ensures
        r == (match max_rate {
            Some(x) => if x > 0 { Some(x) } else { None },
            None => None,
        }),
{
    match max_rate {
        Some(x) => if x > 0 {
            Some(x)
        } else {
            None
        },
        None => None,
    }
}

/// What the report's inputs of a run of `config` hold: the profile, the
/// acknowledgement, the timing, the target inputs and the scope entries as
/// given, the host counts of each stage, and the probe parameters.
pub open spec fn inputs_match(
    r: ReportInputs,
    config: ScanConfig,
    started_at_epoch_ms: u64,
    duration_ms: u128,
    hosts_in_scope: usize,
    hosts_refused: usize,
    hosts_scanned: usize,
    concurrency: usize,
) -> bool {
    &&& r.profile@ == config.profile.spec_as_str()
    &&& r.authorized_ack == config.authorized
    &&& r.started_at_epoch_ms == started_at_epoch_ms
    &&& r.duration_ms == duration_ms
    &&& texts(r.target_inputs@) == texts(config.target_inputs@)
    &&& texts(r.scope@) == config.scope@.raw
    &&& r.hosts_in_scope == hosts_in_scope
    &&& r.hosts_refused_out_of_scope == hosts_refused
    &&& r.hosts_scanned == hosts_scanned
    &&& r.ports_per_host == config.ports@.len()
    &&& r.concurrency == concurrency
    &&& r.timeout_ms == config.timeout_ms
    &&& r.retries == config.retries
}

/// The report's scan inputs for a run of `config`: the profile, the
/// acknowledgement, the timing, the target inputs and the scope entries as
/// given, the host counts of each stage, and the probe parameters.
pub fn report_inputs(
    config: &ScanConfig,
    started_at_epoch_ms: u64,
    duration_ms: u128,
    hosts_in_scope: usize,
    hosts_refused: usize,
    hosts_scanned: usize,
    concurrency: usize,
) -> (r: ReportInputs)
    ensures
        inputs_match(r, *config, started_at_epoch_ms, duration_ms, hosts_in_scope, hosts_refused, hosts_scanned, concurrency),
{
    ReportInputs {
        profile: String::from_str(config.profile.as_str()),
        authorized_ack: config.authorized,
        started_at_epoch_ms,
        duration_ms,
        target_inputs: copy_strings(config.target_inputs.as_slice()),
        scope: copy_strings(config.scope.raw()),
        hosts_in_scope,
        hosts_refused_out_of_scope: hosts_refused,
        hosts_scanned,
        ports_per_host: config.ports.len(),
        concurrency,
        timeout_ms: config.timeout_ms,
        retries: config.retries,
    }
}

/// A copy of a list of strings.
fn copy_strings(v: &[String]) -> (r: Vec<String>)
    ensures
        texts(r@) == texts(v@),
{
    let mut out: Vec<String> = Vec::new();
    let mut i: usize = 0;
    while i < v.len()
        invariant
            i <= v@.len(),
            out@.len() == i,
            forall|k: int| 0 <= k < i ==> (#[trigger] out@[k])@ == v@[k]@,
        decreases v@.len() - i,
    {
        out.push(v[i].clone());
        i = i + 1;
    }
    assert(texts(out@) =~= texts(v@));
    out
}

/// Where a run stands.
#[derive(Debug, Clone, Copy, PartialEq, Eq, Structural)]
pub enum Stage {
    /// Waiting for the expanded targets.
    Expanding,
    /// Scope enforced; waiting for the concurrency plan.
    Planning,
    /// Waiting for the discovery answers of the admitted hosts.
    Discovering,
    /// Waiting for the scan to finish.
    Scanning,
    /// The run is over.
    Done,
}

/// The state of a run between two steps.
#[derive(Debug, Clone)]
pub struct RunState {
    /// Where the run stands.
    pub stage: Stage,
    /// The hosts the run works on: the admitted addresses while planning and
    /// discovering, the hosts being scanned while scanning; none when done.
    pub hosts: Vec<IpAddr>,
    /// How many expanded addresses the scope admitted.
    pub hosts_in_scope: usize,
    /// How many expanded addresses the scope refused.
    pub hosts_refused: usize,
    /// The planned concurrency (once planned).
    pub concurrency: usize,
}

/// What the outside work of a stage produced.
pub enum RunEvent {
    /// The targets' expansion (after DNS), or why it failed.
    Expanded(Result<Vec<IpAddr>>),
    /// The concurrency plan, or why it could not be made.
    Planned(Result<BatchPlan>),
    /// For each host of the discovery, whether it responded.
    Discovered(Vec<bool>),
    /// The scan finished; it started at this time and took this long.
    Scanned { started_at_epoch_ms: u64, duration_ms: u128 },
}

/// The outside work a run asks for next.
pub enum RunAction {
    /// Log the refused addresses, then plan the concurrency.
    Plan { refused: Vec<IpAddr> },
    /// Ping these hosts, this many at a time.
    Discover { hosts: Vec<IpAddr>, concurrency: usize },
    /// Scan these hosts on the configured ports, this many probes at a time,
    /// under this global rate cap.
    Scan { hosts: Vec<IpAddr>, concurrency: usize, rate: Option<u32> },
    /// Assemble the report from the probe results with these inputs.
    Finish(ReportInputs),
    /// Stop with this error.
    Fail(Error),
}

/// Whether an event answers the work a state waits for.
pub open spec fn event_fits(s: RunState, e: RunEvent) -> bool {
    match e {
        RunEvent::Expanded(_) => s.stage == Stage::Expanding,
        RunEvent::Planned(_) => s.stage == Stage::Planning,
        RunEvent::Discovered(alive) => s.stage == Stage::Discovering && alive@.len() == s.hosts@.len(),
        RunEvent::Scanned { .. } => s.stage == Stage::Scanning,
    }
}

/// A run that is over.
pub open spec fn is_done(s: RunState) -> bool {
    s.stage == Stage::Done && s.hosts@.len() == 0
}

/// The run stops with no targets left after `stage`.
pub open spec fn fails_no_targets(s2: RunState, a: RunAction, stage: Seq<char>) -> bool {
    &&& is_done(s2)
    &&& a matches RunAction::Fail(Error::NoTargets { stage: st }) && st@ == stage
}

/// The global rate cap: a cap of 0 is none.
pub open spec fn spec_rate_cap(max_rate: Option<u32>) -> Option<u32> {
    match max_rate {
        Some(x) => if x > 0 { Some(x) } else { None },
        None => None,
    }
}

/// The run moves to scanning `hosts` with the state's plan.
pub open spec fn starts_scan(config: ScanConfig, s: RunState, hosts: Seq<IpAddr>, concurrency: usize, s2: RunState, a: RunAction) -> bool {
    &&& s2.stage == Stage::Scanning
    &&& s2.hosts@ == hosts
    &&& s2.hosts_in_scope == s.hosts_in_scope
    &&& s2.hosts_refused == s.hosts_refused
    &&& s2.concurrency == concurrency
    &&& a matches RunAction::Scan { hosts: h, concurrency: c, rate } && h@ == hosts && c == concurrency
        && rate == spec_rate_cap(config.max_rate)
}

/// One step of a run of `config`: from state `s`, on event `e`, to state `s2`
/// with the next action `a`.
///
/// * Expansion: an error stops the run; no address, or no address in scope,
///   stops it for lack of targets; otherwise the admitted addresses are kept
///   and the refused ones handed out for logging.
/// * Planning: an error stops the run; with discovery the admitted hosts are
///   pinged (one host per five planned connections, at least one at a time),
///   otherwise they are scanned.
/// * Discovery: the responding hosts are scanned, in order; none stops the run.
/// * Scanning: the report's inputs are assembled.
pub open spec fn steps_to(config: ScanConfig, s: RunState, e: RunEvent, s2: RunState, a: RunAction) -> bool {
    let entries = config.scope@.entries;
    match e {
        RunEvent::Expanded(Err(err)) => is_done(s2) && a == RunAction::Fail(err),
        RunEvent::Expanded(Ok(v)) => if v@.len() == 0 {
            fails_no_targets(s2, a, "expansion"@)
        } else if allowed_of(entries, v@).len() == 0 {
            fails_no_targets(s2, a, "scope enforcement"@)
        } else {
            &&& s2.stage == Stage::Planning
            &&& s2.hosts@ == allowed_of(entries, v@)
            &&& s2.hosts_in_scope == allowed_of(entries, v@).len()
            &&& s2.hosts_refused == refused_of(entries, v@).len()
            &&& a matches RunAction::Plan { refused } && refused@ == refused_of(entries, v@)
        },
        RunEvent::Planned(Err(err)) => is_done(s2) && a == RunAction::Fail(err),
        RunEvent::Planned(Ok(p)) => if config.ping {
            &&& s2.stage == Stage::Discovering
            &&& s2.hosts@ == s.hosts@
            &&& s2.hosts_in_scope == s.hosts_in_scope
            &&& s2.hosts_refused == s.hosts_refused
            &&& s2.concurrency == p.concurrency
            &&& a matches RunAction::Discover { hosts, concurrency } && hosts@ == s.hosts@
                && concurrency == (if p.concurrency / 5 < 1 { 1 } else { p.concurrency / 5 })
        } else {
            starts_scan(config, s, s.hosts@, p.concurrency, s2, a)
        },
        RunEvent::Discovered(alive) => if up_hosts(s.hosts@, alive@).len() == 0 {
            fails_no_targets(s2, a, "discovery"@)
        } else {
            starts_scan(config, s, up_hosts(s.hosts@, alive@), s.concurrency, s2, a)
        },
        RunEvent::Scanned { started_at_epoch_ms, duration_ms } => {
            &&& is_done(s2)
            &&& a matches RunAction::Finish(i) && inputs_match(
                i,
                config,
                started_at_epoch_ms,
                duration_ms,
                s.hosts_in_scope,
                s.hosts_refused,
                s.hosts@.len() as usize,
                s.concurrency,
            )
        },
    }
}

impl RunState {
    /// The state a run starts in: waiting for the expanded targets.
    pub fn start() -> (r: RunState)
        ensures
            r.stage == Stage::Expanding,
            r.hosts@.len() == 0,
            r.hosts_in_scope == 0,
            r.hosts_refused == 0,
            r.concurrency == 0,
    {
        RunState { stage: Stage::Expanding, hosts: Vec::new(), hosts_in_scope: 0, hosts_refused: 0, concurrency: 0 }
    }

    /// The state of a run that is over.
    fn done() -> (r: RunState)
        ensures
            is_done(r),
    {
        RunState { stage: Stage::Done, hosts: Vec::new(), hosts_in_scope: 0, hosts_refused: 0, concurrency: 0 }
    }
}

/// Take one step of a run of `config`: decide, from the state and what the
/// last outside work produced, the next state and the next outside work.
pub fn step(config: &ScanConfig, s: RunState, e: RunEvent) -> (r: (RunState, RunAction))
    requires
        event_fits(s, e),
    ensures
        steps_to(*config, s, e, r.0, r.1),
{
    match e {
        RunEvent::Expanded(Err(err)) => (RunState::done(), RunAction::Fail(err)),
        RunEvent::Expanded(Ok(v)) => match admit_targets(&config.scope, v) {
            Err(err) => (RunState::done(), RunAction::Fail(err)),
            Ok(admitted) => {
                let hosts_in_scope = admitted.in_scope.len();
                let hosts_refused = admitted.refused.len();
                (
                    RunState { stage: Stage::Planning, hosts: admitted.in_scope, hosts_in_scope, hosts_refused, concurrency: 0 },
                    RunAction::Plan { refused: admitted.refused },
                )
            },
        },
        RunEvent::Planned(Err(err)) => (RunState::done(), RunAction::Fail(err)),
        RunEvent::Planned(Ok(p)) => {
            if config.ping {
                let hosts = copy_hosts(&s.hosts);
                let concurrency = discovery_concurrency(p.concurrency);
                (
                    RunState { stage: Stage::Discovering, hosts: s.hosts, hosts_in_scope: s.hosts_in_scope, hosts_refused: s.hosts_refused, concurrency: p.concurrency },
                    RunAction::Discover { hosts, concurrency },
                )
            } else {
                scan_step(config, s.hosts, s.hosts_in_scope, s.hosts_refused, p.concurrency)
            }
        },
        RunEvent::Discovered(alive) => {
            let up = select_up(s.hosts.as_slice(), alive.as_slice());
            match after_discovery(up) {
                Err(err) => (RunState::done(), RunAction::Fail(err)),
                Ok(up) => scan_step(config, up, s.hosts_in_scope, s.hosts_refused, s.concurrency),
            }
        },
        RunEvent::Scanned { started_at_epoch_ms, duration_ms } => {
            let inputs = report_inputs(
                config,
                started_at_epoch_ms,
                duration_ms,
                s.hosts_in_scope,
                s.hosts_refused,
                s.hosts.len(),
                s.concurrency,
            );
            (RunState::done(), RunAction::Finish(inputs))
        },
    }
}

/// The step into scanning `hosts`.
fn scan_step(config: &ScanConfig, hosts: Vec<IpAddr>, hosts_in_scope: usize, hosts_refused: usize, concurrency: usize) -> (r: (RunState, RunAction))
    ensures
        r.0.stage == Stage::Scanning,
        r.0.hosts@ == hosts@,
        r.0.hosts_in_scope == hosts_in_scope,
        r.0.hosts_refused == hosts_refused,
        r.0.concurrency == concurrency,
        r.1 matches RunAction::Scan { hosts: h, concurrency: c, rate } && h@ == hosts@ && c == concurrency
            && rate == spec_rate_cap(config.max_rate),
{
    let scan_hosts = copy_hosts(&hosts);
    (
        RunState { stage: Stage::Scanning, hosts, hosts_in_scope, hosts_refused, concurrency },
        RunAction::Scan { hosts: scan_hosts, concurrency, rate: rate_cap(config.max_rate) },
    )
}

/// A copy of a list of addresses.
fn copy_hosts(v: &Vec<IpAddr>) -> (r: Vec<IpAddr>)
    ensures
        r@ == v@,
{
    let mut out: Vec<IpAddr> = Vec::new();
    let mut i: usize = 0;
    while i < v.len()
        invariant
            i <= v@.len(),
            out@ == v@.take(i as int),
        decreases v@.len() - i,
    {
        out.push(v[i]);
        i = i + 1;
        assert(out@ =~= v@.take(i as int));
    }
    assert(v@.take(i as int) =~= v@);
    out
}

/// Law: every scan a run hands out runs under the configured rate cap —
/// `--max-rate` (or the profile's), a cap of 0 being none — whether or not the
/// run went through discovery; without discovery the plan's hosts are scanned
/// at once, at the planned concurrency; after discovery exactly the hosts that
/// responded are scanned, and a discovery with no response stops the run.
pub proof fn lemma_scan_uses_configured_rate(config: ScanConfig, s: RunState, e: RunEvent, s2: RunState, a: RunAction)
    requires
        event_fits(s, e),
        steps_to(config, s, e, s2, a),
    ensures
        a matches RunAction::Scan { rate, .. } ==> rate == (match config.max_rate {
            Some(x) => if x > 0 { Some(x) } else { None },
            None => None,
        }),
        a matches RunAction::Scan { .. } ==> e is Discovered || (e is Planned && !config.ping),
        e matches RunEvent::Planned(Ok(p)) ==> (!config.ping ==> (a matches RunAction::Scan { hosts, concurrency, .. }
            && hosts@ == s.hosts@ && concurrency == p.concurrency)),
        e matches RunEvent::Discovered(alive) ==> (a matches RunAction::Scan { hosts, concurrency, .. } ==> (
            concurrency == s.concurrency && forall|x: IpAddr| hosts@.contains(x) <==> exists|i: int|
                0 <= i < s.hosts@.len() && alive@[i] && #[trigger] s.hosts@[i] == x)),
        e matches RunEvent::Discovered(alive) ==> ((forall|i: int| 0 <= i < alive@.len() ==> !#[trigger] alive@[i])
            ==> a is Fail),
{
    if let RunEvent::Discovered(alive) = e {
        crate::discovery::lemma_up_hosts_exact(s.hosts@, alive@);
        if forall|i: int| 0 <= i < alive@.len() ==> !#[trigger] alive@[i] {
            let up = up_hosts(s.hosts@, alive@);
            if up.len() > 0 {
                assert(up.contains(up[0]));
            }
        }
    }
}

/// Every address of `ips` is authorized by the scope.
pub open spec fn all_allowed(entries: Seq<EntryModel>, ips: Seq<IpAddr>) -> bool {
    forall|i: int| 0 <= i < ips.len() ==> scope_allows(entries, #[trigger] ips[i])
}

/// Law: a run never hands the network an address outside the scope. From a
/// state whose hosts are all authorized — the first state has none — every
/// step leads to such a state, and every discovery or scan it asks for covers
/// authorized addresses only.
pub proof fn lemma_step_stays_in_scope(config: ScanConfig, s: RunState, e: RunEvent, s2: RunState, a: RunAction)
    requires
        event_fits(s, e),
        steps_to(config, s, e, s2, a),
        all_allowed(config.scope@.entries, s.hosts@),
    ensures
        all_allowed(config.scope@.entries, s2.hosts@),
        a matches RunAction::Discover { hosts, .. } ==> all_allowed(config.scope@.entries, hosts@),
        a matches RunAction::Scan { hosts, .. } ==> all_allowed(config.scope@.entries, hosts@),
{
    let entries = config.scope@.entries;
    match e {
        RunEvent::Expanded(Ok(v)) => {
            lemma_scanned_hosts_in_scope(entries, v@, Seq::new(allowed_of(entries, v@).len(), |i: int| true));
            let admitted = allowed_of(entries, v@);
            assert forall|i: int| 0 <= i < admitted.len() implies scope_allows(entries, #[trigger] admitted[i]) by {
                assert(admitted.contains(admitted[i]));
            }
        },
        RunEvent::Discovered(alive) => {
            let up = up_hosts(s.hosts@, alive@);
            crate::discovery::lemma_up_hosts_subset(s.hosts@, alive@);
            assert forall|i: int| 0 <= i < up.len() implies scope_allows(entries, #[trigger] up[i]) by {
                assert(up.contains(up[i]));
                assert(s.hosts@.contains(up[i]));
                let j = choose|j: int| 0 <= j < s.hosts@.len() && s.hosts@[j] == up[i];
                assert(scope_allows(entries, s.hosts@[j]));
            }
        },
        _ => {},
    }
}

/// Law: nothing outside the authorized scope is ever probed. Whatever the
/// expansion produced and whichever hosts answered discovery, every address
/// the scan is handed — the in-scope addresses, or those of them that
/// discovery found up — is authorized by the scope, and was expanded.
pub proof fn lemma_scanned_hosts_in_scope(entries: Seq<EntryModel>, expanded: Seq<IpAddr>, alive: Seq<bool>)
    requires
        alive.len() == allowed_of(entries, expanded).len(),
    ensures
        forall|ip: IpAddr| #[trigger] allowed_of(entries, expanded).contains(ip) ==> scope_allows(entries, ip) && expanded.contains(ip),
        forall|ip: IpAddr| #[trigger] up_hosts(allowed_of(entries, expanded), alive).contains(ip) ==> scope_allows(entries, ip) && expanded.contains(ip),
{
    let yes = |ip: IpAddr| scope_allows(entries, ip);
    let admitted = allowed_of(entries, expanded);
    assert forall|ip: IpAddr| #[trigger] admitted.contains(ip) implies scope_allows(entries, ip) && expanded.contains(ip) by {
        expanded.lemma_filter_contains_rev(yes, ip);
        let i = choose|i: int| 0 <= i < admitted.len() && admitted[i] == ip;
        expanded.lemma_filter_pred(yes, i);
    }
    crate::discovery::lemma_up_hosts_subset(admitted, alive);
    assert forall|ip: IpAddr| #[trigger] up_hosts(admitted, alive).contains(ip) implies scope_allows(entries, ip) && expanded.contains(ip) by {
        assert(admitted.contains(ip));
    }
}

/// A run of `config` so far: it starts waiting for the expanded targets with
/// no hosts, and state `i` steps on event `i` to state `i + 1`, asking for
/// action `i`.
pub open spec fn run_trace(config: ScanConfig, states: Seq<RunState>, events: Seq<RunEvent>, actions: Seq<RunAction>) -> bool {
    &&& states.len() == events.len() + 1
    &&& actions.len() == events.len()
    &&& states[0].stage == Stage::Expanding
    &&& states[0].hosts@.len() == 0
    &&& forall|i: int| 0 <= i < events.len() ==> event_fits(#[trigger] states[i], events[i])
        && steps_to(config, states[i], events[i], states[i + 1], actions[i])
}

proof fn lemma_run_states_in_scope(config: ScanConfig, states: Seq<RunState>, events: Seq<RunEvent>, actions: Seq<RunAction>, i: int)
    requires
        run_trace(config, states, events, actions),
        0 <= i < states.len(),
    ensures
        all_allowed(config.scope@.entries, states[i].hosts@),
    decreases i,
{
    if i > 0 {
        lemma_run_states_in_scope(config, states, events, actions, i - 1);
        assert(event_fits(states[i - 1], events[i - 1]));
        lemma_step_stays_in_scope(config, states[i - 1], events[i - 1], states[i], actions[i - 1]);
    }
}

/// Law: over a whole run from its start, whatever the outside work answers,
/// every discovery and every scan the run asks for covers only addresses the
/// scope authorizes — no packet is ever sent to a refused address.
pub proof fn lemma_run_stays_in_scope(config: ScanConfig, states: Seq<RunState>, events: Seq<RunEvent>, actions: Seq<RunAction>)
    requires
        run_trace(config, states, events, actions),
    ensures
        forall|i: int| 0 <= i < actions.len() ==> (#[trigger] actions[i] matches RunAction::Discover { hosts, .. } ==> all_allowed(config.scope@.entries, hosts@)),
        forall|i: int| 0 <= i < actions.len() ==> (#[trigger] actions[i] matches RunAction::Scan { hosts, .. } ==> all_allowed(config.scope@.entries, hosts@)),
{
    assert forall|i: int| 0 <= i < actions.len() implies (#[trigger] actions[i] matches RunAction::Discover { hosts, .. } ==> all_allowed(config.scope@.entries, hosts@))
        && (actions[i] matches RunAction::Scan { hosts, .. } ==> all_allowed(config.scope@.entries, hosts@)) by {
        lemma_run_states_in_scope(config, states, events, actions, i);
        assert(event_fits(states[i], events[i]));
        lemma_step_stays_in_scope(config, states[i], events[i], states[i + 1], actions[i]);
    }
}

} // verus!
