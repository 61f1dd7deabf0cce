//! The connect-scan decisions: what one connection attempt's outcome means
//! for a port, when a probe is retried, and how many probes may be in flight.
//! The connections themselves are made by the caller, which hands the
//! outcome of each attempt to [`probe_step`].

pub mod batch;
pub mod tally;

use vstd::prelude::*;

use crate::net::IpAddr;

verus! {

/// The observed state of a scanned TCP port.
#[derive(Debug, Clone, Copy, PartialEq, Eq, Structural)]
pub enum PortState {
    /// The handshake completed — a service is listening.
    Open,
    /// The connection was actively refused (RST) — reachable but nothing listening.
    Closed,
    /// No response within the timeout (dropped/firewalled), or unreachable.
    Filtered,
}

/// The result of probing a single `(ip, port)`.
#[derive(Debug, Clone, Copy, PartialEq, Eq, Structural)]
pub struct ProbeResult {
    pub ip: IpAddr,
    pub port: u16,
    pub state: PortState,
    /// Connect round-trip time in milliseconds (only meaningful for `Open`).
    pub rtt_ms: Option<u64>,
}

/// What one bounded-time connection attempt observed.
#[derive(Debug, Clone, Copy, PartialEq, Eq, Structural)]
pub enum ConnectOutcome {
    /// The handshake completed after `rtt_ms` milliseconds.
    Connected { rtt_ms: u64 },
    /// The connection was actively refused.
    Refused,
    /// Another connection error (unreachable, reset, ...).
    Failed,
    /// No answer within the timeout.
    TimedOut,
}

/// What to do after an attempt: report a result, or attempt again.
#[derive(Debug, Clone, Copy, PartialEq, Eq, Structural)]
pub enum ProbeStep {
    /// The probe is finished with this result.
    Done(ProbeResult),
    /// The outcome was ambiguous; attempt again, this being attempt number `attempt`.
    Retry { attempt: u32 },
}

/// The decision after attempt number `attempt` (counting retries from 0)
/// observed `outcome`: a completed handshake is open, a refusal is closed, any
/// other connection error is filtered — none of these is retried — and only
/// an ambiguous outcome, a timeout, is retried while retries remain, then
/// filtered.
pub open spec fn spec_probe_step(ip: IpAddr, port: u16, outcome: ConnectOutcome, attempt: u32, retries: u32) -> ProbeStep {
    match outcome {
        ConnectOutcome::Connected { rtt_ms } => ProbeStep::Done(ProbeResult { ip, port, state: PortState::Open, rtt_ms: Some(rtt_ms) }),
        ConnectOutcome::Refused => ProbeStep::Done(ProbeResult { ip, port, state: PortState::Closed, rtt_ms: None }),
        ConnectOutcome::Failed => ProbeStep::Done(ProbeResult { ip, port, state: PortState::Filtered, rtt_ms: None }),
        ConnectOutcome::TimedOut => if attempt < retries {
            ProbeStep::Retry { attempt: (attempt + 1) as u32 }
        } else {
            ProbeStep::Done(ProbeResult { ip, port, state: PortState::Filtered, rtt_ms: None })
        },
    }
}

/// Decide what a probe of `(ip, port)` does after an attempt.
pub fn probe_step(ip: IpAddr, port: u16, outcome: ConnectOutcome, attempt: u32, retries: u32) -> (r: ProbeStep)
    ensures
        r == spec_probe_step(ip, port, outcome, attempt, retries),
{
    match outcome {
        ConnectOutcome::Connected { rtt_ms } => ProbeStep::Done(ProbeResult { ip, port, state: PortState::Open, rtt_ms: Some(rtt_ms) }),
        ConnectOutcome::Refused => ProbeStep::Done(ProbeResult { ip, port, state: PortState::Closed, rtt_ms: None }),
        ConnectOutcome::Failed => ProbeStep::Done(ProbeResult { ip, port, state: PortState::Filtered, rtt_ms: None }),
        ConnectOutcome::TimedOut => if attempt < retries {
            ProbeStep::Retry { attempt: attempt + 1 }
        } else {
            ProbeStep::Done(ProbeResult { ip, port, state: PortState::Filtered, rtt_ms: None })
        },
    }
}

/// Law: a probe that starts at attempt 0 and follows `spec_probe_step` makes
/// at most `retries + 1` connection attempts — each retry moves to the next
/// attempt and only happens after a timeout while retries remain; a
/// handshake, a refusal or any other connection error ends the probe at once;
/// and every result carries the probed address and port, with a round-trip
/// time exactly when the port is open.
pub proof fn lemma_probe_step_bounded(ip: IpAddr, port: u16, outcome: ConnectOutcome, attempt: u32, retries: u32)
    ensures
        spec_probe_step(ip, port, outcome, attempt, retries) matches ProbeStep::Retry { attempt: a } ==> a == attempt + 1 && a <= retries && outcome is TimedOut,
        !(outcome is TimedOut) ==> spec_probe_step(ip, port, outcome, attempt, retries) is Done,
        spec_probe_step(ip, port, outcome, attempt, retries) matches ProbeStep::Done(res) ==> res.ip == ip && res.port == port && (res.state == PortState::Open <==> res.rtt_ms is Some),
        attempt >= retries ==> spec_probe_step(ip, port, outcome, attempt, retries) is Done,
{
}

/// A finished probe of `(ip, port)` with this state and round-trip time.
pub open spec fn finished(ip: IpAddr, port: u16, state: PortState, rtt_ms: Option<u64>) -> ProbeStep {
    ProbeStep::Done(ProbeResult { ip, port, state, rtt_ms })
}

/// Law: a decisive outcome fixes the port's state whatever the attempt and
/// the retry budget — a completed handshake is open with its round-trip
/// time, a refusal is closed, any other connection error is filtered — so two
/// decisions on the same decisive outcome agree.
pub proof fn lemma_outcome_decides_state(ip: IpAddr, port: u16, rtt_ms: u64, attempt: u32, retries: u32)
    ensures
        spec_probe_step(ip, port, ConnectOutcome::Connected { rtt_ms }, attempt, retries)
            == finished(ip, port, PortState::Open, Some(rtt_ms)),
        spec_probe_step(ip, port, ConnectOutcome::Refused, attempt, retries)
            == finished(ip, port, PortState::Closed, None),
        spec_probe_step(ip, port, ConnectOutcome::Failed, attempt, retries)
            == finished(ip, port, PortState::Filtered, None),
        forall|o: ConnectOutcome, a2: u32, r2: u32| !(o is TimedOut) ==> #[trigger] spec_probe_step(ip, port, o, a2, r2)
            == spec_probe_step(ip, port, o, attempt, retries),
{
}

/// Law: only a timeout's decision depends on the retries left — it retries
/// with the next attempt number while some remain, and ends filtered, with no
/// round-trip time, once none is left.
pub proof fn lemma_timeout_uses_retries(ip: IpAddr, port: u16, attempt: u32, retries: u32)
    ensures
        attempt >= retries ==> spec_probe_step(ip, port, ConnectOutcome::TimedOut, attempt, retries)
            == finished(ip, port, PortState::Filtered, None),
        attempt < retries ==> (spec_probe_step(ip, port, ConnectOutcome::TimedOut, attempt, retries)
            matches ProbeStep::Retry { attempt: a } && a == attempt + 1),
{
}

/// A round-trip time in whole milliseconds, saturating at `u64::MAX`.
pub fn rtt_millis(elapsed_ms: u128) -> (r: u64)
    ensures
        r == (if elapsed_ms > u64::MAX { u64::MAX as u128 } else { elapsed_ms }),
{
    if elapsed_ms > u64::MAX as u128 {
        u64::MAX
    } else {
        elapsed_ms as u64
    }
}

/// The size of the sliding window of in-flight probes: the requested
/// concurrency, at least 1.
pub fn effective_concurrency(concurrency: usize) -> (r: usize)
    ensures
        r == (if concurrency < 1 { 1 } else { concurrency }),
{
    if concurrency < 1 {
        1
    } else {
        concurrency
    }
}

/// The size of the window of in-flight probes: the concurrency, at least 1.
pub open spec fn window_size(concurrency: usize) -> nat {
    if concurrency < 1 { 1 } else { concurrency as nat }
}

/// Whether a window holding `in_flight` probes is full.
pub open spec fn spec_window_full(in_flight: nat, concurrency: usize) -> bool {
    in_flight >= window_size(concurrency)
}

/// Whether the window is full: a probe must finish before the next launches.
pub fn window_full(in_flight: usize, concurrency: usize) -> (r: bool)
    ensures
        r == spec_window_full(in_flight as nat, concurrency),
{
    in_flight >= effective_concurrency(concurrency)
}

/// The counts of in-flight probes of a scan, one after each event: starting
/// empty, a launch adds one and happens only while the window is not full,
/// and a finish removes one.
pub open spec fn window_trace(counts: Seq<nat>, concurrency: usize) -> bool {
    &&& counts.len() > 0
    &&& counts[0] == 0
    &&& forall|i: int| 0 <= i < counts.len() - 1 ==> {
        ||| (counts[i + 1] == #[trigger] counts[i] + 1 && !spec_window_full(counts[i], concurrency))
        ||| counts[i + 1] + 1 == counts[i]
    }
}

/// Law: the sliding window never holds more probes than its size — once it
/// is full, one probe must finish before the next launches.
pub proof fn lemma_window_bounded(counts: Seq<nat>, concurrency: usize)
    requires
        window_trace(counts, concurrency),
    ensures
        forall|i: int| 0 <= i < counts.len() ==> #[trigger] counts[i] <= window_size(concurrency),
{
    assert forall|i: int| 0 <= i < counts.len() implies #[trigger] counts[i] <= window_size(concurrency) by {
        lemma_window_prefix(counts, concurrency, i);
    }
}

proof fn lemma_window_prefix(counts: Seq<nat>, concurrency: usize, i: int)
    requires
        window_trace(counts, concurrency),
        0 <= i < counts.len(),
    ensures
        counts[i] <= window_size(concurrency),
    decreases i,
{
    if i > 0 {
        lemma_window_prefix(counts, concurrency, i - 1);
        assert(counts[i - 1] == counts[i - 1]);
    }
}

/// The number of probes a scan of `hosts` hosts and `ports` ports makes,
/// saturating at `usize::MAX`.
pub open spec fn spec_total_probes(hosts: usize, ports: usize) -> int {
    if hosts * ports > usize::MAX { usize::MAX as int } else { hosts * ports }
}

/// The number of probes a scan of `hosts` hosts and `ports` ports makes,
/// saturating at `usize::MAX`.
pub fn total_probes(hosts: usize, ports: usize) -> (r: usize)
    ensures
        r == spec_total_probes(hosts, ports),
{
    match hosts.checked_mul(ports) {
        Some(n) => n,
        None => usize::MAX,
    }
}

/// The `k`-th probe of a scan, host-major: every port of the first host,
/// then every port of the next, so that probe `k` is host `k / ports` and
/// port `k % ports`, and each `(host, port)` pair is probed exactly once.
pub fn probe_at(targets: &[IpAddr], ports: &[u16], k: usize) -> (r: (IpAddr, u16))
    requires
        ports@.len() > 0,
        k < targets@.len() * ports@.len(),
    ensures
        r == (targets@[k as int / ports@.len() as int], ports@[k as int % ports@.len() as int]),
{
    let n = ports.len();
    proof {
        assert((k as int) / (n as int) < targets@.len()) by (nonlinear_arith)
            requires
                0 <= k < targets@.len() * n,
                n > 0;
    }
    (targets[k / n], ports[k % n])
}

/// Law: the host-major probe order visits every `(host, port)` pair exactly
/// once — pair `(i, j)` is probe `i * ports + j`, and two different probe
/// numbers name different pairs.
pub proof fn lemma_probe_order_exact(hosts: int, ports: int)
    requires
        hosts >= 0,
        ports > 0,
    ensures
        forall|i: int, j: int| 0 <= i < hosts && 0 <= j < ports ==> #[trigger] (i * ports + j) < hosts * ports
            && (i * ports + j) / ports == i && (i * ports + j) % ports == j,
        forall|k1: int, k2: int| 0 <= k1 < hosts * ports && 0 <= k2 < hosts * ports && #[trigger] (k1 / ports) == #[trigger] (k2 / ports)
            && k1 % ports == k2 % ports ==> k1 == k2,
{
    assert forall|i: int, j: int| 0 <= i < hosts && 0 <= j < ports implies #[trigger] (i * ports + j) < hosts * ports
        && (i * ports + j) / ports == i && (i * ports + j) % ports == j by {
        assert(i * ports + j < hosts * ports) by (nonlinear_arith)
            requires
                0 <= i < hosts,
                0 <= j < ports,
        ;
        vstd::arithmetic::div_mod::lemma_fundamental_div_mod_converse(i * ports + j, ports, i, j);
    }
    assert forall|k1: int, k2: int| 0 <= k1 < hosts * ports && 0 <= k2 < hosts * ports && #[trigger] (k1 / ports) == #[trigger] (k2 / ports)
        && k1 % ports == k2 % ports implies k1 == k2 by {
        vstd::arithmetic::div_mod::lemma_fundamental_div_mod(k1, ports);
        vstd::arithmetic::div_mod::lemma_fundamental_div_mod(k2, ports);
    }
}

} // verus!
