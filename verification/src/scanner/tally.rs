//! The bookkeeping of a scan pass: which probe launches next, when the
//! sliding window makes the caller wait for a probe to finish, and the
//! results collected, so that a finished pass accounts for every probe.
//! The caller launches the probes and awaits them; it asks [`ScanTally`]
//! what to do next and tells it what happened.

use vstd::prelude::*;

use crate::report::{ReportInputs, ScanReport};
use super::{spec_total_probes, spec_window_full, total_probes, window_full, window_size, ProbeResult};

verus! {

/// What a scan pass does next.
#[derive(Debug, Clone, Copy, PartialEq, Eq, Structural)]
pub enum ScanMove {
    /// Launch probe number `k` (host-major, see `probe_at`).
    Launch { k: usize },
    /// Wait for one in-flight probe to finish and hand it back.
    Collect,
    /// Every probe has been launched and has finished.
    Done,
}

/// Where a scan pass stands.
pub struct ScanTally {
    /// How many probes the pass makes in all.
    pub total: usize,
    /// The requested concurrency (the window holds at least one probe).
    pub concurrency: usize,
    /// How many probes have been launched: probes `0..launched`.
    pub launched: usize,
    /// How many launched probes have not finished yet.
    pub in_flight: usize,
    /// How many finished probes were lost (their task failed to join).
    pub lost: usize,
    /// The results of the finished probes, in the order they finished.
    pub results: Vec<ProbeResult>,
}

impl ScanTally {
    /// Every launched probe is in flight, collected or lost, and the window
    /// never holds more probes than its size.
    pub open spec fn wf(&self) -> bool {
        &&& self.launched <= self.total
        &&& self.launched == self.in_flight + self.results@.len() + self.lost
        &&& self.in_flight <= window_size(self.concurrency)
    }

    /// The next move: launch the next probe while some remain and the window
    /// has room; otherwise wait for one in flight; done when none is left.
    pub open spec fn spec_next_move(&self) -> ScanMove {
        if self.launched < self.total && !spec_window_full(self.in_flight as nat, self.concurrency) {
            ScanMove::Launch { k: self.launched }
        } else if self.in_flight > 0 {
            ScanMove::Collect
        } else {
            ScanMove::Done
        }
    }

    /// A pass over `hosts` hosts and `ports` ports, this many probes at a time,
    /// before any probe is launched.
    pub fn new(hosts: usize, ports: usize, concurrency: usize) -> (r: ScanTally)
        ensures
            r.wf(),
            r.total == spec_total_probes(hosts, ports),
            r.concurrency == concurrency,
            r.launched == 0,
            r.in_flight == 0,
            r.lost == 0,
            r.results@ == Seq::<ProbeResult>::empty(),
    {
        ScanTally {
            total: total_probes(hosts, ports),
            concurrency,
            launched: 0,
            in_flight: 0,
            lost: 0,
            results: Vec::new(),
        }
    }

    /// What to do next.
    pub fn next_move(&self) -> (m: ScanMove)
        requires
            self.wf(),
        ensures
            m == self.spec_next_move(),
    {
        if self.launched < self.total && !window_full(self.in_flight, self.concurrency) {
            ScanMove::Launch { k: self.launched }
        } else if self.in_flight > 0 {
            ScanMove::Collect
        } else {
            ScanMove::Done
        }
    }

    /// Record that the next probe was launched.
    pub fn launched_next(&mut self)
        requires
            old(self).wf(),
            old(self).spec_next_move() is Launch,
        ensures
            final(self).wf(),
            final(self).launched == old(self).launched + 1,
            final(self).in_flight == old(self).in_flight + 1,
            final(self).total == old(self).total,
            final(self).concurrency == old(self).concurrency,
            final(self).lost == old(self).lost,
            final(self).results@ == old(self).results@,
    {
        self.launched = self.launched + 1;
        self.in_flight = self.in_flight + 1;
    }

    /// Record that a probe finished with `result`.
    pub fn collected(&mut self, result: ProbeResult)
        requires
            old(self).wf(),
            old(self).in_flight > 0,
        ensures
            final(self).wf(),
            final(self).in_flight + 1 == old(self).in_flight,
            final(self).results@ == old(self).results@.push(result),
            final(self).total == old(self).total,
            final(self).concurrency == old(self).concurrency,
            final(self).launched == old(self).launched,
            final(self).lost == old(self).lost,
    {
        self.in_flight = self.in_flight - 1;
        self.results.push(result);
    }

    /// Record that a probe finished without a result (its task failed to join).
    pub fn lost_one(&mut self)
        requires
            old(self).wf(),
            old(self).in_flight > 0,
        ensures
            final(self).wf(),
            final(self).in_flight + 1 == old(self).in_flight,
            final(self).lost == old(self).lost + 1,
            final(self).total == old(self).total,
            final(self).concurrency == old(self).concurrency,
            final(self).launched == old(self).launched,
            final(self).results@ == old(self).results@,
    {
        self.in_flight = self.in_flight - 1;
        self.lost = self.lost + 1;
    }

    /// The results of a finished pass: one for every probe that was not lost.
    pub fn into_results(self) -> (r: Vec<ProbeResult>)
        requires
            self.wf(),
            self.spec_next_move() is Done,
        ensures
            r@ == self.results@,
            r@.len() + self.lost == self.total,
    {
        self.results
    }
}

/// Law: a pass that is done has launched every probe exactly once (probes
/// `0..total`, in order) and accounts for each of them — every probe is
/// collected or lost — so with no probe lost the pass returns one result per
/// `(host, port)` pair.
pub proof fn lemma_done_accounts_every_probe(t: ScanTally, hosts: usize, ports: usize)
    requires
        t.wf(),
        t.spec_next_move() is Done,
        t.total == spec_total_probes(hosts, ports),
    ensures
        t.launched == t.total,
        t.in_flight == 0,
        t.results@.len() + t.lost == t.total,
        t.lost == 0 && hosts * ports <= usize::MAX ==> t.results@.len() == hosts * ports,
{
}

/// Law: a report built from the results of a finished pass that lost no
/// probe counts one probe per scanned host and port — its total is the
/// number of hosts scanned times the ports per host.
pub proof fn lemma_report_counts_every_probe(t: ScanTally, inputs: ReportInputs, r: ScanReport)
    requires
        t.wf(),
        t.spec_next_move() is Done,
        t.lost == 0,
        t.total == spec_total_probes(inputs.hosts_scanned, inputs.ports_per_host),
        inputs.hosts_scanned * inputs.ports_per_host <= usize::MAX,
        r.meta.total_probes == t.results@.len(),
        r.meta.hosts_scanned == inputs.hosts_scanned,
        r.meta.ports_per_host == inputs.ports_per_host,
    ensures
        r.meta.total_probes == r.meta.hosts_scanned * r.meta.ports_per_host,
{
    lemma_done_accounts_every_probe(t, inputs.hosts_scanned, inputs.ports_per_host);
}

/// Law: following the moves never overfills the window and never stops
/// early — a pass that is not done either has room for the next probe or a
/// probe in flight to wait for.
pub proof fn lemma_moves_keep_window(t: ScanTally)
    requires
        t.wf(),
    ensures
        t.spec_next_move() is Launch ==> t.in_flight + 1 <= window_size(t.concurrency),
        t.spec_next_move() is Collect ==> t.in_flight > 0,
        t.spec_next_move() is Done ==> t.launched == t.total && t.in_flight == 0,
{
}

} // verus!
