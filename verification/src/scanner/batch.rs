//! Adaptive concurrency planning.
//!
//! A TCP connect scan consumes one file descriptor per in-flight connection, so
//! the natural ceiling on concurrency is the process's `RLIMIT_NOFILE` soft
//! limit: read the limit, optionally raise it, and size the concurrent batch
//! to fit inside it with headroom left for stdio, DNS sockets and the
//! progress machinery.

use vstd::prelude::*;

use crate::cli::Profile;
use crate::error::{Error, Result};
use crate::text::push_str;

verus! {

/// File descriptors reserved for everything that is *not* a scan connection.
pub const FD_HEADROOM: u64 = 64;

/// The concurrency decision plus the fd facts that produced it, for logging.
#[derive(Debug, Clone, Copy)]
pub struct BatchPlan {
    /// Effective maximum number of simultaneous connection attempts.
    pub concurrency: usize,
    /// The fd soft limit in effect after any raise attempt.
    pub fd_soft: u64,
    /// The fd hard limit.
    pub fd_hard: u64,
    /// The fd budget available to the scan (`fd_soft - headroom`, at least 1).
    pub fd_budget: usize,
}

/// The fd budget a soft limit leaves for scan connections.
pub open spec fn spec_fd_budget(soft: u64) -> usize {
    (if soft > FD_HEADROOM + 1 { soft - FD_HEADROOM } else { 1 }) as usize
}

/// The effective concurrency: the requested value (or the whole budget),
/// clamped to the budget and to the profile's cap, and at least 1.
pub open spec fn spec_concurrency(requested: Option<usize>, budget: usize, profile: Profile) -> usize {
    let base = match requested {
        Some(r) => r,
        None => budget,
    };
    let c0 = if base < budget { base } else { budget };
    let c1 = match profile.spec_concurrency_cap() {
        Some(k) => if c0 < k { c0 } else { k },
        None => c0,
    };
    if c1 < 1 {
        1
    } else {
        c1
    }
}

/// The soft limit to raise to, if the `--ulimit` target (capped at the hard
/// limit) exceeds the current soft limit.
pub open spec fn spec_raise_target(target: Option<u64>, soft: u64, hard: u64) -> Option<u64> {
    match target {
        Some(t) => {
            let new_soft = if t < hard { t } else { hard };
            if new_soft > soft {
                Some(new_soft)
            } else {
                None
            }
        },
        None => None,
    }
}

/// The plan for a given fd soft and hard limit.
pub open spec fn spec_plan(requested: Option<usize>, profile: Profile, soft: u64, hard: u64) -> BatchPlan {
    BatchPlan {
        concurrency: spec_concurrency(requested, spec_fd_budget(soft), profile),
        fd_soft: soft,
        fd_hard: hard,
        fd_budget: spec_fd_budget(soft),
    }
}

/// The soft limit to raise to, if any.
pub fn raise_target(target: Option<u64>, soft: u64, hard: u64) -> (r: Option<u64>)
    ensures
        r == spec_raise_target(target, soft, hard),
{
    match target {
        Some(t) => {
            let new_soft = if t < hard { t } else { hard };
            if new_soft > soft {
                Some(new_soft)
            } else {
                None
            }
        },
        None => None,
    }
}

/// The plan for given fd limits (after any raise attempt).
pub fn plan_from_limits(requested: Option<usize>, profile: Profile, soft: u64, hard: u64) -> (r: BatchPlan)
    ensures
        r == spec_plan(requested, profile, soft, hard),
{
    let fd_budget = (if soft > FD_HEADROOM + 1 { soft - FD_HEADROOM } else { 1 }) as usize;
    let base = match requested {
        Some(r) => r,
        None => fd_budget,
    };
    let mut concurrency = if base < fd_budget { base } else { fd_budget };
    match profile.concurrency_cap() {
        Some(cap) => {
            if cap < concurrency {
                concurrency = cap;
            }
        },
        None => {},
    }
    if concurrency < 1 {
        concurrency = 1;
    }
    BatchPlan { concurrency, fd_soft: soft, fd_hard: hard, fd_budget }
}

/// `rlimit::Resource::NOFILE.get()`: the process's soft and hard
/// `RLIMIT_NOFILE`, or the OS error. Nothing is stated of the values: they
/// are whatever the OS reports.
#[verifier::external_body]
fn nofile_get() -> (r: std::result::Result<(u64, u64), std::io::Error>) {
    rlimit::Resource::NOFILE.get()
}

/// `rlimit::Resource::NOFILE.set(soft, hard)`: ask the OS to change the limits.
/// Whether it agrees depends on the process's privileges, so nothing is stated.
#[verifier::external_body]
fn nofile_set(soft: u64, hard: u64) -> (r: std::result::Result<(), std::io::Error>) {
    rlimit::Resource::NOFILE.set(soft, hard)
}

/// `Display` of `std::io::Error`: the OS's message, of which nothing is stated.
#[verifier::external_body]
fn io_error_text(e: &std::io::Error) -> (r: String) {
    e.to_string()
}

/// The soft limit in effect after a raise attempt: the raise target when a
/// raise was due and succeeded, otherwise the soft limit read.
pub open spec fn spec_effective_soft(target: Option<u64>, soft: u64, hard: u64, raised: bool) -> u64 {
    match spec_raise_target(target, soft, hard) {
        Some(n) => if raised { n } else { soft },
        None => soft,
    }
}

/// `p` is the plan for a soft limit `soft` read with the hard limit `p.fd_hard`,
/// after a raise attempt with outcome `raised`.
pub open spec fn plans_for(requested: Option<usize>, ulimit_target: Option<u64>, profile: Profile, p: BatchPlan, soft: u64, raised: bool) -> bool {
    p == spec_plan(requested, profile, spec_effective_soft(ulimit_target, soft, p.fd_hard, raised), p.fd_hard)
}

/// `p` is the plan for some limits the OS may report and some outcome of the
/// raise attempt: its soft limit is the one read, or the raise target when
/// the raise succeeded.
pub open spec fn plan_after_raise(requested: Option<usize>, ulimit_target: Option<u64>, profile: Profile, p: BatchPlan) -> bool {
    exists|soft: u64, raised: bool| #[trigger] plans_for(requested, ulimit_target, profile, p, soft, raised)
}

/// The plan for the limits read (`soft`, `hard`) and the outcome of the raise
/// attempt (`raised`: whether setting the raised soft limit succeeded; it is
/// not read when no raise is due).
pub fn plan_for_limits(requested: Option<usize>, ulimit_target: Option<u64>, profile: Profile, soft: u64, hard: u64, raised: bool) -> (r: BatchPlan)
    ensures
        r == spec_plan(requested, profile, spec_effective_soft(ulimit_target, soft, hard, raised), hard),
{
    let effective = match raise_target(ulimit_target, soft, hard) {
        Some(new_soft) => if raised {
            new_soft
        } else {
            soft
        },
        None => soft,
    };
    plan_from_limits(requested, profile, effective, hard)
}

/// Compute the concurrency plan.
///
/// * `requested` — an explicit `--concurrency` value, if any.
/// * `ulimit_target` — an explicit `--ulimit` value to raise the soft limit to.
/// * `profile` — supplies a hard concurrency cap for gentle profiles.
///
/// The effective concurrency is the minimum of: the requested value (or the fd
/// budget if unset), the fd budget, and the profile cap, and at least 1. The
/// soft limit in effect is the one read, or the raised one when the raise
/// succeeded.
pub fn plan(requested: Option<usize>, ulimit_target: Option<u64>, profile: Profile) -> (r: Result<BatchPlan>)
    ensures
        match r {
            Ok(p) => plan_after_raise(requested, ulimit_target, profile, p),
            Err(Error::Rlimit(msg)) => exists|t: Seq<char>| msg@ == "reading RLIMIT_NOFILE: "@ + t,
            Err(_) => false,
        },
{
    let (soft, hard) = match nofile_get() {
        Ok(limits) => limits,
        Err(e) => {
            let mut msg = String::from_str("reading RLIMIT_NOFILE: ");
            let text = io_error_text(&e);
            push_str(&mut msg, text.as_str());
            return Err(Error::Rlimit(msg));
        },
    };
    let raised = match raise_target(ulimit_target, soft, hard) {
        Some(new_soft) => nofile_set(new_soft, hard).is_ok(),
        None => false,
    };
    let p = plan_for_limits(requested, ulimit_target, profile, soft, hard, raised);
    assert(p.fd_hard == hard);
    assert(p == spec_plan(requested, profile, spec_effective_soft(ulimit_target, soft, p.fd_hard, raised), p.fd_hard));
    assert(plans_for(requested, ulimit_target, profile, p, soft, raised));
    Ok(p)
}

/// Law: the planned concurrency is at least 1, never exceeds the fd budget
/// or the profile's cap, and equals an explicit request that fits within both.
/// (The budget is a `usize`; where `usize` is narrower than the soft limit the
/// conversion can leave no budget, and then the floor of 1 wins.)
pub proof fn lemma_plan_bounds(requested: Option<usize>, profile: Profile, soft: u64, hard: u64)
    requires
        spec_fd_budget(soft) >= 1,
    ensures
        1 <= spec_plan(requested, profile, soft, hard).concurrency <= spec_plan(requested, profile, soft, hard).fd_budget,
        profile.spec_concurrency_cap() matches Some(k) ==> spec_plan(requested, profile, soft, hard).concurrency <= k,
        requested matches Some(q) ==> (1 <= q <= spec_fd_budget(soft) && (profile.spec_concurrency_cap() matches Some(k) ==> q <= k)) ==> spec_plan(requested, profile, soft, hard).concurrency == q,
{
}

} // verus!
