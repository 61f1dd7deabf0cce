//! Host discovery (liveness) decisions.
//!
//! TCP-ping discovery probes a small set of common ports and treats a host as
//! "up" if any probe elicits a response — whether the port is open
//! (handshake) or closed (refusal). Only hosts that drop every probe are
//! considered down. The connection attempts are made by the caller.

use vstd::prelude::*;

use crate::net::IpAddr;
use crate::scanner::ConnectOutcome;

verus! {

/// Ports probed to decide liveness (HTTP, HTTPS, SSH, RDP, SMB).
pub const PING_PORTS: [u16; 5] = [80, 443, 22, 3389, 445];

/// Whether an attempt shows the host is alive: a handshake or a refusal is a
/// response; a timeout or another error is no evidence of life.
pub open spec fn spec_responded(outcome: ConnectOutcome) -> bool {
    outcome is Connected || outcome is Refused
}

/// True if the address responded to a connect attempt in any way other than a
/// timeout (i.e. handshake succeeded or connection was refused).
pub fn responded(outcome: ConnectOutcome) -> (r: bool)
    ensures
        r == spec_responded(outcome),
{
    match outcome {
        ConnectOutcome::Connected { .. } => true,
        ConnectOutcome::Refused => true,
        ConnectOutcome::Failed => false,
        ConnectOutcome::TimedOut => false,
    }
}

/// A host is alive if any of its ping probes responded.
pub fn is_alive(responses: &[bool]) -> (r: bool)
    ensures
        r == exists|i: int| 0 <= i < responses@.len() && responses@[i],
{
    let mut i: usize = 0;
    while i < responses.len()
        invariant
            i <= responses@.len(),
            forall|k: int| 0 <= k < i ==> !responses@[k],
        decreases responses@.len() - i,
    {
        if responses[i] {
            return true;
        }
        i = i + 1;
    }
    false
}

/// The hosts that appear to be up, `alive[i]` telling whether `targets[i]`
/// responded, preserving input order.
pub fn select_up(targets: &[IpAddr], alive: &[bool]) -> (r: Vec<IpAddr>)
    requires
        alive@.len() == targets@.len(),
    ensures
        r@ == up_hosts(targets@, alive@),
{
    let mut up: Vec<IpAddr> = Vec::new();
    let mut i: usize = 0;
    assert(targets@.take(0) =~= Seq::<IpAddr>::empty());
    while i < targets.len()
        invariant
            i <= targets@.len() == alive@.len(),
            up@ == up_hosts(targets@.take(i as int), alive@.take(i as int)),
        decreases targets@.len() - i,
    {
        proof {
            assert(targets@.take(i + 1).drop_last() =~= targets@.take(i as int));
            assert(alive@.take(i + 1).drop_last() =~= alive@.take(i as int));
        }
        if alive[i] {
            up.push(targets[i]);
        }
        i = i + 1;
    }
    assert(targets@.take(i as int) =~= targets@);
    assert(alive@.take(i as int) =~= alive@);
    up
}

/// The targets whose flag is set, in order.
pub open spec fn up_hosts(targets: Seq<IpAddr>, alive: Seq<bool>) -> Seq<IpAddr>
    decreases targets.len(),
{
    if targets.len() == 0 || alive.len() == 0 {
        Seq::empty()
    } else {
        let rest = up_hosts(targets.drop_last(), alive.drop_last());
        if alive.last() {
            rest.push(targets.last())
        } else {
            rest
        }
    }
}

/// Law: discovery keeps exactly the responding hosts, never adds one, and
/// never yields more hosts than it was given.
pub proof fn lemma_up_hosts_subset(targets: Seq<IpAddr>, alive: Seq<bool>)
    requires
        targets.len() == alive.len(),
    ensures
        up_hosts(targets, alive).len() <= targets.len(),
        forall|x: IpAddr| up_hosts(targets, alive).contains(x) ==> targets.contains(x),
    decreases targets.len(),
{
    if targets.len() > 0 {
        lemma_up_hosts_subset(targets.drop_last(), alive.drop_last());
        let rest = up_hosts(targets.drop_last(), alive.drop_last());
        assert forall|x: IpAddr| up_hosts(targets, alive).contains(x) implies targets.contains(x) by {
            let k = choose|k: int| 0 <= k < up_hosts(targets, alive).len() && up_hosts(targets, alive)[k] == x;
            if k < rest.len() {
                assert(rest[k] == x);
                assert(rest.contains(x));
                assert(targets.drop_last().contains(x));
                let j = choose|j: int| 0 <= j < targets.drop_last().len() && targets.drop_last()[j] == x;
                assert(targets[j] == x);
            } else {
                assert(targets[targets.len() - 1] == x);
            }
        }
    }
}

/// `up` lists the targets at positions `idx`: increasing positions whose flag
/// is set, every set position among them.
pub open spec fn flagged_in_order(targets: Seq<IpAddr>, alive: Seq<bool>, up: Seq<IpAddr>, idx: Seq<int>) -> bool {
    &&& idx.len() == up.len()
    &&& forall|k: int| 0 <= k < idx.len() ==> 0 <= #[trigger] idx[k] < targets.len() && alive[idx[k]] && up[k] == targets[idx[k]]
    &&& forall|k1: int, k2: int| 0 <= k1 < k2 < idx.len() ==> idx[k1] < idx[k2]
    &&& forall|i: int| 0 <= i < targets.len() && alive[i] ==> #[trigger] idx.contains(i)
}

/// The positions of the set flags, in order, for `up_hosts`.
proof fn up_positions(targets: Seq<IpAddr>, alive: Seq<bool>) -> (idx: Seq<int>)
    requires
        targets.len() == alive.len(),
    ensures
        idx.len() == up_hosts(targets, alive).len(),
        forall|k: int| 0 <= k < idx.len() ==> 0 <= #[trigger] idx[k] < targets.len() && alive[idx[k]]
            && up_hosts(targets, alive)[k] == targets[idx[k]],
        forall|k1: int, k2: int| 0 <= k1 < k2 < idx.len() ==> idx[k1] < idx[k2],
        forall|i: int| 0 <= i < targets.len() && alive[i] ==> #[trigger] idx.contains(i),
    decreases targets.len(),
{
    if targets.len() == 0 {
        Seq::empty()
    } else {
        let n = targets.len() - 1;
        let t0 = targets.drop_last();
        let a0 = alive.drop_last();
        let prev = up_positions(t0, a0);
        let rest = up_hosts(t0, a0);
        if alive.last() {
            let idx = prev.push(n);
            assert forall|k: int| 0 <= k < idx.len() implies 0 <= #[trigger] idx[k] < targets.len() && alive[idx[k]]
                && up_hosts(targets, alive)[k] == targets[idx[k]] by {
                if k < prev.len() {
                    assert(idx[k] == prev[k]);
                    assert(a0[prev[k]] == alive[prev[k]]);
                    assert(t0[prev[k]] == targets[prev[k]]);
                    assert(up_hosts(targets, alive)[k] == rest[k]);
                }
            }
            assert forall|i: int| 0 <= i < targets.len() && alive[i] implies #[trigger] idx.contains(i) by {
                if i < n {
                    assert(a0[i] == alive[i]);
                    assert(prev.contains(i));
                    let k = choose|k: int| 0 <= k < prev.len() && prev[k] == i;
                    assert(idx[k] == i);
                } else {
                    assert(idx[idx.len() - 1] == i);
                }
            }
            idx
        } else {
            assert forall|k: int| 0 <= k < prev.len() implies 0 <= #[trigger] prev[k] < targets.len() && alive[prev[k]]
                && up_hosts(targets, alive)[k] == targets[prev[k]] by {
                assert(a0[prev[k]] == alive[prev[k]]);
                assert(t0[prev[k]] == targets[prev[k]]);
            }
            assert forall|i: int| 0 <= i < targets.len() && alive[i] implies #[trigger] prev.contains(i) by {
                assert(i < n);
                assert(a0[i] == alive[i]);
            }
            prev
        }
    }
}

/// Law: discovery keeps exactly the responding hosts, in their order — the
/// result lists, one entry each, the targets at the positions whose flag is
/// set, in increasing position order, so a host is kept exactly when its
/// flag (or another occurrence's flag) is set and the result is as long as
/// the number of set flags.
pub proof fn lemma_up_hosts_exact(targets: Seq<IpAddr>, alive: Seq<bool>)
    requires
        targets.len() == alive.len(),
    ensures
        exists|idx: Seq<int>| #[trigger] flagged_in_order(targets, alive, up_hosts(targets, alive), idx),
        forall|x: IpAddr| up_hosts(targets, alive).contains(x) <==> exists|i: int|
            0 <= i < targets.len() && alive[i] && #[trigger] targets[i] == x,
{
    let idx = up_positions(targets, alive);
    let up = up_hosts(targets, alive);
    assert forall|x: IpAddr| up.contains(x) <==> exists|i: int|
        0 <= i < targets.len() && alive[i] && #[trigger] targets[i] == x by {
        if up.contains(x) {
            let k = choose|k: int| 0 <= k < up.len() && up[k] == x;
            assert(0 <= idx[k] < targets.len());
        }
        if exists|i: int| 0 <= i < targets.len() && alive[i] && #[trigger] targets[i] == x {
            let i = choose|i: int| 0 <= i < targets.len() && alive[i] && #[trigger] targets[i] == x;
            assert(idx.contains(i));
            let k = choose|k: int| 0 <= k < idx.len() && idx[k] == i;
            assert(up[k] == x);
        }
    }
    assert(flagged_in_order(targets, alive, up, idx));
}

} // verus!
