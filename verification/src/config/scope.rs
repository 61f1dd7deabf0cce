//! Authorized-scope allowlist and enforcement.
//!
//! Scope is the tool's single most important safety property: it is the guard
//! that keeps a scan from ever touching an address the operator was not
//! authorized to assess. Enforcement is applied *after* target expansion and
//! *before* any packet is sent — every resolved IP must fall inside the scope
//! or it is refused.
//!
//! An empty scope means "no allowlist configured"; it authorizes every address
//! (the caller is responsible for warning in that case).

use vstd::prelude::*;

use crate::config::target::{cidr_reason, host_addresses, host_outcome, HostAnswer};
use crate::error::{Error, Result};
use crate::net::{
    broadcast, cidr_text, ip_text, net_broadcast, ipnet_error_text, net_network,
    lemma_net_bounds, net_contains, network, parse_cidr_range, parse_ip_range, IpAddr, IpNet,
    NetModel,
};
use crate::text::{chars_of, find_char, find_in, push_str, string_of_range, trim, trim_bounds};

verus! {

/// The mathematical content of a scope entry.
pub enum EntryModel {
    Net(NetModel),
    Ip(IpAddr),
}

/// A parsed scope entry.
#[derive(Debug, Clone, Copy)]
enum ScopeEntry {
    Net(IpNet),
    Ip(IpAddr),
}

impl ScopeEntry {
    spec fn model(self) -> EntryModel {
        match self {
            ScopeEntry::Net(n) => EntryModel::Net(n@),
            ScopeEntry::Ip(a) => EntryModel::Ip(a),
        }
    }
}

/// The content of a scope: its entries and the textual entries it was built from.
pub struct ScopeModel {
    pub entries: Seq<EntryModel>,
    pub raw: Seq<Seq<char>>,
}

/// The authorized allowlist. Enforcement is IP-based: hostnames provided as
/// scope entries are resolved to addresses when the scope is built.
#[derive(Debug, Clone)]
pub struct Scope {
    entries: Vec<ScopeEntry>,
    /// The textual entries as given (trimmed), retained for reporting/audit.
    raw: Vec<String>,
}

impl View for Scope {
    type V = ScopeModel;

    closed spec fn view(&self) -> ScopeModel {
        ScopeModel {
            entries: self.entries@.map_values(|e: ScopeEntry| e.model()),
            raw: self.raw@.map_values(|s: String| s@),
        }
    }
}

/// Whether one entry authorizes `ip`.
pub open spec fn entry_allows(e: EntryModel, ip: IpAddr) -> bool {
    match e {
        EntryModel::Ip(a) => a == ip,
        EntryModel::Net(n) => net_contains(n, ip),
    }
}

/// Whether a scope authorizes `ip`: an empty scope authorizes everything,
/// otherwise some entry must.
pub open spec fn scope_allows(entries: Seq<EntryModel>, ip: IpAddr) -> bool {
    entries.len() == 0 || exists|i: int| 0 <= i < entries.len() && entry_allows(#[trigger] entries[i], ip)
}

/// The scope entries one trimmed, non-empty textual entry yields, or the
/// reason it is rejected: a CIDR (contains `/`), an IP, or a hostname whose
/// resolved addresses are pinned.
pub open spec fn entry_outcome(t: Seq<char>, answer: HostAnswer) -> std::result::Result<Seq<EntryModel>, Seq<char>> {
    if find_char(t, '/') is Some {
        match cidr_text(t) {
            Some(n) => Ok(seq![EntryModel::Net(n)]),
            None => Err(cidr_reason()),
        }
    } else {
        match ip_text(t) {
            Some(ip) => Ok(seq![EntryModel::Ip(ip)]),
            None => match host_outcome(t, answer) {
                Ok(ips) => Ok(ips.map_values(|a: IpAddr| EntryModel::Ip(a))),
                Err(_) => Err("not a CIDR/IP and could not be resolved as a hostname"@),
            },
        }
    }
}

/// Adding one textual entry to a scope `acc`: a blank entry adds nothing; the
/// rest is trimmed and parsed, and is the failure (with its reason) when rejected.
pub open spec fn add_outcome(acc: ScopeModel, entry: Seq<char>, answer: HostAnswer) -> std::result::Result<ScopeModel, (Seq<char>, Seq<char>)> {
    let t = trim(entry);
    if t.len() == 0 {
        Ok(acc)
    } else {
        match entry_outcome(t, answer) {
            Err(r) => Err((t, r)),
            Ok(es) => Ok(ScopeModel { entries: acc.entries + es, raw: acc.raw.push(t) }),
        }
    }
}

/// Building a scope from textual entries after `acc`, in order; the first
/// rejected entry (trimmed) and its reason are the failure.
pub open spec fn build_from(acc: ScopeModel, entries: Seq<Seq<char>>, answers: Seq<HostAnswer>) -> std::result::Result<ScopeModel, (Seq<char>, Seq<char>)>
    decreases entries.len(),
{
    if entries.len() == 0 {
        Ok(acc)
    } else {
        match add_outcome(acc, entries[0], answers[0]) {
            Err(e) => Err(e),
            Ok(m) => build_from(m, entries.drop_first(), answers.drop_first()),
        }
    }
}

/// The addresses of `ips` that the scope authorizes, in order.
pub open spec fn allowed_of(entries: Seq<EntryModel>, ips: Seq<IpAddr>) -> Seq<IpAddr> {
    ips.filter(|ip: IpAddr| scope_allows(entries, ip))
}

/// The addresses of `ips` that the scope refuses, in order.
pub open spec fn refused_of(entries: Seq<EntryModel>, ips: Seq<IpAddr>) -> Seq<IpAddr> {
    ips.filter(|ip: IpAddr| !scope_allows(entries, ip))
}

/// The texts of a list of strings.
pub open spec fn texts(v: Seq<String>) -> Seq<Seq<char>> {
    v.map_values(|s: String| s@)
}

/// Whether `net` contains `ip`: same family, between the network and
/// broadcast addresses (as `ipnet`'s `contains` decides).
fn net_allows(net: &IpNet, ip: IpAddr) -> (r: bool)
    ensures
        r == net_contains(net@, ip),
{
    let v6 = net.is_v6();
    if v6 != ip.is_v6() {
        return false;
    }
    let lo = net_network(net);
    let hi = net_broadcast(net);
    let x: u128 = match ip {
        IpAddr::V4(a) => a as u128,
        IpAddr::V6(a) => a,
    };
    lo <= x && x <= hi
}

impl Scope {
    /// The scope with no entries.
    pub fn new() -> (r: Scope)
        ensures
            r@.entries.len() == 0,
            r@.raw.len() == 0,
    {
        let r = Scope { entries: Vec::new(), raw: Vec::new() };
        assert(r@.entries =~= Seq::<EntryModel>::empty());
        assert(r@.raw =~= Seq::<Seq<char>>::empty());
        r
    }

    /// Whether any scope entry was configured.
    pub fn is_empty(&self) -> (r: bool)
        ensures
            r == (self@.entries.len() == 0),
    {
        self.entries.len() == 0
    }

    /// The textual scope entries as given (for report metadata).
    pub fn raw(&self) -> (r: &[String])
        ensures
            texts(r@) == self@.raw,
    {
        self.raw.as_slice()
    }

    /// Whether an address is authorized. An empty scope authorizes everything
    /// (the caller is responsible for warning in that case).
    pub fn allows(&self, ip: &IpAddr) -> (r: bool)
        ensures
            r == scope_allows(self@.entries, *ip),
    {
        if self.entries.len() == 0 {
            return true;
        }
        let ghost es = self@.entries;
        let mut i: usize = 0;
        while i < self.entries.len()
            invariant
                i <= self.entries@.len(),
                es == self@.entries,
                es.len() == self.entries@.len(),
                forall|k: int| 0 <= k < i ==> !entry_allows(#[trigger] es[k], *ip),
            decreases self.entries@.len() - i,
        {
            assert(es[i as int] == self.entries@[i as int].model());
            let hit = match &self.entries[i] {
                ScopeEntry::Ip(a) => *a == *ip,
                ScopeEntry::Net(n) => net_allows(n, *ip),
            };
            if hit {
                return true;
            }
            i = i + 1;
        }
        false
    }

    /// Partition addresses into `(allowed, refused)`, each in input order.
    /// Refused addresses are the ones that must never be probed.
    pub fn partition(&self, ips: Vec<IpAddr>) -> (r: (Vec<IpAddr>, Vec<IpAddr>))
        ensures
            r.0@ == allowed_of(self@.entries, ips@),
            r.1@ == refused_of(self@.entries, ips@),
    {
        let ghost yes = |ip: IpAddr| scope_allows(self@.entries, ip);
        let ghost no = |ip: IpAddr| !scope_allows(self@.entries, ip);
        let mut allowed: Vec<IpAddr> = Vec::new();
        let mut refused: Vec<IpAddr> = Vec::new();
        let mut i: usize = 0;
        proof {
            reveal_with_fuel(Seq::<IpAddr>::filter, 1);
            assert(ips@.take(0) =~= Seq::<IpAddr>::empty());
        }
        while i < ips.len()
            invariant
                i <= ips@.len(),
                yes == (|ip: IpAddr| scope_allows(self@.entries, ip)),
                no == (|ip: IpAddr| !scope_allows(self@.entries, ip)),
                allowed@ == ips@.take(i as int).filter(yes),
                refused@ == ips@.take(i as int).filter(no),
            decreases ips@.len() - i,
        {
            let ip = ips[i];
            proof {
                reveal_with_fuel(Seq::<IpAddr>::filter, 1);
                assert(ips@.take(i + 1).drop_last() =~= ips@.take(i as int));
                assert(ips@.take(i + 1).last() == ip);
            }
            if self.allows(&ip) {
                allowed.push(ip);
            } else {
                refused.push(ip);
            }
            i = i + 1;
        }
        assert(ips@.take(ips@.len() as int) =~= ips@);
        (allowed, refused)
    }

    /// The hostname, if any, that the textual scope entry `entry` must be
    /// resolved as: the trimmed entry when it is non-empty, holds no `/` and
    /// is not an IP address.
    pub fn entry_hostname(entry: &str) -> (r: Option<String>)
        ensures
            match r {
                Some(h) => h@ == trim(entry@) && h@.len() > 0 && find_char(h@, '/') is None && ip_text(h@) is None,
                None => trim(entry@).len() == 0 || find_char(trim(entry@), '/') is Some || ip_text(trim(entry@)) is Some,
            },
    {
        let v = chars_of(entry);
        let (a, b) = trim_bounds(&v, 0, v.len());
        assert(v@.subrange(0, v@.len() as int) =~= v@);
        if a == b || find_in(&v, a, b, '/').is_some() {
            return None;
        }
        if parse_ip_range(&v, a, b).is_some() {
            return None;
        }
        Some(string_of_range(&v, a, b))
    }

    /// Add one textual entry (CIDR, IP, or hostname) to the scope. A hostname
    /// is pinned to the addresses of `answer`, its DNS answer (read only for
    /// a hostname entry). A blank entry adds nothing; a rejected one leaves
    /// the scope as it was.
    pub fn add_entry(&mut self, entry: &str, answer: &HostAnswer) -> (r: Result<()>)
        ensures
            match add_outcome(old(self)@, entry@, *answer) {
                Ok(m) => r is Ok && final(self)@ == m,
                Err((t, reason)) => {
                    &&& final(self)@ == old(self)@
                    &&& r matches Err(Error::ScopeParse { entry: e, reason: rs }) && e@ == t && rs@ == reason
                },
            },
    {
        let ghost before = self@;
        let v = chars_of(entry);
        let (a, b) = trim_bounds(&v, 0, v.len());
        assert(v@.subrange(0, v@.len() as int) =~= v@);
        let ghost tt = v@.subrange(a as int, b as int);
        assert(tt == trim(entry@));
        if a < b {
            let t = string_of_range(&v, a, b);
            let added: Vec<ScopeEntry>;
            if find_in(&v, a, b, '/').is_some() {
                match parse_cidr_range(&v, a, b) {
                    Ok(n) => {
                        added = vec![ScopeEntry::Net(n)];
                        assert(added@.map_values(|e: ScopeEntry| e.model()) =~= seq![EntryModel::Net(n@)]);
                    },
                    Err(e) => {
                        let mut reason = String::from_str("not a valid CIDR: ");
                        let msg = ipnet_error_text(&e);
                        push_str(&mut reason, msg.as_str());
                        return Err(Error::ScopeParse { entry: t, reason });
                    },
                }
            } else if let Some(ip) = parse_ip_range(&v, a, b) {
                added = vec![ScopeEntry::Ip(ip)];
                assert(added@.map_values(|e: ScopeEntry| e.model()) =~= seq![EntryModel::Ip(ip)]);
            } else {
                match host_addresses(t.as_str(), answer) {
                    Ok(ips) => {
                        let mut es: Vec<ScopeEntry> = Vec::new();
                        let mut k: usize = 0;
                        while k < ips.len()
                            invariant
                                k <= ips@.len(),
                                es@.len() == k,
                                forall|q: int| 0 <= q < k ==> (#[trigger] es@[q]).model() == EntryModel::Ip(ips@[q]),
                            decreases ips@.len() - k,
                        {
                            es.push(ScopeEntry::Ip(ips[k]));
                            k = k + 1;
                        }
                        added = es;
                        assert(added@.map_values(|e: ScopeEntry| e.model()) =~= ips@.map_values(|a: IpAddr| EntryModel::Ip(a)));
                    },
                    Err(_) => {
                        return Err(Error::ScopeParse { entry: t, reason: String::from_str("not a CIDR/IP and could not be resolved as a hostname") });
                    },
                }
            }
            assert(entry_outcome(tt, *answer) == Ok::<Seq<EntryModel>, Seq<char>>(added@.map_values(|e: ScopeEntry| e.model())));
            let ghost start_entries = self.entries@;
            let mut q: usize = 0;
            while q < added.len()
                invariant
                    q <= added@.len(),
                    self@.raw == before.raw,
                    self.entries@ == start_entries + added@.take(q as int),
                decreases added@.len() - q,
            {
                self.entries.push(added[q]);
                q = q + 1;
                assert(self.entries@ =~= start_entries + added@.take(q as int));
            }
            self.raw.push(t);
            proof {
                assert(added@.take(added@.len() as int) =~= added@);
                assert((start_entries + added@).map_values(|e: ScopeEntry| e.model()) =~= start_entries.map_values(|e: ScopeEntry| e.model()) + added@.map_values(|e: ScopeEntry| e.model()));
                assert(self@.raw =~= before.raw.push(tt));
                assert(self@.entries =~= before.entries + added@.map_values(|e: ScopeEntry| e.model()));
            }
        }
        Ok(())
    }

    /// Build a scope from textual entries (CIDR, IP, or hostname). Hostnames
    /// are pinned to the addresses in `answers[i]`, the DNS answer for
    /// `entries[i]` (read only for hostname entries). Blank entries are
    /// skipped; an empty input yields an empty scope.
    pub fn build(entries: &[String], answers: &[HostAnswer]) -> (r: Result<Scope>)
        requires
            answers@.len() == entries@.len(),
        ensures
            match build_from(ScopeModel { entries: Seq::empty(), raw: Seq::empty() }, texts(entries@), answers@) {
                Ok(m) => r matches Ok(s) && s@ == m,
                Err((t, reason)) => r matches Err(Error::ScopeParse { entry: e, reason: rs }) && e@ == t && rs@ == reason,
            },
    {
        let mut scope = Scope::new();
        let ghost all = texts(entries@);
        let mut i: usize = 0;
        proof {
            assert(all.skip(0) =~= all);
            assert(answers@.skip(0) =~= answers@);
            assert(scope@ == ScopeModel { entries: Seq::empty(), raw: Seq::empty() }) by {
                assert(scope@.entries =~= Seq::<EntryModel>::empty());
                assert(scope@.raw =~= Seq::<Seq<char>>::empty());
            }
        }
        while i < entries.len()
            invariant
                i <= entries@.len() == answers@.len(),
                all == texts(entries@),
                build_from(ScopeModel { entries: Seq::empty(), raw: Seq::empty() }, all, answers@)
                    == build_from(scope@, all.skip(i as int), answers@.skip(i as int)),
            decreases entries@.len() - i,
        {
            proof {
                assert(all.skip(i as int).drop_first() =~= all.skip(i + 1));
                assert(answers@.skip(i as int).drop_first() =~= answers@.skip(i + 1));
                assert(all.skip(i as int)[0] == entries@[i as int]@);
                assert(answers@.skip(i as int)[0] == answers@[i as int]);
            }
            match scope.add_entry(entries[i].as_str(), &answers[i]) {
                Ok(()) => {},
                Err(e) => {
                    return Err(e);
                },
            }
            i = i + 1;
        }
        proof {
            assert(all.skip(i as int).len() == 0);
        }
        Ok(scope)
    }
}

impl Default for Scope {
    fn default() -> (r: Scope)
        ensures
            r@.entries.len() == 0,
            r@.raw.len() == 0,
    {
        Scope::new()
    }
}

/// Law: an empty scope authorizes every address.
pub proof fn lemma_empty_scope_allows_all(ip: IpAddr)
    ensures
        scope_allows(Seq::empty(), ip),
{
}

/// Law: partitioning keeps every address exactly once — each allowed address
/// is authorized, each refused one is not, and together they are the input.
pub proof fn lemma_partition_complete(entries: Seq<EntryModel>, ips: Seq<IpAddr>)
    ensures
        forall|i: int| 0 <= i < allowed_of(entries, ips).len() ==> scope_allows(entries, #[trigger] allowed_of(entries, ips)[i]),
        forall|i: int| 0 <= i < refused_of(entries, ips).len() ==> !scope_allows(entries, #[trigger] refused_of(entries, ips)[i]),
        allowed_of(entries, ips).len() + refused_of(entries, ips).len() == ips.len(),
        forall|ip: IpAddr| ips.contains(ip) ==> (allowed_of(entries, ips).contains(ip) || refused_of(entries, ips).contains(ip)),
    decreases ips.len(),
{
    let yes = |ip: IpAddr| scope_allows(entries, ip);
    let no = |ip: IpAddr| !scope_allows(entries, ip);
    ips.filter_lemma(yes);
    ips.filter_lemma(no);
    reveal_with_fuel(Seq::<IpAddr>::filter, 1);
    if ips.len() > 0 {
        lemma_partition_complete(entries, ips.drop_last());
        assert(ips.drop_last().filter(yes).len() + ips.drop_last().filter(no).len() == ips.drop_last().len());
    }
    assert forall|ip: IpAddr| ips.contains(ip) implies (allowed_of(entries, ips).contains(ip) || refused_of(entries, ips).contains(ip)) by {
        if yes(ip) {
            ips.lemma_filter_contains_rev(yes, ip);
        } else {
            ips.lemma_filter_contains_rev(no, ip);
        }
    }
}

/// Building on a scope keeps its entries, in front.
proof fn lemma_build_keeps_entries(acc: ScopeModel, entries: Seq<Seq<char>>, answers: Seq<HostAnswer>)
    ensures
        build_from(acc, entries, answers) matches Ok(m) ==> m.entries.len() >= acc.entries.len()
            && m.entries.take(acc.entries.len() as int) == acc.entries,
    decreases entries.len(),
{
    if entries.len() > 0 {
        match add_outcome(acc, entries[0], answers[0]) {
            Ok(m1) => {
                lemma_build_keeps_entries(m1, entries.drop_first(), answers.drop_first());
                if let Ok(m) = build_from(acc, entries, answers) {
                    assert(m1.entries.take(acc.entries.len() as int) =~= acc.entries);
                    assert(m.entries.take(acc.entries.len() as int) =~= m.entries.take(m1.entries.len() as int).take(acc.entries.len() as int));
                }
            },
            Err(_) => {},
        }
    } else {
        assert(acc.entries.take(acc.entries.len() as int) =~= acc.entries);
    }
}

/// Law: once a scope has an entry, adding more entries never revokes an
/// address it authorizes. (An empty scope authorizes everything, so its first
/// entry narrows it: that case is left out.)
pub proof fn lemma_adding_never_revokes(acc: ScopeModel, entries: Seq<Seq<char>>, answers: Seq<HostAnswer>, ip: IpAddr)
    requires
        acc.entries.len() > 0,
        scope_allows(acc.entries, ip),
    ensures
        build_from(acc, entries, answers) matches Ok(m) ==> scope_allows(m.entries, ip),
{
    lemma_build_keeps_entries(acc, entries, answers);
    if let Ok(m) = build_from(acc, entries, answers) {
        let i = choose|i: int| 0 <= i < acc.entries.len() && entry_allows(#[trigger] acc.entries[i], ip);
        assert(m.entries.take(acc.entries.len() as int)[i] == m.entries[i]);
        assert(entry_allows(m.entries[i], ip));
    }
}

} // verus!
