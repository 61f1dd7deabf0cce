//! Target parsing and expansion.
//!
//! Parsing ([`parse_target_token`]) is pure. Expansion
//! ([`expand_targets`]) enforces the `--max-targets` safety cap so a fat CIDR
//! (e.g. a /8) can never silently balloon into millions of hosts; it takes the
//! DNS answers for hostname targets as plain values.

use std::collections::HashSet;

use vstd::arithmetic::power2::pow2;
use vstd::prelude::*;

use crate::error::{Error, Result};
use crate::net::{
    addr_bits, block, net_wf, cidr_text, first_host, ip_text, net_broadcast, ipnet_error_text, net_network, last_host,
    lemma_net_bounds, parse_cidr_range, parse_ip_range, IpAddr, IpNet, NetModel,
};
use crate::text::{
    all_digits, chars_of, find_char, find_in, is_digit, parse_unsigned, parse_unsigned_range,
    push_str, split, split_bounds, string_of_range, trim, trim_bounds,
};

verus! {

/// The mathematical content of a [`TargetSpec`].
pub enum TargetModel {
    Ip(IpAddr),
    Cidr(NetModel),
    Range { start: IpAddr, end: IpAddr },
    Host(Seq<char>),
}

/// A parsed but not-yet-expanded target expression.
#[derive(Debug, Clone, PartialEq, Eq)]
pub enum TargetSpec {
    /// A single literal IP address.
    Ip(IpAddr),
    /// A CIDR block; expansion yields its host addresses.
    Cidr(IpNet),
    /// An inclusive address range `[start, end]` (same IP family).
    Range { start: IpAddr, end: IpAddr },
    /// A hostname to be resolved via DNS at expansion time.
    Host(String),
}

impl TargetSpec {
    pub open spec fn model(self) -> TargetModel {
        match self {
            TargetSpec::Ip(ip) => TargetModel::Ip(ip),
            TargetSpec::Cidr(n) => TargetModel::Cidr(n@),
            TargetSpec::Range { start, end } => TargetModel::Range { start, end },
            TargetSpec::Host(h) => TargetModel::Host(h@),
        }
    }
}

/// The reason a `/` token is rejected: `ipnet`'s message after a prefix.
pub open spec fn cidr_reason() -> Seq<char> {
    "not a valid CIDR: "@ + "invalid IP address syntax"@
}

/// IPv4 address `s` with its last octet replaced by `last`.
pub open spec fn with_last_octet(s: u32, last: nat) -> u32 {
    ((s as nat / 256) * 256 + last) as u32
}

/// The end of a range: an IP address, or for IPv4 starts a final-octet number.
pub open spec fn range_end(start: IpAddr, right: Seq<char>) -> Option<IpAddr> {
    match ip_text(right) {
        Some(e) => Some(e),
        None => match start {
            IpAddr::V4(s) => match parse_unsigned(right, 255) {
                Some(l) => Some(IpAddr::V4(with_last_octet(s, l))),
                None => None,
            },
            IpAddr::V6(_) => None,
        },
    }
}

pub open spec fn same_family(a: IpAddr, b: IpAddr) -> bool {
    (a is V4) == (b is V4)
}

/// Range syntax `start-end`: `Ok(None)` when the token is not range-shaped
/// (no `-`, or the left side is not an IP), so hostnames with `-` fall through.
pub open spec fn range_outcome(t: Seq<char>) -> std::result::Result<Option<TargetModel>, Seq<char>> {
    match find_char(t, '-') {
        None => Ok(None),
        Some(i) => match ip_text(trim(t.take(i))) {
            None => Ok(None),
            Some(start) => match range_end(start, trim(t.skip(i + 1))) {
                None => Err(
                    "range end must be an IP address or (for IPv4) a final-octet number"@,
                ),
                Some(end) => if !same_family(start, end) {
                    Err("range endpoints must be the same IP family"@)
                } else if end.value() < start.value() {
                    Err("range end is before range start"@)
                } else {
                    Ok(Some(TargetModel::Range { start, end }))
                },
            },
        },
    }
}

pub open spec fn is_alnum(c: char) -> bool {
    is_digit(c) || ('a' <= c && c <= 'z') || ('A' <= c && c <= 'Z')
}

/// A hostname label: 1..=63 ASCII letters, digits or `-`, not starting or
/// ending with `-`.
pub open spec fn label_ok(l: Seq<char>) -> bool {
    &&& 0 < l.len() <= 63
    &&& l[0] != '-'
    &&& l.last() != '-'
    &&& forall|i: int| 0 <= i < l.len() ==> is_alnum(#[trigger] l[i]) || l[i] == '-'
}

/// A lenient RFC 1123 hostname check: at most 253 characters, every label
/// valid, and a top-level label that is not all digits. (Counting characters
/// or UTF-8 bytes gives the same answer: any non-ASCII character already
/// fails its label.)
pub open spec fn plausible_hostname(t: Seq<char>) -> bool {
    let labels = split(t, '.');
    &&& t.len() <= 253
    &&& !(labels.last().len() > 0 && all_digits(labels.last()))
    &&& forall|i: int| 0 <= i < labels.len() ==> label_ok(#[trigger] labels[i])
}

/// `c` with an ASCII capital letter lowered.
pub open spec fn lower_char(c: char) -> char {
    if 'A' <= c && c <= 'Z' { (c as int + 32) as char } else { c }
}

/// `s` with its ASCII capital letters lowered.
pub open spec fn ascii_lower(s: Seq<char>) -> Seq<char> {
    Seq::new(s.len(), |k: int| lower_char(s[k]))
}

/// Each text of `v` with its ASCII capital letters lowered.
pub open spec fn lower_all(v: Seq<Seq<char>>) -> Seq<Seq<char>> {
    Seq::new(v.len(), |k: int| ascii_lower(v[k]))
}

/// Lowering keeps every character that is not a capital letter, and turns a
/// capital letter into a small one.
proof fn lemma_lower_char(c: char)
    ensures
        ('A' <= c && c <= 'Z') ==> ('a' <= lower_char(c) && lower_char(c) <= 'z'),
        !('A' <= c && c <= 'Z') ==> lower_char(c) == c,
{
    if 'A' <= c && c <= 'Z' {
        assert('a' <= (c as int + 32) as char && (c as int + 32) as char <= 'z');
    }
}

/// Lowering moves no separator that is not a letter.
proof fn lemma_lower_find(s: Seq<char>, c: char)
    requires
        !('A' <= c && c <= 'Z'),
        !('a' <= c && c <= 'z'),
    ensures
        find_char(ascii_lower(s), c) == find_char(s, c),
    decreases s.len(),
{
    if s.len() > 0 {
        lemma_lower_char(s[0]);
        assert(ascii_lower(s).drop_first() =~= ascii_lower(s.drop_first()));
        lemma_lower_find(s.drop_first(), c);
    }
}

/// Lowering a text lowers each of its parts and keeps where it splits.
proof fn lemma_lower_split(s: Seq<char>, c: char)
    requires
        !('A' <= c && c <= 'Z'),
        !('a' <= c && c <= 'z'),
    ensures
        split(ascii_lower(s), c) =~= lower_all(split(s, c)),
    decreases s.len(),
{
    lemma_lower_find(s, c);
    match find_char(s, c) {
        None => {},
        Some(i) => {
            if 0 <= i < s.len() {
                assert(ascii_lower(s).take(i) =~= ascii_lower(s.take(i)));
                assert(ascii_lower(s).skip(i + 1) =~= ascii_lower(s.skip(i + 1)));
                lemma_lower_split(s.skip(i + 1), c);
                let rest = split(s.skip(i + 1), c);
                assert(lower_all(seq![s.take(i)] + rest) =~= seq![ascii_lower(s.take(i))] + lower_all(rest));
            }
        },
    }
}

/// Law: a hostname label's validity does not depend on letter case — a label
/// is valid exactly when its lowercase form is, and every ASCII letter, small
/// or capital, is a valid one-letter label.
pub proof fn lemma_label_case_insensitive(l: Seq<char>, c: char)
    ensures
        label_ok(ascii_lower(l)) == label_ok(l),
        ('A' <= c && c <= 'Z') || ('a' <= c && c <= 'z') ==> label_ok(seq![c]),
{
    let m = ascii_lower(l);
    assert forall|i: int| 0 <= i < l.len() implies (is_alnum(#[trigger] m[i]) || m[i] == '-') == (is_alnum(l[i]) || l[i] == '-') by {
        lemma_lower_char(l[i]);
    }
    if l.len() > 0 {
        lemma_lower_char(l[0]);
        lemma_lower_char(l.last());
        assert(m.last() == lower_char(l.last()));
        if label_ok(l) {
            assert forall|i: int| 0 <= i < m.len() implies is_alnum(#[trigger] m[i]) || m[i] == '-' by {
                assert(is_alnum(l[i]) || l[i] == '-');
            }
        }
        if label_ok(m) {
            assert forall|i: int| 0 <= i < l.len() implies is_alnum(#[trigger] l[i]) || l[i] == '-' by {
                assert(is_alnum(m[i]) || m[i] == '-');
            }
        }
    }
    assert(seq![c][0] == c);
}

/// Law: hostname acceptance does not depend on letter case — a text is a
/// plausible hostname exactly when its lowercase form is, so
/// `FileServer.corp.example` is accepted as `fileserver.corp.example` is.
pub proof fn lemma_hostname_case_insensitive(t: Seq<char>)
    ensures
        plausible_hostname(ascii_lower(t)) == plausible_hostname(t),
{
    lemma_lower_split(t, '.');
    let labels = split(t, '.');
    let lowered = split(ascii_lower(t), '.');
    assert(lowered.len() == labels.len());
    assert forall|i: int| 0 <= i < labels.len() implies label_ok(#[trigger] lowered[i]) == label_ok(labels[i]) by {
        assert(lowered[i] == ascii_lower(labels[i]));
        lemma_label_case_insensitive(labels[i], 'a');
    }
    if labels.len() > 0 {
        let last = labels.last();
        assert(lowered.last() == ascii_lower(last));
        assert forall|i: int| 0 <= i < last.len() implies is_digit(#[trigger] ascii_lower(last)[i]) == is_digit(last[i]) by {
            lemma_lower_char(last[i]);
        }
        let ll = ascii_lower(last);
        if all_digits(last) {
            assert forall|i: int| 0 <= i < ll.len() implies is_digit(#[trigger] ll[i]) by {
                assert(is_digit(last[i]));
            }
        }
        if all_digits(ll) {
            assert forall|i: int| 0 <= i < last.len() implies is_digit(#[trigger] last[i]) by {
                assert(is_digit(ll[i]));
            }
        }
        assert(all_digits(ll) == all_digits(last));
    }
    if plausible_hostname(t) {
        assert forall|i: int| 0 <= i < lowered.len() implies label_ok(#[trigger] lowered[i]) by {
            assert(label_ok(labels[i]));
        }
    }
    if plausible_hostname(ascii_lower(t)) {
        assert forall|i: int| 0 <= i < labels.len() implies label_ok(#[trigger] labels[i]) by {
            assert(label_ok(lowered[i]));
        }
    }
}

/// What a target token denotes, or why it is rejected. Recognizes, in order:
/// CIDR (contains `/`), range (contains `-`), a bare IP literal, and finally
/// a hostname.
pub open spec fn target_outcome(token: Seq<char>) -> std::result::Result<TargetModel, Seq<char>> {
    let t = trim(token);
    if t.len() == 0 {
        Err("empty target"@)
    } else if find_char(t, '/') is Some {
        match cidr_text(t) {
            Some(n) => Ok(TargetModel::Cidr(n)),
            None => Err(cidr_reason()),
        }
    } else {
        match range_outcome(t) {
            Err(e) => Err(e),
            Ok(Some(m)) => Ok(m),
            Ok(None) => match ip_text(t) {
                Some(ip) => Ok(TargetModel::Ip(ip)),
                None => if plausible_hostname(t) {
                    Ok(TargetModel::Host(t))
                } else {
                    Err("not an IP, CIDR, range, or valid hostname"@)
                },
            },
        }
    }
}

fn target_error(token: String, reason: String) -> (e: Error)
    ensures
        e matches Error::TargetParse { token: tk, reason: rs } && tk@ == token@ && rs@ == reason@,
{
    Error::TargetParse { token, reason }
}

/// Whether `v[lo..hi]` is a valid hostname label.
fn label_ok_range(v: &Vec<char>, lo: usize, hi: usize) -> (r: bool)
    requires
        lo <= hi <= v@.len(),
    ensures
        r == label_ok(v@.subrange(lo as int, hi as int)),
{
    let ghost l = v@.subrange(lo as int, hi as int);
    if hi == lo || hi - lo > 63 {
        return false;
    }
    if v[lo] == '-' || v[hi - 1] == '-' {
        return false;
    }
    let mut i = lo;
    while i < hi
        invariant
            lo <= i <= hi <= v@.len(),
            l == v@.subrange(lo as int, hi as int),
            forall|k: int| 0 <= k < i - lo ==> is_alnum(#[trigger] l[k]) || l[k] == '-',
        decreases hi - i,
    {
        let c = v[i];
        let ok = ('0' <= c && c <= '9') || ('a' <= c && c <= 'z') || ('A' <= c && c <= 'Z') || c
            == '-';
        if !ok {
            assert(l[i - lo] == c);
            return false;
        }
        i = i + 1;
    }
    true
}

/// Whether `v[lo..hi]` is all ASCII digits and non-empty.
fn numeric_range(v: &Vec<char>, lo: usize, hi: usize) -> (r: bool)
    requires
        lo <= hi <= v@.len(),
    ensures
        r == (hi > lo && all_digits(v@.subrange(lo as int, hi as int))),
{
    let ghost l = v@.subrange(lo as int, hi as int);
    if hi == lo {
        return false;
    }
    let mut i = lo;
    while i < hi
        invariant
            lo <= i <= hi <= v@.len(),
            l == v@.subrange(lo as int, hi as int),
            forall|k: int| 0 <= k < i - lo ==> is_digit(#[trigger] l[k]),
        decreases hi - i,
    {
        let c = v[i];
        if !('0' <= c && c <= '9') {
            assert(l[i - lo] == c);
            return false;
        }
        i = i + 1;
    }
    true
}

/// A permissive hostname sanity check (RFC 1123-ish) of `v[lo..hi]`.
fn is_plausible_hostname(v: &Vec<char>, lo: usize, hi: usize) -> (r: bool)
    requires
        lo <= hi <= v@.len(),
    ensures
        r == plausible_hostname(v@.subrange(lo as int, hi as int)),
{
    let ghost t = v@.subrange(lo as int, hi as int);
    if hi - lo > 253 {
        return false;
    }
    let b = split_bounds(v, lo, hi, '.');
    let ghost labels = split(t, '.');
    let (ta, tb) = b[b.len() - 1];
    if numeric_range(v, ta, tb) {
        return false;
    }
    let mut i: usize = 0;
    while i < b.len()
        invariant
            i <= b@.len(),
            lo <= hi <= v@.len(),
            b@.len() == labels.len(),
            labels == split(t, '.'),
            t == v@.subrange(lo as int, hi as int),
            forall|k: int|
                0 <= k < b@.len() ==> lo <= (#[trigger] b@[k]).0 <= b@[k].1 <= hi && v@.subrange(
                    b@[k].0 as int,
                    b@[k].1 as int,
                ) == labels[k],
            forall|k: int| 0 <= k < i ==> label_ok(#[trigger] labels[k]),
        decreases b@.len() - i,
    {
        let (la, lb) = b[i];
        if !label_ok_range(v, la, lb) {
            return false;
        }
        i = i + 1;
    }
    true
}

/// Parse a range token like `10.0.0.1-10.0.0.50` or the last-octet shorthand
/// `10.0.0.1-50` (the trimmed token is `v[a..b]`, its text `token`).
#[verifier::spinoff_prover]
#[verifier::rlimit(40)]
fn parse_range(v: &Vec<char>, a: usize, b: usize, token: &String) -> (r: Result<Option<TargetSpec>>)
    requires
        a <= b <= v@.len(),
        token@ == v@.subrange(a as int, b as int),
    ensures
        match r {
            Ok(Some(t)) => range_outcome(token@) == Ok::<Option<TargetModel>, Seq<char>>(Some(t.model())),
            Ok(None) => range_outcome(token@) == Ok::<Option<TargetModel>, Seq<char>>(None),
            Err(Error::TargetParse { token: tk, reason }) => tk@ == token@ && range_outcome(token@)
                == Err::<Option<TargetModel>, Seq<char>>(reason@),
            Err(_) => false,
        },
{
    let ghost t = v@.subrange(a as int, b as int);
    let j = match find_in(v, a, b, '-') {
        None => {
            return Ok(None);
        },
        Some(j) => j,
    };
    assert(t.take(j - a) =~= v@.subrange(a as int, j as int));
    assert(t.skip(j - a + 1) =~= v@.subrange(j + 1, b as int));
    let (la, lb) = trim_bounds(v, a, j);
    let (ra, rb) = trim_bounds(v, j + 1, b);
    let start = match parse_ip_range(v, la, lb) {
        None => {
            return Ok(None);
        },
        Some(s) => s,
    };
    let end_text = parse_ip_range(v, ra, rb);
    let end = match end_text {
        Some(e) => e,
        None => {
            let shorthand = match start {
                IpAddr::V4(s) => match parse_unsigned_range(v, ra, rb, 255) {
                    Some(last) => Some(IpAddr::V4((s / 256) * 256 + last as u32)),
                    None => None,
                },
                IpAddr::V6(_) => None,
            };
            match shorthand {
                Some(e) => e,
                None => {
                    return Err(
                        target_error(
                            token.clone(),
                            String::from_str(
                                "range end must be an IP address or (for IPv4) a final-octet number",
                            ),
                        ),
                    );
                },
            }
        },
    };
    match (start, end) {
        (IpAddr::V4(s), IpAddr::V4(e)) => {
            if e < s {
                return Err(target_error(token.clone(), String::from_str("range end is before range start")));
            }
        },
        (IpAddr::V6(s), IpAddr::V6(e)) => {
            if e < s {
                return Err(target_error(token.clone(), String::from_str("range end is before range start")));
            }
        },
        _ => {
            return Err(
                target_error(token.clone(), String::from_str("range endpoints must be the same IP family")),
            );
        },
    }
    Ok(Some(TargetSpec::Range { start, end }))
}

/// Parse one target token into a [`TargetSpec`].
///
/// Recognizes, in order: CIDR (contains `/`), range (contains `-`), a bare IP
/// literal, and finally a hostname.
pub fn parse_target_token(token: &str) -> (r: Result<TargetSpec>)
    ensures
        match r {
            Ok(t) => target_outcome(token@) == Ok::<TargetModel, Seq<char>>(t.model()),
            Err(Error::TargetParse { token: tk, reason }) => tk@ == trim(token@) && target_outcome(
                token@,
            ) == Err::<TargetModel, Seq<char>>(reason@),
            Err(_) => false,
        },
{
    let v = chars_of(token);
    let (a, b) = trim_bounds(&v, 0, v.len());
    assert(v@.subrange(0, v@.len() as int) =~= v@);
    let t = string_of_range(&v, a, b);
    if a == b {
        return Err(target_error(t, String::from_str("empty target")));
    }
    if find_in(&v, a, b, '/').is_some() {
        return match parse_cidr_range(&v, a, b) {
            Ok(n) => Ok(TargetSpec::Cidr(n)),
            Err(e) => {
                let mut reason = String::from_str("not a valid CIDR: ");
                let msg = ipnet_error_text(&e);
                push_str(&mut reason, msg.as_str());
                Err(target_error(t, reason))
            },
        };
    }
    match parse_range(&v, a, b, &t) {
        Err(e) => {
            return Err(e);
        },
        Ok(Some(spec)) => {
            return Ok(spec);
        },
        Ok(None) => {},
    }
    if let Some(ip) = parse_ip_range(&v, a, b) {
        return Ok(TargetSpec::Ip(ip));
    }
    if is_plausible_hostname(&v, a, b) {
        return Ok(TargetSpec::Host(t));
    }
    Err(target_error(t, String::from_str("not an IP, CIDR, range, or valid hostname")))
}

/// Hosts in an IPv4 block with `host_bits` host bits: network and broadcast
/// addresses are excluded below /31.
pub open spec fn spec_host_count_v4(host_bits: nat) -> nat {
    if host_bits == 0 {
        1
    } else if host_bits == 1 {
        2
    } else {
        (pow2(host_bits) - 2) as nat
    }
}

/// Length of the inclusive range `[start, end]` of one family (IPv6 lengths
/// saturate at `u128::MAX`); `None` for mixed families or a reversed range.
pub open spec fn spec_range_len(start: IpAddr, end: IpAddr) -> Option<nat> {
    match (start, end) {
        (IpAddr::V4(s), IpAddr::V4(e)) => if e >= s {
            Some((e - s + 1) as nat)
        } else {
            None
        },
        (IpAddr::V6(s), IpAddr::V6(e)) => if e >= s {
            Some(if e - s + 1 > u128::MAX { u128::MAX as nat } else { (e - s + 1) as nat })
        } else {
            None
        },
        _ => None,
    }
}

/// A conservative upper bound on the number of hosts a target expands to;
/// `None` for hostnames (unknown until resolved).
pub open spec fn spec_estimated_hosts(m: TargetModel) -> Option<nat> {
    match m {
        TargetModel::Ip(_) => Some(1),
        TargetModel::Host(_) => None,
        TargetModel::Cidr(n) => if !n.v6 {
            Some(spec_host_count_v4((32 - n.prefix_len) as nat))
        } else {
            Some(pow2(if 128 - n.prefix_len < 127 { (128 - n.prefix_len) as nat } else { 127 }))
        },
        TargetModel::Range { start, end } => spec_range_len(start, end),
    }
}

/// `2^k` as a `u128`.
fn pow2_u128(k: u32) -> (r: u128)
    requires
        k < 128,
    ensures
        r == pow2(k as nat),
{
    let mut r: u128 = 1;
    let mut i: u32 = 0;
    proof {
        vstd::arithmetic::power2::lemma2_to64();
        vstd::arithmetic::power2::lemma2_to64_rest();
        vstd::arithmetic::power2::lemma_pow2_adds(64, 63);
    }
    while i < k
        invariant
            i <= k < 128,
            r == pow2(i as nat),
            pow2(127) == 0x8000_0000_0000_0000_0000_0000_0000_0000nat,
        decreases k - i,
    {
        proof {
            vstd::arithmetic::power2::lemma_pow2_unfold((i + 1) as nat);
            if i + 1 < 127 {
                vstd::arithmetic::power2::lemma_pow2_strictly_increases((i + 1) as nat, 127);
            }
        }
        r = r * 2;
        i = i + 1;
    }
    r
}

/// Hosts in an IPv4 block with `host_bits` host bits.
fn host_count_v4(host_bits: u32) -> (r: u128)
    requires
        host_bits <= 32,
    ensures
        r == spec_host_count_v4(host_bits as nat),
{
    match host_bits {
        0 => 1,
        1 => 2,
        n => {
            let p = pow2_u128(n);
            proof {
                vstd::arithmetic::power2::lemma_pow2_strictly_increases(1, n as nat);
                vstd::arithmetic::power2::lemma2_to64();
            }
            p - 2
        },
    }
}

impl TargetSpec {
    /// A conservative upper bound on the number of hosts this spec expands to.
    /// Returns `None` for hostnames (unknown until resolved).
    pub fn estimated_hosts(&self) -> (r: Option<u128>)
        ensures
            match r {
                Some(n) => spec_estimated_hosts(self.model()) == Some(n as nat),
                None => spec_estimated_hosts(self.model()) is None,
            },
    {
        match self {
            TargetSpec::Ip(_) => Some(1),
            TargetSpec::Host(_) => None,
            TargetSpec::Cidr(net) => {
                let v6 = net.is_v6();
                let p = net.prefix_len();
                if !v6 {
                    Some(host_count_v4(32 - p as u32))
                } else {
                    let bits = 128 - p as u32;
                    Some(pow2_u128(if bits < 127 { bits } else { 127 }))
                }
            },
            TargetSpec::Range { start, end } => range_len(*start, *end),
        }
    }
}

/// Length of an inclusive address range, `None` when mixed or reversed.
fn range_len(start: IpAddr, end: IpAddr) -> (r: Option<u128>)
    ensures
        match r {
            Some(n) => spec_range_len(start, end) == Some(n as nat),
            None => spec_range_len(start, end) is None,
        },
{
    match (start, end) {
        (IpAddr::V4(s), IpAddr::V4(e)) => if e >= s {
            Some((e - s) as u128 + 1)
        } else {
            None
        },
        (IpAddr::V6(s), IpAddr::V6(e)) => if e >= s {
            Some((e - s).saturating_add(1))
        } else {
            None
        },
        _ => None,
    }
}

/// The saturating sum of the known host estimates of a list of targets.
pub open spec fn estimate_sum(specs: Seq<TargetModel>) -> nat
    decreases specs.len(),
{
    if specs.len() == 0 {
        0
    } else {
        let rest = estimate_sum(specs.drop_last());
        let add = match spec_estimated_hosts(specs.last()) {
            Some(n) => n,
            None => 0,
        };
        if rest + add > u128::MAX {
            u128::MAX as nat
        } else {
            rest + add
        }
    }
}

/// The models of a list of targets.
pub open spec fn models(specs: Seq<TargetSpec>) -> Seq<TargetModel> {
    specs.map_values(|t: TargetSpec| t.model())
}

/// The saturating sum of the host estimates of `specs`.
pub fn estimated_total(specs: &[TargetSpec]) -> (r: u128)
    ensures
        r == estimate_sum(models(specs@)),
{
    let mut acc: u128 = 0;
    let mut i: usize = 0;
    assert(models(specs@).take(0) =~= Seq::<TargetModel>::empty());
    while i < specs.len()
        invariant
            i <= specs@.len(),
            acc == estimate_sum(models(specs@).take(i as int)),
        decreases specs@.len() - i,
    {
        let n = match specs[i].estimated_hosts() {
            Some(n) => n,
            None => 0,
        };
        proof {
            assert(models(specs@).take(i + 1).drop_last() =~= models(specs@).take(i as int));
            assert(models(specs@).take(i + 1).last() == specs@[i as int].model());
        }
        acc = acc.saturating_add(n);
        i = i + 1;
    }
    assert(models(specs@).take(specs@.len() as int) =~= models(specs@));
    acc
}

/// `out` with `x` appended unless it is already there.
pub open spec fn add_unique(out: Seq<IpAddr>, x: IpAddr) -> Seq<IpAddr> {
    if out.contains(x) {
        out
    } else {
        out.push(x)
    }
}

/// `out` followed by the members of `new` it does not yet hold, first-seen
/// order, each once.
pub open spec fn dedup_append(out: Seq<IpAddr>, new: Seq<IpAddr>) -> Seq<IpAddr>
    decreases new.len(),
{
    if new.len() == 0 {
        out
    } else {
        add_unique(dedup_append(out, new.drop_last()), new.last())
    }
}

/// The address of family `v6` with number `x`.
pub open spec fn mk_ip(v6: bool, x: nat) -> IpAddr {
    if v6 {
        IpAddr::V6(x as u128)
    } else {
        IpAddr::V4(x as u32)
    }
}

/// The addresses `first..=last` of one family, ascending.
pub open spec fn span(v6: bool, first: nat, last: nat) -> Seq<IpAddr> {
    if first <= last {
        Seq::new((last - first + 1) as nat, |i: int| mk_ip(v6, (first + i) as nat))
    } else {
        Seq::empty()
    }
}

/// The addresses a target expands to; hostnames expand to their resolved addresses.
pub open spec fn expansion(m: TargetModel, resolved: Seq<IpAddr>) -> Seq<IpAddr> {
    match m {
        TargetModel::Ip(ip) => seq![ip],
        TargetModel::Cidr(n) => span(n.v6, first_host(n), last_host(n)),
        TargetModel::Range { start, end } => if same_family(start, end) {
            span(start is V6, start.value(), end.value())
        } else {
            Seq::empty()
        },
        TargetModel::Host(_) => resolved,
    }
}

/// What a DNS lookup of a hostname returned.
pub enum HostAnswer {
    /// The addresses returned, in resolver order.
    Addrs(Vec<IpAddr>),
    /// The lookup failed, with the resolver's message.
    Failed(String),
}

/// Why an expansion step fails.
pub enum ExpandFailure {
    TooMany { count: nat, cap: nat },
    Dns { host: Seq<char>, reason: Seq<char> },
}

/// The addresses a hostname resolves to (deduplicated), or why not.
pub open spec fn host_outcome(host: Seq<char>, answer: HostAnswer) -> std::result::Result<Seq<IpAddr>, ExpandFailure> {
    match answer {
        HostAnswer::Failed(reason) => Err(ExpandFailure::Dns { host, reason: reason@ }),
        HostAnswer::Addrs(v) => {
            let d = dedup_append(Seq::empty(), v@);
            if d.len() == 0 {
                Err(ExpandFailure::Dns { host, reason: "no addresses returned"@ })
            } else {
                Ok(d)
            }
        },
    }
}

/// The count reported when the cap `max` is exceeded while expanding.
pub open spec fn over_cap_count(max: nat) -> nat {
    if max + 1 > usize::MAX {
        usize::MAX as nat
    } else {
        max + 1
    }
}

/// One target's addresses appended to `out` under the cap `max`.
pub open spec fn expand_step(out: Seq<IpAddr>, m: TargetModel, answer: HostAnswer, max: nat) -> std::result::Result<Seq<IpAddr>, ExpandFailure> {
    let resolved = match m {
        TargetModel::Host(h) => host_outcome(h, answer),
        _ => Ok(expansion(m, Seq::empty())),
    };
    match resolved {
        Err(e) => Err(e),
        Ok(addrs) => {
            let next = dedup_append(out, addrs);
            if next.len() > max {
                Err(ExpandFailure::TooMany { count: over_cap_count(max), cap: max })
            } else {
                Ok(next)
            }
        },
    }
}

/// All targets expanded in order after `out`, or the first failure.
pub open spec fn expand_from(out: Seq<IpAddr>, specs: Seq<TargetModel>, answers: Seq<HostAnswer>, max: nat) -> std::result::Result<Seq<IpAddr>, ExpandFailure>
    decreases specs.len(),
{
    if specs.len() == 0 {
        Ok(out)
    } else {
        match expand_step(out, specs[0], answers[0], max) {
            Err(e) => Err(e),
            Ok(next) => expand_from(next, specs.drop_first(), answers.drop_first(), max),
        }
    }
}

/// The outcome of expanding `specs` under the cap `max`: first the estimate
/// is checked, then every target is expanded in order.
pub open spec fn expand_outcome(specs: Seq<TargetModel>, answers: Seq<HostAnswer>, max: nat) -> std::result::Result<Seq<IpAddr>, ExpandFailure> {
    let est = estimate_sum(specs);
    if est > max {
        Err(ExpandFailure::TooMany { count: if est > u32::MAX { u32::MAX as nat } else { est }, cap: max })
    } else {
        expand_from(Seq::empty(), specs, answers, max)
    }
}

/// The error an expansion failure is reported as.
pub open spec fn failure_matches(e: Error, f: ExpandFailure) -> bool {
    match f {
        ExpandFailure::TooMany { count, cap } => e matches Error::TooManyTargets { count: c, cap: k } && c == count && k == cap,
        ExpandFailure::Dns { host, reason } => e matches Error::DnsResolution { host: h, reason: r } && h@ == host && r@ == reason,
    }
}

/// The addresses already collected, split by family for constant-time membership.
struct Seen {
    v4: HashSet<u32>,
    v6: HashSet<u128>,
}

impl Seen {
    spec fn matches(&self, out: Seq<IpAddr>) -> bool {
        &&& forall|x: u32| self.v4@.contains(x) <==> out.contains(IpAddr::V4(x))
        &&& forall|y: u128| self.v6@.contains(y) <==> out.contains(IpAddr::V6(y))
    }

    fn new() -> (r: Seen)
        ensures
            r.matches(Seq::empty()),
    {
        Seen { v4: HashSet::new(), v6: HashSet::new() }
    }
}

/// Append `ip` to `out` unless already present, within the cap `max`.
fn push_unique(out: &mut Vec<IpAddr>, seen: &mut Seen, ip: IpAddr, max: usize) -> (r: Result<()>)
    requires
        old(seen).matches(old(out)@),
        old(out)@.len() <= max,
    ensures
        match r {
            Ok(()) => final(out)@ == add_unique(old(out)@, ip) && final(out)@.len() <= max && final(seen).matches(final(out)@),
            Err(e) => add_unique(old(out)@, ip).len() > max && failure_matches(e, ExpandFailure::TooMany { count: over_cap_count(max as nat), cap: max as nat }),
        },
{
    broadcast use vstd::std_specs::hash::group_hash_axioms;
    let fresh = match ip {
        IpAddr::V4(x) => !seen.v4.contains(&x),
        IpAddr::V6(y) => !seen.v6.contains(&y),
    };
    if !fresh {
        return Ok(());
    }
    if out.len() >= max {
        return Err(Error::TooManyTargets { count: out.len().saturating_add(1), cap: max });
    }
    match ip {
        IpAddr::V4(x) => {
            seen.v4.insert(x);
        },
        IpAddr::V6(y) => {
            seen.v6.insert(y);
        },
    }
    out.push(ip);
    proof {
        assert forall|z: IpAddr| out@.contains(z) <==> (old(out)@.contains(z) || z == ip) by {
            if out@.contains(z) {
                let k = choose|k: int| 0 <= k < out@.len() && out@[k] == z;
                if k < old(out)@.len() {
                    assert(old(out)@[k] == z);
                }
            }
            if old(out)@.contains(z) {
                let k = choose|k: int| 0 <= k < old(out)@.len() && old(out)@[k] == z;
                assert(out@[k] == z);
            }
            if z == ip {
                assert(out@[out@.len() - 1] == z);
            }
        }
    }
    Ok(())
}


/// Appending a longer prefix never yields fewer addresses.
proof fn lemma_dedup_prefix_len(o: Seq<IpAddr>, l: Seq<IpAddr>, k: int)
    requires
        0 <= k <= l.len(),
    ensures
        dedup_append(o, l.take(k)).len() <= dedup_append(o, l).len(),
    decreases l.len() - k,
{
    if k < l.len() {
        lemma_dedup_prefix_len(o, l, k + 1);
        assert(l.take(k + 1).drop_last() =~= l.take(k));
    } else {
        assert(l.take(k) =~= l);
    }
}

/// Appending one more element of `l` extends the prefix by one step.
proof fn lemma_dedup_prefix_step(o: Seq<IpAddr>, l: Seq<IpAddr>, k: int)
    requires
        0 <= k < l.len(),
    ensures
        dedup_append(o, l.take(k + 1)) == add_unique(dedup_append(o, l.take(k)), l[k]),
{
    assert(l.take(k + 1).drop_last() =~= l.take(k));
    assert(l.take(k + 1).last() == l[k]);
}

/// Append the addresses `first..=last` of one family to `out`, skipping those
/// already present, within the cap `max`.
fn push_span(out: &mut Vec<IpAddr>, seen: &mut Seen, v6: bool, first: u128, last: u128, max: usize) -> (r: Result<()>)
    requires
        old(seen).matches(old(out)@),
        old(out)@.len() <= max,
        !v6 && first <= last ==> last <= u32::MAX,
    ensures
        match r {
            Ok(()) => final(out)@ == dedup_append(old(out)@, span(v6, first as nat, last as nat)) && final(out)@.len() <= max && final(seen).matches(final(out)@),
            Err(e) => dedup_append(old(out)@, span(v6, first as nat, last as nat)).len() > max && failure_matches(e, ExpandFailure::TooMany { count: over_cap_count(max as nat), cap: max as nat }),
        },
{
    let ghost sp = span(v6, first as nat, last as nat);
    if first > last {
        assert(sp.len() == 0);
        return Ok(());
    }
    let mut x = first;
    assert(sp.take(0) =~= Seq::<IpAddr>::empty());
    loop
        invariant
            first <= x <= last,
            !v6 ==> last <= u32::MAX,
            sp == span(v6, first as nat, last as nat),
            seen.matches(out@),
            out@.len() <= max,
            out@ == dedup_append(old(out)@, sp.take(x - first)),
        decreases last - x,
    {
        let ip = if v6 {
            IpAddr::V6(x)
        } else {
            IpAddr::V4(x as u32)
        };
        assert(ip == sp[x - first]);
        proof {
            lemma_dedup_prefix_step(old(out)@, sp, x - first);
        }
        match push_unique(out, seen, ip, max) {
            Ok(()) => {},
            Err(e) => {
                proof {
                    lemma_dedup_prefix_len(old(out)@, sp, x - first + 1);
                }
                return Err(e);
            },
        }
        if x == last {
            assert(sp.take(x - first + 1) =~= sp);
            return Ok(());
        }
        x = x + 1;
    }
}

/// The addresses a hostname's DNS answer yields: deduplicated in first-seen
/// order; an error when the lookup failed or returned nothing.
pub fn host_addresses(host: &str, answer: &HostAnswer) -> (r: Result<Vec<IpAddr>>)
    ensures
        match host_outcome(host@, *answer) {
            Ok(d) => r matches Ok(v) && v@ == d,
            Err(f) => r matches Err(e) && failure_matches(e, f),
        },
{
    match answer {
        HostAnswer::Failed(reason) => Err(Error::DnsResolution { host: String::from_str(host), reason: reason.clone() }),
        HostAnswer::Addrs(addrs) => {
            let mut out: Vec<IpAddr> = Vec::new();
            let mut seen = Seen::new();
            let n = addrs.len();
            let r = push_span_list(&mut out, &mut seen, addrs, usize::MAX);
            match r {
                Ok(()) => {},
                Err(_) => {
                    proof {
                        assert(dedup_append(Seq::empty(), addrs@).len() <= addrs@.len()) by {
                            lemma_dedup_len_bound(Seq::empty(), addrs@);
                        }
                        assert(false);
                    }
                    return Err(Error::DnsResolution { host: String::from_str(host), reason: String::from_str("no addresses returned") });
                },
            }
            if out.len() == 0 {
                return Err(Error::DnsResolution { host: String::from_str(host), reason: String::from_str("no addresses returned") });
            }
            Ok(out)
        },
    }
}

/// Deduplicating never adds more than the new elements.
proof fn lemma_dedup_len_bound(o: Seq<IpAddr>, l: Seq<IpAddr>)
    ensures
        dedup_append(o, l).len() <= o.len() + l.len(),
    decreases l.len(),
{
    if l.len() > 0 {
        lemma_dedup_len_bound(o, l.drop_last());
    }
}

/// Append the members of `list` to `out`, skipping those already present,
/// within the cap `max`.
fn push_span_list(out: &mut Vec<IpAddr>, seen: &mut Seen, list: &Vec<IpAddr>, max: usize) -> (r: Result<()>)
    requires
        old(seen).matches(old(out)@),
        old(out)@.len() <= max,
    ensures
        match r {
            Ok(()) => final(out)@ == dedup_append(old(out)@, list@) && final(out)@.len() <= max && final(seen).matches(final(out)@),
            Err(e) => dedup_append(old(out)@, list@).len() > max && failure_matches(e, ExpandFailure::TooMany { count: over_cap_count(max as nat), cap: max as nat }),
        },
{
    let mut i: usize = 0;
    assert(list@.take(0) =~= Seq::<IpAddr>::empty());
    while i < list.len()
        invariant
            i <= list@.len(),
            seen.matches(out@),
            out@.len() <= max,
            out@ == dedup_append(old(out)@, list@.take(i as int)),
        decreases list@.len() - i,
    {
        proof {
            lemma_dedup_prefix_step(old(out)@, list@, i as int);
        }
        match push_unique(out, seen, list[i], max) {
            Ok(()) => {},
            Err(e) => {
                proof {
                    lemma_dedup_prefix_len(old(out)@, list@, i + 1);
                }
                return Err(e);
            },
        }
        i = i + 1;
    }
    assert(list@.take(list@.len() as int) =~= list@);
    Ok(())
}

/// The reported count of an estimate over the cap (capped at `u32::MAX`).
pub open spec fn estimate_count(est: nat) -> nat {
    if est > u32::MAX { u32::MAX as nat } else { est }
}

/// An expansion in progress: the addresses collected so far, in first-seen
/// order, each once, never more than the cap.
pub struct Expansion {
    out: Vec<IpAddr>,
    seen: Seen,
    max: usize,
}

impl View for Expansion {
    type V = Seq<IpAddr>;

    closed spec fn view(&self) -> Seq<IpAddr> {
        self.out@
    }
}

impl Expansion {
    #[verifier::type_invariant]
    closed spec fn collected(self) -> bool {
        self.seen.matches(self.out@) && self.out@.len() <= self.max
    }

    /// The cap the expansion enforces.
    pub closed spec fn cap(self) -> nat {
        self.max as nat
    }

    /// Start expanding `specs` under the cap `max`. The estimate of all specs
    /// is checked first, so an oversized expansion fails before anything is
    /// materialized (or any hostname resolved).
    pub fn start(specs: &[TargetSpec], max: usize) -> (r: Result<Expansion>)
        ensures
            match r {
                Ok(e) => estimate_sum(models(specs@)) <= max && e@ == Seq::<IpAddr>::empty() && e.cap() == max,
                Err(err) => estimate_sum(models(specs@)) > max && failure_matches(
                    err,
                    ExpandFailure::TooMany { count: estimate_count(estimate_sum(models(specs@))), cap: max as nat },
                ),
            },
    {
        let est = estimated_total(specs);
        if est > max as u128 {
            let count: usize = if est > u32::MAX as u128 { u32::MAX as usize } else { est as usize };
            return Err(Error::TooManyTargets { count, cap: max });
        }
        Ok(Expansion { out: Vec::new(), seen: Seen::new(), max })
    }

    /// Add one target's addresses, skipping those already collected; `answer`
    /// is the DNS answer of a hostname target (not read otherwise). Fails when
    /// a hostname's lookup failed or the cap would be exceeded.
    pub fn add(self, spec: &TargetSpec, answer: &HostAnswer) -> (r: Result<Expansion>)
        ensures
            match expand_step(self@, spec.model(), *answer, self.cap()) {
                Ok(next) => r matches Ok(e) && e@ == next && e.cap() == self.cap(),
                Err(f) => r matches Err(e) && failure_matches(e, f),
            },
    {
        proof {
            use_type_invariant(&self);
        }
        let Expansion { mut out, mut seen, max } = self;
        let ghost before = out@;
        let step = match spec {
            TargetSpec::Ip(ip) => {
                proof {
                    assert(seq![*ip].drop_last() =~= Seq::<IpAddr>::empty());
                    assert(dedup_append(before, Seq::<IpAddr>::empty()) == before);
                    assert(dedup_append(before, seq![*ip]) == add_unique(before, *ip));
                }
                push_unique(&mut out, &mut seen, *ip, max)
            },
            TargetSpec::Cidr(net) => {
                let v6 = net.is_v6();
                let p = net.prefix_len();
                let nw = net_network(net);
                let bc = net_broadcast(net);
                proof { lemma_net_bounds(net@); }
                if !v6 && p < 31 {
                    push_span(&mut out, &mut seen, false, nw + 1, bc - 1, max)
                } else {
                    push_span(&mut out, &mut seen, v6, nw, bc, max)
                }
            },
            TargetSpec::Range { start, end } => {
                match (*start, *end) {
                    (IpAddr::V4(a), IpAddr::V4(b)) => push_span(&mut out, &mut seen, false, a as u128, b as u128, max),
                    (IpAddr::V6(a), IpAddr::V6(b)) => push_span(&mut out, &mut seen, true, a, b, max),
                    _ => {
                        assert(dedup_append(before, Seq::<IpAddr>::empty()) == before);
                        Ok(())
                    },
                }
            },
            TargetSpec::Host(h) => {
                match host_addresses(h.as_str(), answer) {
                    Err(e) => {
                        return Err(e);
                    },
                    Ok(addrs) => push_span_list(&mut out, &mut seen, &addrs, max),
                }
            },
        };
        match step {
            Err(e) => Err(e),
            Ok(()) => Ok(Expansion { out, seen, max }),
        }
    }

    /// The addresses collected.
    pub fn into_addrs(self) -> (r: Vec<IpAddr>)
        ensures
            r@ == self@,
    {
        self.out
    }
}

/// Expand a set of specs into concrete IP addresses, enforcing the `max`
/// safety cap. `answers[i]` is what the DNS lookup of `specs[i]` returned when
/// that spec is a hostname (it is not read otherwise). Duplicate addresses are
/// removed while preserving first-seen order.
///
/// The estimate of all specs is checked first, so an oversized expansion
/// fails before anything is materialized.
pub fn expand_targets(specs: &[TargetSpec], answers: &[HostAnswer], max: usize) -> (r: Result<Vec<IpAddr>>)
    requires
        answers@.len() == specs@.len(),
    ensures
        match expand_outcome(models(specs@), answers@, max as nat) {
            Ok(v) => r matches Ok(out) && out@ == v,
            Err(f) => r matches Err(e) && failure_matches(e, f),
        },
{
    let ghost ms = models(specs@);
    let mut exp = match Expansion::start(specs, max) {
        Ok(e) => e,
        Err(e) => {
            return Err(e);
        },
    };
    let mut i: usize = 0;
    assert(ms.skip(0) =~= ms);
    assert(answers@.skip(0) =~= answers@);
    while i < specs.len()
        invariant
            i <= specs@.len() == answers@.len(),
            ms == models(specs@),
            exp.cap() == max,
            expand_outcome(ms, answers@, max as nat) == expand_from(exp@, ms.skip(i as int), answers@.skip(i as int), max as nat),
        decreases specs@.len() - i,
    {
        proof {
            assert(ms.skip(i as int).drop_first() =~= ms.skip(i + 1));
            assert(answers@.skip(i as int).drop_first() =~= answers@.skip(i + 1));
            assert(ms.skip(i as int)[0] == specs@[i as int].model());
            assert(answers@.skip(i as int)[0] == answers@[i as int]);
        }
        exp = match exp.add(&specs[i], &answers[i]) {
            Ok(e) => e,
            Err(e) => {
                return Err(e);
            },
        };
        i = i + 1;
    }
    Ok(exp.into_addrs())
}

/// `dedup_append` keeps a duplicate-free list duplicate-free and only adds
/// what it is given.
proof fn lemma_dedup_append_distinct(o: Seq<IpAddr>, l: Seq<IpAddr>)
    requires
        o.no_duplicates(),
    ensures
        dedup_append(o, l).no_duplicates(),
        o.len() <= dedup_append(o, l).len(),
        forall|x: IpAddr| dedup_append(o, l).contains(x) <==> (o.contains(x) || l.contains(x)),
    decreases l.len(),
{
    if l.len() > 0 {
        lemma_dedup_append_distinct(o, l.drop_last());
        let d = dedup_append(o, l.drop_last());
        assert forall|x: IpAddr| l.contains(x) <==> (l.drop_last().contains(x) || x == l.last()) by {
            if l.contains(x) {
                let k = choose|k: int| 0 <= k < l.len() && l[k] == x;
                if k < l.len() - 1 {
                    assert(l.drop_last()[k] == x);
                }
            }
            if l.drop_last().contains(x) {
                let k = choose|k: int| 0 <= k < l.drop_last().len() && l.drop_last()[k] == x;
                assert(l[k] == x);
            }
        }
        if !d.contains(l.last()) {
            assert forall|i: int, j: int| 0 <= i < j < d.push(l.last()).len() implies d.push(l.last())[i] != d.push(l.last())[j] by {
                if j == d.len() {
                    assert(d[i] != l.last());
                }
            }
            assert forall|x: IpAddr| d.push(l.last()).contains(x) <==> (d.contains(x) || x == l.last()) by {
                if d.push(l.last()).contains(x) {
                    let k = choose|k: int| 0 <= k < d.push(l.last()).len() && d.push(l.last())[k] == x;
                    if k < d.len() {
                        assert(d[k] == x);
                    }
                }
                if d.contains(x) {
                    let k = choose|k: int| 0 <= k < d.len() && d[k] == x;
                    assert(d.push(l.last())[k] == x);
                }
                if x == l.last() {
                    assert(d.push(l.last())[d.len() as int] == x);
                }
            }
        }
    }
}

/// Expanding more targets keeps the collected list duplicate-free and within the cap.
proof fn lemma_expand_from_distinct(out: Seq<IpAddr>, specs: Seq<TargetModel>, answers: Seq<HostAnswer>, max: nat)
    requires
        out.no_duplicates(),
        out.len() <= max,
    ensures
        expand_from(out, specs, answers, max) matches Ok(v) ==> v.no_duplicates() && v.len() <= max,
    decreases specs.len(),
{
    if specs.len() > 0 {
        let resolved = match specs[0] {
            TargetModel::Host(h) => host_outcome(h, answers[0]),
            _ => Ok(expansion(specs[0], Seq::empty())),
        };
        match resolved {
            Ok(addrs) => {
                lemma_dedup_append_distinct(out, addrs);
                let next = dedup_append(out, addrs);
                if next.len() <= max {
                    lemma_expand_from_distinct(next, specs.drop_first(), answers.drop_first(), max);
                }
            },
            Err(_) => {},
        }
    }
}

/// Law: a successful expansion lists every address at most once and never
/// more than `max` addresses.
pub proof fn lemma_expansion_distinct_and_capped(specs: Seq<TargetModel>, answers: Seq<HostAnswer>, max: nat)
    ensures
        expand_outcome(specs, answers, max) matches Ok(v) ==> v.no_duplicates() && v.len() <= max,
{
    lemma_expand_from_distinct(Seq::empty(), specs, answers, max);
}

/// Law: a target's host estimate bounds its expansion — a parsed network or
/// range never expands to more addresses than `estimated_hosts` reports (for
/// IPv4 it reports exactly as many). The IPv6 estimate is capped at `2^127`
/// and `u128::MAX`, so the whole IPv6 space (`::/0`, or the range from `::`
/// to the last address) is left out.
pub proof fn lemma_estimate_bounds_expansion(m: TargetModel, resolved: Seq<IpAddr>)
    requires
        m matches TargetModel::Cidr(n) ==> net_wf(n) && !(n.v6 && n.prefix_len == 0),
        m matches TargetModel::Range { start, end } ==> !(start == IpAddr::V6(0) && end == IpAddr::V6(u128::MAX)),
    ensures
        spec_estimated_hosts(m) matches Some(k) ==> expansion(m, resolved).len() <= k,
        !(m matches TargetModel::Cidr(n) && n.v6) && !(m matches TargetModel::Range { start, end } && start is V6)
            ==> (spec_estimated_hosts(m) matches Some(k) ==> expansion(m, resolved).len() == k),
{
    match m {
        TargetModel::Cidr(n) => {
            lemma_net_bounds(n);
            let hb = (addr_bits(n.v6) - n.prefix_len) as nat;
            assert(block(n) == pow2(hb));
            if n.v6 {
                assert(hb <= 127);
            } else if n.prefix_len == 32 {
                assert(hb == 0);
                vstd::arithmetic::power2::lemma2_to64();
            } else if n.prefix_len == 31 {
                assert(hb == 1);
                vstd::arithmetic::power2::lemma2_to64();
            }
        },
        _ => {},
    }
}

} // verus!
