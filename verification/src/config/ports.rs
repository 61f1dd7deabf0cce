//! Port-specification parsing.
//!
//! Supports comma-separated lists and inclusive ranges (`22,80,443,8000-8100`),
//! `--top-ports N` (a built-in frequency-ordered list), and `--all-ports`
//! (1-65535). All paths return a strictly ascending list (sorted, without
//! duplicates) with port 0 rejected.

use vstd::prelude::*;

use crate::error::{Error, Result};
use crate::text::{
    is_digit, is_ws, lacks, lemma_dec_chars, lemma_find_char_absent, lemma_split_absent, lemma_split_at,
    lemma_split_join, lemma_split_snoc, trim_end, trim_start,
    chars_of, dec_chars, find_char, find_in, parse_unsigned, parse_unsigned_range, push_decimal,
    push_str, split, string_of_range, trim, trim_bounds,
};

verus! {

/// The most common TCP ports, in rough open-frequency order (nmap-style).
///
/// `--top-ports N` takes the first `N` of these.
pub const TOP_PORTS: [u16; 100] = [
    80, 23, 443, 21, 22, 25, 3389, 110, 445, 139, 143, 53, 135, 3306, 8080, 1723, 111, 995, 993,
    5900, 1025, 587, 8888, 199, 1720, 465, 548, 113, 81, 6001, 10000, 514, 5060, 179, 1026, 2000,
    8443, 8000, 32768, 554, 26, 1433, 49152, 2001, 515, 8008, 49154, 1027, 5666, 646, 5000, 5631,
    631, 49153, 8081, 2049, 88, 79, 5800, 106, 2121, 1110, 49155, 6000, 513, 990, 5357, 427, 49156,
    543, 544, 5101, 144, 7, 389, 8009, 3128, 444, 9999, 5009, 7070, 5190, 3000, 5432, 1900, 3986,
    13, 1029, 9, 5051, 6646, 49157, 1028, 873, 1755, 2717, 4899, 9100, 119, 37,
];

/// `v` lists exactly the members of `s`, in strictly ascending order.
pub open spec fn ascending_listing(v: Seq<u16>, s: Set<int>) -> bool {
    &&& forall|i: int, j: int| 0 <= i < j < v.len() ==> v[i] < v[j]
    &&& forall|x: int| s.contains(x) <==> exists|i: int| 0 <= i < v.len() && v[i] == x
}

/// Why a single port token was rejected.
pub open spec fn not_a_number_reason(s: Seq<char>) -> Seq<char> {
    "'"@ + s + "' is not a number"@
}

pub open spec fn out_of_range_reason(p: nat) -> Seq<char> {
    "port "@ + dec_chars(p) + " out of range (1-65535)"@
}

pub open spec fn reversed_reason(lo: nat, hi: nat) -> Seq<char> {
    "range "@ + dec_chars(lo) + "-"@ + dec_chars(hi) + " is reversed"@
}

/// One port number: a `u32` in decimal that lies in 1..=65535.
pub open spec fn port_text(s: Seq<char>) -> std::result::Result<nat, Seq<char>> {
    match parse_unsigned(s, u32::MAX as nat) {
        None => Err(not_a_number_reason(s)),
        Some(p) => if p == 0 || p > 65535 {
            Err(out_of_range_reason(p))
        } else {
            Ok(p)
        },
    }
}

/// The ports one comma-separated item selects (the item already trimmed).
pub open spec fn item_ports(p: Seq<char>) -> std::result::Result<Set<int>, Seq<char>> {
    if p.len() == 0 {
        Ok(Set::empty())
    } else {
        match find_char(p, '-') {
            Some(i) => match port_text(trim(p.take(i))) {
                Err(e) => Err(e),
                Ok(lo) => match port_text(trim(p.skip(i + 1))) {
                    Err(e) => Err(e),
                    Ok(hi) => if lo > hi {
                        Err(reversed_reason(lo, hi))
                    } else {
                        Ok(Set::new(|x: int| lo <= x <= hi))
                    },
                },
            },
            None => match port_text(p) {
                Err(e) => Err(e),
                Ok(n) => Ok(set![n as int]),
            },
        }
    }
}

/// Union of what `rest` selects with `acc`, keeping an error of `rest`.
pub open spec fn with_selected(
    acc: Set<int>,
    rest: std::result::Result<Set<int>, Seq<char>>,
) -> std::result::Result<Set<int>, Seq<char>> {
    match rest {
        Ok(s) => Ok(acc + s),
        Err(e) => Err(e),
    }
}

/// The ports that a list of items selects, or the first item's error.
pub open spec fn items_ports(parts: Seq<Seq<char>>) -> std::result::Result<Set<int>, Seq<char>>
    decreases parts.len(),
{
    if parts.len() == 0 {
        Ok(Set::empty())
    } else {
        match item_ports(trim(parts[0])) {
            Err(e) => Err(e),
            Ok(s) => with_selected(s, items_ports(parts.drop_first())),
        }
    }
}

/// The ports a `--ports` specification selects, or the reason it is rejected.
pub open spec fn spec_ports(spec: Seq<char>) -> std::result::Result<Set<int>, Seq<char>> {
    items_ports(split(spec, ','))
}

/// The first `k` entries of [`TOP_PORTS`], as a set.
pub open spec fn top_set(k: int) -> Set<int> {
    Set::new(|x: int| exists|i: int| 0 <= i < k && TOP_PORTS@[i] == x)
}

/// A vector of `n` `false` flags.
fn flags(n: usize) -> (r: Vec<bool>)
    ensures
        r@.len() == n,
        forall|i: int| 0 <= i < n ==> !#[trigger] r@[i],
{
    let mut v: Vec<bool> = Vec::new();
    let mut i: usize = 0;
    while i < n
        invariant
            i <= n,
            v@.len() == i,
            forall|k: int| 0 <= k < i ==> !#[trigger] v@[k],
        decreases n - i,
    {
        v.push(false);
        i = i + 1;
    }
    v
}

/// The ascending list of the ports marked in `marks` (index = port).
fn collect_marked(marks: &Vec<bool>) -> (r: Vec<u16>)
    requires
        marks@.len() == 65536,
    ensures
        forall|i: int, j: int| 0 <= i < j < r@.len() ==> r@[i] < r@[j],
        forall|x: int|
            (0 <= x < 65536 && #[trigger] marks@[x]) <==> exists|i: int|
                0 <= i < r@.len() && r@[i] == x,
{
    let mut out: Vec<u16> = Vec::new();
    let mut p: u32 = 0;
    while p < 65536
        invariant
            0 <= p <= 65536,
            marks@.len() == 65536,
            forall|i: int, j: int| 0 <= i < j < out@.len() ==> out@[i] < out@[j],
            forall|i: int| 0 <= i < out@.len() ==> out@[i] < p,
            forall|x: int|
                (0 <= x < p && #[trigger] marks@[x]) <==> exists|i: int|
                    0 <= i < out@.len() && out@[i] == x,
        decreases 65536 - p,
    {
        let ghost before = out@;
        if marks[p as usize] {
            out.push(p as u16);
        }
        proof {
            assert forall|x: int| (0 <= x < p + 1 && #[trigger] marks@[x]) implies exists|i: int|
                0 <= i < out@.len() && out@[i] == x by {
                if x < p {
                    let i = choose|i: int| 0 <= i < before.len() && before[i] == x;
                    assert(out@[i] == before[i]);
                } else {
                    assert(out@[out@.len() - 1] == x);
                }
            }
            assert forall|x: int| (exists|i: int| 0 <= i < out@.len() && out@[i] == x) implies (0
                <= x < p + 1 && #[trigger] marks@[x]) by {
                let i = choose|i: int| 0 <= i < out@.len() && out@[i] == x;
                if i < before.len() {
                    assert(before[i] == x);
                }
            }
        }
        p = p + 1;
    }
    out
}

/// A `PortParse` error for specification `spec`.
fn port_error(spec: &str, reason: String) -> (e: Error)
    ensures
        e matches Error::PortParse { spec: sp, reason: rs } && sp@ == spec@ && rs@ == reason@,
{
    Error::PortParse { spec: String::from_str(spec), reason }
}

/// Parse one port token `v[lo..hi]` of the specification `spec`.
fn parse_port(v: &Vec<char>, lo: usize, hi: usize, spec: &str) -> (r: Result<u16>)
    requires
        lo <= hi <= v@.len(),
    ensures
        match r {
            Ok(p) => port_text(v@.subrange(lo as int, hi as int)) == Ok::<nat, Seq<char>>(p as nat),
            Err(Error::PortParse { spec: sp, reason }) => sp@ == spec@ && port_text(
                v@.subrange(lo as int, hi as int),
            ) == Err::<nat, Seq<char>>(reason@),
            Err(_) => false,
        },
{
    match parse_unsigned_range(v, lo, hi, u32::MAX as u64) {
        None => {
            let mut reason = String::from_str("'");
            let text = string_of_range(v, lo, hi);
            push_str(&mut reason, text.as_str());
            push_str(&mut reason, "' is not a number");
            Err(port_error(spec, reason))
        },
        Some(p) => {
            if p == 0 || p > 65535 {
                let mut reason = String::from_str("port ");
                push_decimal(&mut reason, p as u128);
                push_str(&mut reason, " out of range (1-65535)");
                Err(port_error(spec, reason))
            } else {
                Ok(p as u16)
            }
        },
    }
}

/// `items_ports` of a list that starts with `a`.
proof fn lemma_items_cons(a: Seq<char>, rest: Seq<Seq<char>>)
    ensures
        items_ports(seq![a] + rest) == (match item_ports(trim(a)) {
            Err(e) => Err(e),
            Ok(s) => with_selected(s, items_ports(rest)),
        }),
{
    assert((seq![a] + rest).drop_first() =~= rest);
    assert((seq![a] + rest)[0] == a);
}

/// Select the ports of the trimmed item `v[lo..hi]` into `marks`.
fn mark_item(v: &Vec<char>, lo: usize, hi: usize, spec: &str, marks: &mut Vec<bool>) -> (r: Result<()>)
    requires
        lo <= hi <= v@.len(),
        old(marks)@.len() == 65536,
        !old(marks)@[0],
    ensures
        final(marks)@.len() == 65536,
        !final(marks)@[0],
        match r {
            Ok(()) => item_ports(v@.subrange(lo as int, hi as int)) matches Ok(s) && forall|x: int|
                0 <= x < 65536 ==> (#[trigger] final(marks)@[x] <==> (old(marks)@[x] || s.contains(x))),
            Err(Error::PortParse { spec: sp, reason }) => sp@ == spec@ && item_ports(
                v@.subrange(lo as int, hi as int),
            ) == Err::<Set<int>, Seq<char>>(reason@),
            Err(_) => false,
        },
{
    let ghost p = v@.subrange(lo as int, hi as int);
    if lo == hi {
        return Ok(());
    }
    match find_in(v, lo, hi, '-') {
        Some(j) => {
            assert(p.take(j - lo) =~= v@.subrange(lo as int, j as int));
            assert(p.skip(j - lo + 1) =~= v@.subrange(j + 1, hi as int));
            let (a, b) = trim_bounds(v, lo, j);
            let first = parse_port(v, a, b, spec)?;
            let (c, d) = trim_bounds(v, j + 1, hi);
            let last = parse_port(v, c, d, spec)?;
            if first > last {
                let mut reason = String::from_str("range ");
                push_decimal(&mut reason, first as u128);
                push_str(&mut reason, "-");
                push_decimal(&mut reason, last as u128);
                push_str(&mut reason, " is reversed");
                return Err(port_error(spec, reason));
            }
            let mut q: u32 = first as u32;
            while q <= last as u32
                invariant
                    first <= q <= last as u32 + 1,
                    1 <= first,
                    marks@.len() == 65536,
                    !marks@[0],
                    forall|x: int|
                        0 <= x < 65536 ==> (#[trigger] marks@[x] <==> (old(marks)@[x] || (first
                            <= x < q))),
                decreases last as u32 + 1 - q,
            {
                marks.set(q as usize, true);
                q = q + 1;
            }
            Ok(())
        },
        None => {
            let n = parse_port(v, lo, hi, spec)?;
            marks.set(n as usize, true);
            Ok(())
        },
    }
}

/// Parse a `--ports` specification string into a strictly ascending list.
pub fn parse_port_spec(spec: &str) -> (r: Result<Vec<u16>>)
    ensures
        match r {
            Ok(v) => spec_ports(spec@) matches Ok(s) && v@.len() > 0 && ascending_listing(v@, s),
            Err(Error::PortParse { spec: sp, reason }) => sp@ == spec@ && match spec_ports(spec@) {
                Err(e) => reason@ == e,
                Ok(s) => s.is_empty() && reason@ == "no ports selected"@,
            },
            Err(_) => false,
        },
{
    let v = chars_of(spec);
    let n = v.len();
    let mut marks = flags(65536);
    let ghost mut acc: Set<int> = Set::empty();
    let mut start: usize = 0;
    assert(v@.subrange(0, n as int) =~= v@);
    proof {
        match items_ports(split(v@, ',')) {
            Ok(t) => {
                assert(Set::<int>::empty() + t =~= t);
            },
            Err(_) => {},
        }
    }
    loop
        invariant
            start <= n == v@.len(),
            v@ == spec@,
            marks@.len() == 65536,
            !marks@[0],
            forall|x: int| 0 <= x < 65536 ==> (#[trigger] marks@[x] <==> acc.contains(x)),
            forall|x: int| acc.contains(x) ==> 0 < x < 65536,
            spec_ports(spec@) == with_selected(acc, items_ports(split(v@.subrange(start as int, n as int), ','))),
        decreases n - start,
    {
        let found = find_in(&v, start, n, ',');
        let end = match found {
            Some(j) => j,
            None => n,
        };
        proof {
            match found {
                Some(j) => {
                    lemma_split_at(v@, start as int, j as int, n as int, ',');
                    lemma_items_cons(v@.subrange(start as int, j as int), split(v@.subrange(j + 1, n as int), ','));
                },
                None => {
                    assert(split(v@.subrange(start as int, n as int), ',') == seq![v@.subrange(start as int, n as int)]);
                    lemma_items_cons(v@.subrange(start as int, n as int), Seq::empty());
                    assert(seq![v@.subrange(start as int, n as int)] + Seq::<Seq<char>>::empty() =~= seq![v@.subrange(start as int, n as int)]);
                },
            }
        }
        let (a, b) = trim_bounds(&v, start, end);
        let ghost before = marks@;
        let marked = mark_item(&v, a, b, spec, &mut marks);
        match marked {
            Err(e) => {
                return Err(e);
            },
            Ok(()) => {},
        }
        proof {
            let s = item_ports(v@.subrange(a as int, b as int))->Ok_0;
            assert forall|x: int| s.contains(x) implies 0 < x < 65536 by {
                let t = v@.subrange(a as int, b as int);
                if t.len() > 0 {
                    match find_char(t, '-') {
                        Some(i) => {},
                        None => {},
                    }
                }
            }
            let rest = match found {
                Some(j) => items_ports(split(v@.subrange(j + 1, n as int), ',')),
                None => items_ports(Seq::<Seq<char>>::empty()),
            };
            assert(spec_ports(spec@) == with_selected(acc, with_selected(s, rest)));
            match rest {
                Ok(t) => {
                    assert(acc + (s + t) =~= (acc + s) + t);
                },
                Err(_) => {},
            }
            acc = acc + s;
            assert(spec_ports(spec@) == with_selected(acc, rest));
        }
        match found {
            Some(j) => {
                start = j + 1;
            },
            None => {
                proof {
                    assert(items_ports(Seq::<Seq<char>>::empty()) == Ok::<Set<int>, Seq<char>>(Set::empty()));
                }
                let out = collect_marked(&marks);
                if out.len() == 0 {
                    proof {
                        assert forall|x: int| !acc.contains(x) by {
                            if acc.contains(x) {
                                assert(marks@[x]);
                            }
                        }
                        assert(acc + Set::<int>::empty() =~= Set::<int>::empty());
                    }
                    return Err(port_error(spec, String::from_str("no ports selected")));
                }
                proof {
                    assert(acc + Set::<int>::empty() =~= acc);
                    assert forall|x: int| acc.contains(x) <==> exists|i: int|
                        0 <= i < out@.len() && out@[i] == x by {
                        if acc.contains(x) {
                            assert(marks@[x]);
                        }
                        if exists|i: int| 0 <= i < out@.len() && out@[i] == x {
                            let i = choose|i: int| 0 <= i < out@.len() && out@[i] == x;
                            assert(0 <= out@[i] < 65536);
                            assert(marks@[x]);
                        }
                    }
                }
                return Ok(out);
            },
        }
    }
}

/// The first `n` ports of [`TOP_PORTS`] (all of them when `n` exceeds the
/// list), in ascending order.
pub fn top_ports(n: usize) -> (r: Result<Vec<u16>>)
    ensures
        match r {
            Ok(v) => n > 0 && ascending_listing(v@, top_set(if n < 100 { n as int } else { 100 }))
                && v@.len() == (if n < 100 { n as int } else { 100 }),
            Err(Error::PortParse { spec, reason }) => n == 0 && spec@ == "--top-ports "@
                + dec_chars(0) && reason@ == "must be at least 1"@,
            Err(_) => false,
        },
{
    if n == 0 {
        let mut spec = String::from_str("--top-ports ");
        push_decimal(&mut spec, n as u128);
        return Err(Error::PortParse { spec, reason: String::from_str("must be at least 1") });
    }
    let take: usize = if n < 100 { n } else { 100 };
    let mut marks = flags(65536);
    let mut i: usize = 0;
    while i < take
        invariant
            i <= take <= 100,
            marks@.len() == 65536,
            forall|x: int| 0 <= x < 65536 ==> (#[trigger] marks@[x] <==> top_set(i as int).contains(x)),
        decreases take - i,
    {
        let port = TOP_PORTS[i];
        marks.set(port as usize, true);
        i = i + 1;
        proof {
            assert forall|x: int| 0 <= x < 65536 implies (#[trigger] marks@[x] <==> top_set(i as int).contains(x)) by {
                if x == port {
                    assert(TOP_PORTS@[i - 1] == x);
                }
                if top_set(i as int).contains(x) {
                    let k = choose|k: int| 0 <= k < i && TOP_PORTS@[k] == x;
                    if k < i - 1 {
                        assert(top_set(i - 1).contains(x));
                    }
                }
            }
        }
    }
    let out = collect_marked(&marks);
    proof {
        assert forall|x: int| top_set(take as int).contains(x) <==> exists|k: int|
            0 <= k < out@.len() && out@[k] == x by {
            if top_set(take as int).contains(x) {
                let k = choose|k: int| 0 <= k < take && TOP_PORTS@[k] == x;
                assert(0 <= TOP_PORTS@[k] < 65536);
                assert(marks@[x]);
            }
            if exists|k: int| 0 <= k < out@.len() && out@[k] == x {
                let k = choose|k: int| 0 <= k < out@.len() && out@[k] == x;
                assert(0 <= out@[k] < 65536);
                assert(marks@[x]);
            }
        }
        lemma_top_listing_len(out@, take as int);
    }
    Ok(out)
}

/// Every TCP port, 1-65535, in ascending order.
pub fn all_ports() -> (r: Vec<u16>)
    ensures
        r@ == Seq::new(65535, |i: int| (i + 1) as u16),
{
    let mut out: Vec<u16> = Vec::new();
    let mut p: u32 = 1;
    while p <= 65535
        invariant
            1 <= p <= 65536,
            out@ == Seq::new((p - 1) as nat, |i: int| (i + 1) as u16),
        decreases 65536 - p,
    {
        out.push(p as u16);
        p = p + 1;
        assert(out@ =~= Seq::new((p - 1) as nat, |i: int| (i + 1) as u16));
    }
    out
}

/// Every TCP port, 1-65535.
pub open spec fn every_port() -> Set<int> {
    Set::new(|x: int| 1 <= x <= 65535)
}

/// The listing of every port is ascending and holds exactly the ports 1-65535.
pub proof fn lemma_all_ports_listing(v: Seq<u16>)
    requires
        v == Seq::new(65535, |i: int| (i + 1) as u16),
    ensures
        ascending_listing(v, every_port()),
{
    assert forall|x: int| #[trigger] every_port().contains(x) <==> exists|i: int|
        0 <= i < v.len() && v[i] == x by {
        if 1 <= x <= 65535 {
            assert(v[x - 1] == x);
        }
    }
}

proof fn lemma_item_ports_valid(p: Seq<char>)
    ensures
        item_ports(p) matches Ok(s) ==> forall|x: int| s.contains(x) ==> 1 <= x <= 65535,
{
}

proof fn lemma_items_ports_valid(parts: Seq<Seq<char>>)
    ensures
        items_ports(parts) matches Ok(s) ==> forall|x: int| s.contains(x) ==> 1 <= x <= 65535,
    decreases parts.len(),
{
    if parts.len() > 0 {
        lemma_item_ports_valid(trim(parts[0]));
        lemma_items_ports_valid(parts.drop_first());
    }
}

/// Law: no selection lists port 0 or a port past 65535 — every port that a
/// `--ports` specification, the first `k` top ports or the full range selects
/// lies in 1..=65535.
pub proof fn lemma_selected_ports_valid(spec: Seq<char>, k: int)
    requires
        k <= 100,
    ensures
        spec_ports(spec) matches Ok(s) ==> forall|x: int| s.contains(x) ==> 1 <= x <= 65535,
        forall|x: int| #[trigger] top_set(k).contains(x) ==> 1 <= x <= 65535,
        forall|x: int| #[trigger] every_port().contains(x) ==> 1 <= x <= 65535,
{
    lemma_items_ports_valid(split(spec, ','));
    assert(forall|i: int| 0 <= i < 100 ==> TOP_PORTS@[i] >= 1);
    assert forall|x: int| #[trigger] top_set(k).contains(x) implies 1 <= x <= 65535 by {
        let i = choose|i: int| 0 <= i < k && TOP_PORTS@[i] == x;
        assert(TOP_PORTS@[i] >= 1);
    }
}

/// Law: no port occurs twice in [`TOP_PORTS`], so `--top-ports N` selects
/// exactly `N` ports (at most the length of the list).
#[verifier::rlimit(100)]
pub proof fn lemma_top_ports_distinct()
    ensures
        TOP_PORTS@.no_duplicates(),
{
}

/// An ascending listing of the first `k` top ports has `k` entries.
proof fn lemma_top_listing_len(v: Seq<u16>, k: int)
    requires
        0 <= k <= 100,
        ascending_listing(v, top_set(k)),
    ensures
        v.len() == k,
{
    lemma_top_ports_distinct();
    let t = TOP_PORTS@.take(k);
    assert(v.no_duplicates()) by {
        assert forall|i: int, j: int| 0 <= i < v.len() && 0 <= j < v.len() && i != j implies v[i] != v[j] by {
            if i < j {
                assert(v[i] < v[j]);
            } else {
                assert(v[j] < v[i]);
            }
        }
    }
    assert(t.no_duplicates());
    assert(v.to_set() =~= t.to_set()) by {
        assert forall|x: u16| v.to_set().contains(x) <==> t.to_set().contains(x) by {
            if v.to_set().contains(x) {
                let i = choose|i: int| 0 <= i < v.len() && v[i] == x;
                assert(top_set(k).contains(x as int));
                let j = choose|j: int| 0 <= j < k && TOP_PORTS@[j] == x as int;
                assert(t[j] == x);
            }
            if t.to_set().contains(x) {
                let j = choose|j: int| 0 <= j < t.len() && t[j] == x;
                assert(TOP_PORTS@[j] == x);
                assert(top_set(k).contains(x as int));
                let i = choose|i: int| 0 <= i < v.len() && v[i] == x as int;
                assert(v[i] == x);
            }
        }
    }
    v.unique_seq_to_set();
    t.unique_seq_to_set();
}

/// Two selections joined: the first error, or the union.
pub open spec fn joined_ports(
    a: std::result::Result<Set<int>, Seq<char>>,
    b: std::result::Result<Set<int>, Seq<char>>,
) -> std::result::Result<Set<int>, Seq<char>> {
    match a {
        Err(e) => Err(e),
        Ok(s) => match b {
            Err(e) => Err(e),
            Ok(t) => Ok(s + t),
        },
    }
}

/// The items of `a` followed by those of `b` select what each selects, joined.
proof fn lemma_items_concat(a: Seq<Seq<char>>, b: Seq<Seq<char>>)
    ensures
        items_ports(a + b) == joined_ports(items_ports(a), items_ports(b)),
    decreases a.len(),
{
    if a.len() == 0 {
        assert(a + b =~= b);
        if let Ok(t) = items_ports(b) {
            assert(Set::<int>::empty() + t =~= t);
        }
    } else {
        assert((a + b)[0] == a[0]);
        assert((a + b).drop_first() =~= a.drop_first() + b);
        lemma_items_concat(a.drop_first(), b);
        if let Ok(s) = item_ports(trim(a[0])) {
            if let Ok(u) = items_ports(a.drop_first()) {
                if let Ok(t) = items_ports(b) {
                    assert(s + (u + t) =~= (s + u) + t);
                }
            }
        }
    }
}

/// Law: the order and the repetition of the comma-separated parts of a port
/// specification do not change what it selects — `x,y` selects what `y,x`
/// selects, and `x,x` what `x` does — when each part is accepted on its own.
pub proof fn lemma_port_spec_order_free(x: Seq<char>, y: Seq<char>)
    requires
        spec_ports(x) is Ok,
        spec_ports(y) is Ok,
    ensures
        spec_ports(x + ","@ + y) == spec_ports(y + ","@ + x),
        spec_ports(x + ","@ + x) == spec_ports(x),
{
    reveal_strlit(",");
    assert(x + ","@ + y =~= x + seq![','] + y);
    assert(y + ","@ + x =~= y + seq![','] + x);
    assert(x + ","@ + x =~= x + seq![','] + x);
    lemma_split_join(x, y, ',');
    lemma_split_join(y, x, ',');
    lemma_split_join(x, x, ',');
    lemma_items_concat(split(x, ','), split(y, ','));
    lemma_items_concat(split(y, ','), split(x, ','));
    lemma_items_concat(split(x, ','), split(x, ','));
    let sx = spec_ports(x)->Ok_0;
    let sy = spec_ports(y)->Ok_0;
    assert(sx + sy =~= sy + sx);
    assert(sx + sx =~= sx);
}

/// A list of items is accepted when each item is, and then selects what some
/// item selects.
proof fn lemma_items_members(parts: Seq<Seq<char>>)
    ensures
        items_ports(parts) is Ok <==> forall|i: int|
            0 <= i < parts.len() ==> #[trigger] item_ports(trim(parts[i])) is Ok,
        items_ports(parts) is Ok ==> forall|x: int|
            items_ports(parts)->Ok_0.contains(x) <==> exists|i: int|
                0 <= i < parts.len() && #[trigger] item_ports(trim(parts[i]))->Ok_0.contains(x),
    decreases parts.len(),
{
    if parts.len() > 0 {
        let rest = parts.drop_first();
        lemma_items_members(rest);
        assert forall|i: int| 0 < i < parts.len() implies parts[i] == rest[i - 1] by {}
        if items_ports(parts) is Ok {
            let s0 = item_ports(trim(parts[0]))->Ok_0;
            assert forall|x: int| items_ports(parts)->Ok_0.contains(x) implies exists|i: int|
                0 <= i < parts.len() && #[trigger] item_ports(trim(parts[i]))->Ok_0.contains(x) by {
                if !s0.contains(x) {
                    let k = choose|k: int|
                        0 <= k < rest.len() && #[trigger] item_ports(trim(rest[k]))->Ok_0.contains(x);
                    assert(parts[k + 1] == rest[k]);
                }
            }
            assert forall|x: int| (exists|i: int|
                0 <= i < parts.len() && #[trigger] item_ports(trim(parts[i]))->Ok_0.contains(x))
                implies items_ports(parts)->Ok_0.contains(x) by {
                let i = choose|i: int|
                    0 <= i < parts.len() && #[trigger] item_ports(trim(parts[i]))->Ok_0.contains(x);
                if i > 0 {
                    assert(item_ports(trim(rest[i - 1]))->Ok_0.contains(x));
                }
            }
        }
        if forall|i: int| 0 <= i < parts.len() ==> #[trigger] item_ports(trim(parts[i])) is Ok {
            assert(item_ports(trim(parts[0])) is Ok);
            assert forall|i: int| 0 <= i < rest.len() implies #[trigger] item_ports(trim(rest[i])) is Ok by {
                assert(item_ports(trim(parts[i + 1])) is Ok);
            }
        }
        if items_ports(parts) is Ok {
            assert forall|i: int| 0 <= i < parts.len() implies #[trigger] item_ports(trim(parts[i])) is Ok by {
                if i > 0 {
                    assert(item_ports(trim(rest[i - 1])) is Ok);
                }
            }
        }
    }
}

/// Law: a port specification selects the same ports as any other whose
/// comma-separated parts are the same, in any order and repeated any number of
/// times, when it is accepted; its parts may be reordered and repeated freely.
pub proof fn lemma_port_parts_order_free(x: Seq<char>, y: Seq<char>)
    requires
        spec_ports(x) is Ok,
        forall|p: Seq<char>| split(x, ',').contains(p) <==> split(y, ',').contains(p),
    ensures
        spec_ports(y) == spec_ports(x),
{
    let a = split(x, ',');
    let b = split(y, ',');
    lemma_items_members(a);
    lemma_items_members(b);
    assert forall|j: int| 0 <= j < b.len() implies #[trigger] item_ports(trim(b[j])) is Ok by {
        assert(b.contains(b[j]));
        let i = choose|i: int| 0 <= i < a.len() && a[i] == b[j];
        assert(item_ports(trim(a[i])) is Ok);
    }
    let sa = spec_ports(x)->Ok_0;
    let sb = spec_ports(y)->Ok_0;
    assert forall|v: int| sa.contains(v) <==> sb.contains(v) by {
        if sa.contains(v) {
            let i = choose|i: int| 0 <= i < a.len() && #[trigger] item_ports(trim(a[i]))->Ok_0.contains(v);
            assert(a.contains(a[i]));
            let j = choose|j: int| 0 <= j < b.len() && b[j] == a[i];
            assert(item_ports(trim(b[j]))->Ok_0.contains(v));
        }
        if sb.contains(v) {
            let j = choose|j: int| 0 <= j < b.len() && #[trigger] item_ports(trim(b[j]))->Ok_0.contains(v);
            assert(b.contains(b[j]));
            let i = choose|i: int| 0 <= i < a.len() && a[i] == b[j];
            assert(item_ports(trim(a[i]))->Ok_0.contains(v));
        }
    }
    assert(sa =~= sb);
}

/// Law: a selection has exactly one ascending listing, so specifications that
/// select the same ports parse to the same list.
pub proof fn lemma_listing_unique(v: Seq<u16>, w: Seq<u16>, s: Set<int>)
    requires
        ascending_listing(v, s),
        ascending_listing(w, s),
    ensures
        v == w,
{
    assert forall|k: int| 0 <= k < v.len() && 0 <= k < w.len() implies v[k] == w[k] by {
        lemma_listing_prefix(v, w, s, k);
    }
    if v.len() <= w.len() {
        lemma_listing_same_len(v, w, s);
    } else {
        lemma_listing_same_len(w, v, s);
    }
    assert(v =~= w);
}

proof fn lemma_listing_prefix(v: Seq<u16>, w: Seq<u16>, s: Set<int>, k: int)
    requires
        ascending_listing(v, s),
        ascending_listing(w, s),
        0 <= k < v.len(),
        k < w.len(),
    ensures
        v[k] == w[k],
    decreases k,
{
    if k > 0 {
        lemma_listing_prefix(v, w, s, k - 1);
    }
    assert forall|j: int| 0 <= j < k implies v[j] == w[j] by {
        lemma_listing_prefix(v, w, s, j);
    }
    assert(s.contains(v[k] as int));
    assert(s.contains(w[k] as int));
    let jw = choose|j: int| 0 <= j < w.len() && w[j] == v[k];
    let jv = choose|j: int| 0 <= j < v.len() && v[j] == w[k];
    if v[k] < w[k] {
        if jw < k {
            assert(w[jw] == v[jw]);
        } else if jw > k {
        }
    } else if w[k] < v[k] {
        if jv < k {
            assert(v[jv] == w[jv]);
        }
    }
}

/// Two ascending listings of one selection are equally long.
proof fn lemma_listing_same_len(v: Seq<u16>, w: Seq<u16>, s: Set<int>)
    requires
        ascending_listing(v, s),
        ascending_listing(w, s),
        v.len() <= w.len(),
    ensures
        v.len() == w.len(),
{
    if v.len() < w.len() {
        let n = v.len() as int;
        assert(s.contains(w[n] as int));
        let j = choose|j: int| 0 <= j < v.len() && v[j] == w[n];
        lemma_listing_prefix(v, w, s, j);
        assert(w[j] < w[n]);
    }
}

/// A comma-separated list of ports, in decimal.
pub open spec fn port_list_text(v: Seq<u16>) -> Seq<char>
    decreases v.len(),
{
    if v.len() == 0 {
        Seq::empty()
    } else if v.len() == 1 {
        dec_chars(v[0] as nat)
    } else {
        port_list_text(v.drop_last()) + ","@ + dec_chars(v.last() as nat)
    }
}

/// The decimal texts of a list of ports.
pub open spec fn port_texts(v: Seq<u16>) -> Seq<Seq<char>> {
    v.map_values(|p: u16| dec_chars(p as nat))
}

/// The ports listed in `v`, as a set.
pub open spec fn port_set(v: Seq<u16>) -> Set<int> {
    Set::new(|x: int| exists|i: int| 0 <= i < v.len() && v[i] == x)
}

proof fn lemma_dec_lacks(p: nat, c: char)
    requires
        !is_digit(c),
    ensures
        lacks(dec_chars(p), c),
{
    lemma_dec_chars(p);
    assert forall|i: int| 0 <= i < dec_chars(p).len() implies dec_chars(p)[i] != c by {
        assert(is_digit(dec_chars(p)[i]));
    }
}

proof fn lemma_port_list_split(v: Seq<u16>)
    requires
        v.len() > 0,
    ensures
        split(port_list_text(v), ',') == port_texts(v),
    decreases v.len(),
{
    if v.len() == 1 {
        lemma_dec_lacks(v[0] as nat, ',');
        lemma_split_absent(dec_chars(v[0] as nat), ',');
        assert(port_texts(v) =~= seq![dec_chars(v[0] as nat)]);
    } else {
        reveal_strlit(",");
        let p = v.drop_last();
        assert(port_list_text(v) =~= port_list_text(p) + seq![','] + dec_chars(v.last() as nat));
        lemma_dec_lacks(v.last() as nat, ',');
        lemma_split_snoc(port_list_text(p), dec_chars(v.last() as nat), ',');
        lemma_port_list_split(p);
        assert(port_texts(v) =~= port_texts(p).push(dec_chars(v.last() as nat)));
    }
}

/// One port's decimal text selects that port.
proof fn lemma_item_port_back(p: u16)
    requires
        p >= 1,
    ensures
        item_ports(trim(dec_chars(p as nat))) == Ok::<Set<int>, Seq<char>>(set![p as int]),
{
    let d = dec_chars(p as nat);
    lemma_dec_chars(p as nat);
    assert(!is_ws(d[0]) && !is_ws(d.last())) by {
        assert(is_digit(d[0]));
        assert(is_digit(d[d.len() - 1]));
    }
    assert(trim_start(d) == d);
    assert(trim_end(d) == d);
    lemma_dec_lacks(p as nat, '-');
    lemma_find_char_absent(d, '-');
    assert(parse_unsigned(d, u32::MAX as nat) == Some(p as nat));
}

proof fn lemma_items_of_ports(v: Seq<u16>)
    requires
        forall|i: int| 0 <= i < v.len() ==> #[trigger] v[i] >= 1,
    ensures
        items_ports(port_texts(v)) == Ok::<Set<int>, Seq<char>>(port_set(v)),
    decreases v.len(),
{
    if v.len() == 0 {
        assert(port_texts(v) =~= Seq::<Seq<char>>::empty());
        assert(port_set(v) =~= Set::<int>::empty());
    } else {
        let t = port_texts(v);
        assert(t[0] == dec_chars(v[0] as nat));
        lemma_item_port_back(v[0]);
        assert(t.drop_first() =~= port_texts(v.drop_first()));
        lemma_items_of_ports(v.drop_first());
        assert forall|x: int| port_set(v).contains(x) <==> (set![v[0] as int] + port_set(v.drop_first())).contains(x) by {
            if port_set(v).contains(x) {
                let i = choose|i: int| 0 <= i < v.len() && v[i] == x;
                if i > 0 {
                    assert(v.drop_first()[i - 1] == x);
                }
            }
            if port_set(v.drop_first()).contains(x) {
                let i = choose|i: int| 0 <= i < v.drop_first().len() && v.drop_first()[i] == x;
                assert(v[i + 1] == x);
            }
        }
        assert(port_set(v) =~= set![v[0] as int] + port_set(v.drop_first()));
    }
}

/// Law: a port selection written back as its comma-separated decimal list
/// parses to the same selection (and so, by `lemma_listing_unique`, to the
/// same list).
pub proof fn lemma_port_list_round_trip(v: Seq<u16>, s: Set<int>)
    requires
        ascending_listing(v, s),
        v.len() > 0,
        forall|i: int| 0 <= i < v.len() ==> #[trigger] v[i] >= 1,
    ensures
        spec_ports(port_list_text(v)) == Ok::<Set<int>, Seq<char>>(s),
{
    lemma_port_list_split(v);
    lemma_items_of_ports(v);
    assert(port_set(v) =~= s);
}

} // verus!
