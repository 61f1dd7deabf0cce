//! IP addresses and networks as plain numbers, with the parsers and the
//! network arithmetic that the target and scope logic read.
//!
//! Address text is parsed here, by the textual grammar that std's
//! `IpAddr::from_str` accepts; CIDR text and the network/broadcast addresses
//! of a network are the `ipnet` crate's, each reached through one trusted
//! item below.

use vstd::arithmetic::power2::pow2;
use vstd::prelude::*;

use crate::text::{
    all_digits, digit_val, digits_value, find_in, is_digit, split, split_bounds, string_of_range,
};

verus! {

/// An IP address: IPv4 as its 32-bit number, IPv6 as its 128-bit number.
#[derive(Debug, Clone, Copy, PartialEq, Eq, Structural, Hash, PartialOrd, Ord)]
pub enum IpAddr {
    V4(u32),
    V6(u128),
}

impl IpAddr {
    /// The address as a number.
    pub open spec fn value(self) -> nat {
        match self {
            IpAddr::V4(a) => a as nat,
            IpAddr::V6(a) => a as nat,
        }
    }

    /// The IPv4 address `a.b.c.d`.
    pub fn v4(a: u8, b: u8, c: u8, d: u8) -> (r: IpAddr)
        ensures
            r == IpAddr::V4((a as nat * 16777216 + b as nat * 65536 + c as nat * 256 + d as nat) as u32),
    {
        IpAddr::V4((a as u32) * 16777216 + (b as u32) * 65536 + (c as u32) * 256 + (d as u32))
    }

    /// Whether this is an IPv6 address.
    pub fn is_v6(&self) -> (r: bool)
        ensures
            r == (*self is V6),
    {
        match self {
            IpAddr::V4(_) => false,
            IpAddr::V6(_) => true,
        }
    }
}

/// The mathematical content of a network: family, address, prefix length.
pub struct NetModel {
    pub v6: bool,
    pub addr: nat,
    pub prefix_len: nat,
}

/// Number of address bits of a family.
pub open spec fn addr_bits(v6: bool) -> nat {
    if v6 {
        128
    } else {
        32
    }
}

/// A network model that a real network can have.
pub open spec fn net_wf(m: NetModel) -> bool {
    &&& m.prefix_len <= addr_bits(m.v6)
    &&& m.addr < pow2(addr_bits(m.v6))
}

/// Number of addresses in the network block.
pub open spec fn block(m: NetModel) -> nat {
    pow2((addr_bits(m.v6) - m.prefix_len) as nat)
}

/// The network address: the address with its host bits cleared.
pub open spec fn network(m: NetModel) -> nat {
    (m.addr / block(m)) * block(m)
}

/// The broadcast address: the address with its host bits set.
pub open spec fn broadcast(m: NetModel) -> nat {
    (network(m) + block(m) - 1) as nat
}

/// Membership: same family, between network and broadcast address.
pub open spec fn net_contains(m: NetModel, ip: IpAddr) -> bool {
    &&& (ip is V6) == m.v6
    &&& network(m) <= ip.value() <= broadcast(m)
}

/// The first host of a network: IPv4 networks shorter than /31 skip the network address.
pub open spec fn first_host(m: NetModel) -> nat {
    if !m.v6 && m.prefix_len < 31 {
        network(m) + 1
    } else {
        network(m)
    }
}

/// The last host of a network: IPv4 networks shorter than /31 skip the broadcast address.
pub open spec fn last_host(m: NetModel) -> nat {
    if !m.v6 && m.prefix_len < 31 {
        (broadcast(m) - 1) as nat
    } else {
        broadcast(m)
    }
}

/// A well-formed network lies inside its address space, between its network
/// and broadcast addresses; IPv4 networks shorter than /31 span at least 4
/// addresses.
pub proof fn lemma_net_bounds(m: NetModel)
    requires
        net_wf(m),
    ensures
        block(m) >= 1,
        network(m) <= m.addr <= broadcast(m) < pow2(addr_bits(m.v6)),
        !m.v6 && m.prefix_len < 31 ==> block(m) >= 4,
        !m.v6 ==> pow2(addr_bits(m.v6)) == 0x1_0000_0000,
        m.v6 ==> pow2(addr_bits(m.v6)) == 0x1_0000_0000_0000_0000_0000_0000_0000_0000,
{
    let bits = addr_bits(m.v6);
    let k = (bits - m.prefix_len) as nat;
    let b = pow2(k);
    let q = pow2(m.prefix_len);
    vstd::arithmetic::power2::lemma_pow2_pos(k);
    vstd::arithmetic::power2::lemma_pow2_pos(m.prefix_len);
    vstd::arithmetic::power2::lemma_pow2_adds(k, m.prefix_len);
    assert(b * q == pow2(bits));
    let a = m.addr as int;
    vstd::arithmetic::div_mod::lemma_fundamental_div_mod(a, b as int);
    vstd::arithmetic::div_mod::lemma_remainder(a, b as int);
    assert(a / (b as int) >= 0) by {
        vstd::arithmetic::div_mod::lemma_div_pos_is_pos(a, b as int);
    }
    let d = a / (b as int);
    assert(d < q) by (nonlinear_arith)
        requires
            a == b * d + a % (b as int),
            0 <= a % (b as int),
            a < b * q,
            b > 0,
    ;
    assert((d + 1) * b <= q * b) by (nonlinear_arith)
        requires
            d < q,
            b > 0,
    ;
    assert(d * b <= a) by (nonlinear_arith)
        requires
            a == b * d + a % (b as int),
            0 <= a % (b as int),
    ;
    assert(a < d * b + b) by (nonlinear_arith)
        requires
            a == b * d + a % (b as int),
            a % (b as int) < b,
    ;
    vstd::arithmetic::power2::lemma2_to64();
    vstd::arithmetic::power2::lemma2_to64_rest();
    vstd::arithmetic::power2::lemma_pow2_adds(64, 64);
    assert(block(m) == b);
    assert(network(m) == d * b);
    assert(broadcast(m) == d * b + b - 1);
    assert((d + 1) * b == d * b + b) by (nonlinear_arith);
    if !m.v6 && m.prefix_len < 31 && k > 2 {
        vstd::arithmetic::power2::lemma_pow2_strictly_increases(2, k);
    }
}

/// An IP network (address plus prefix length), as `ipnet::IpNet` holds it.
#[derive(Debug, Clone, Copy, PartialEq, Eq, Structural)]
pub struct IpNet {
    v6: bool,
    addr: u128,
    prefix_len: u8,
}

impl View for IpNet {
    type V = NetModel;

    closed spec fn view(&self) -> NetModel {
        NetModel { v6: self.v6, addr: self.addr as nat, prefix_len: self.prefix_len as nat }
    }
}

impl IpNet {
    #[verifier::type_invariant]
    closed spec fn wf(self) -> bool {
        if self.v6 {
            self.prefix_len <= 128
        } else {
            self.prefix_len <= 32 && self.addr <= u32::MAX
        }
    }

    /// Whether this is an IPv6 network.
    pub fn is_v6(&self) -> (r: bool)
        ensures
            r == self@.v6,
            net_wf(self@),
    {
        self.lemma_view_wf();
        self.v6
    }

    /// Every network satisfies `net_wf`.
    fn lemma_view_wf(&self)
        ensures
            net_wf(self@),
    {
        proof {
            use_type_invariant(self);
            assert(pow2(32) == 0x1_0000_0000nat) by {
                vstd::arithmetic::power2::lemma2_to64();
            }
            assert(pow2(128) == 0x1_0000_0000_0000_0000_0000_0000_0000_0000nat) by {
                vstd::arithmetic::power2::lemma2_to64();
                vstd::arithmetic::power2::lemma_pow2_adds(64, 64);
            }
        }
    }

    /// The prefix length.
    pub fn prefix_len(&self) -> (r: u8)
        ensures
            r == self@.prefix_len,
    {
        self.prefix_len
    }

    /// The address the network was written with.
    pub fn addr(&self) -> (r: IpAddr)
        ensures
            r.value() == self@.addr,
            (r is V6) == self@.v6,
    {
        proof { use_type_invariant(self); }
        if self.v6 {
            IpAddr::V6(self.addr)
        } else {
            IpAddr::V4(self.addr as u32)
        }
    }
}

/// One decimal octet of dotted-quad text: one to three digits, no leading
/// zero unless the octet is `0`, at most 255.
pub open spec fn dec_octet(p: Seq<char>) -> Option<nat> {
    if 1 <= p.len() <= 3 && all_digits(p) && (p.len() == 1 || p[0] != '0') && digits_value(p)
        <= 255 {
        Some(digits_value(p))
    } else {
        None
    }
}

/// Dotted-quad IPv4 text: exactly four octets separated by `.`.
pub open spec fn ipv4_text(s: Seq<char>) -> Option<nat> {
    let parts = split(s, '.');
    if parts.len() == 4 && dec_octet(parts[0]) is Some && dec_octet(parts[1]) is Some && dec_octet(
        parts[2],
    ) is Some && dec_octet(parts[3]) is Some {
        Some(
            dec_octet(parts[0])->Some_0 * 16777216 + dec_octet(parts[1])->Some_0 * 65536
                + dec_octet(parts[2])->Some_0 * 256 + dec_octet(parts[3])->Some_0,
        )
    } else {
        None
    }
}

pub open spec fn is_hex(c: char) -> bool {
    is_digit(c) || ('a' <= c && c <= 'f') || ('A' <= c && c <= 'F')
}

pub open spec fn hex_val(c: char) -> nat {
    if is_digit(c) {
        digit_val(c)
    } else if 'a' <= c && c <= 'f' {
        (c as int - 'a' as int + 10) as nat
    } else {
        (c as int - 'A' as int + 10) as nat
    }
}

pub open spec fn hex_value(s: Seq<char>) -> nat
    decreases s.len(),
{
    if s.len() == 0 {
        0
    } else {
        hex_value(s.drop_last()) * 16 + hex_val(s.last())
    }
}

/// One IPv6 group: one to four hexadecimal digits.
pub open spec fn hex_group(p: Seq<char>) -> Option<nat> {
    if 1 <= p.len() <= 4 && forall|i: int| 0 <= i < p.len() ==> is_hex(#[trigger] p[i]) {
        Some(hex_value(p))
    } else {
        None
    }
}

/// The 16-bit groups that a `:`-separated list denotes; when `v4_last`, the
/// last item may instead be dotted-quad text, which stands for two groups.
pub open spec fn groups_of(parts: Seq<Seq<char>>, v4_last: bool) -> Option<Seq<nat>>
    decreases parts.len(),
{
    if parts.len() == 0 {
        Some(Seq::empty())
    } else if parts.len() == 1 && v4_last && ipv4_text(parts[0]) is Some {
        Some(seq![ipv4_text(parts[0])->Some_0 / 65536, ipv4_text(parts[0])->Some_0 % 65536])
    } else {
        match hex_group(parts[0]) {
            None => None,
            Some(g) => match groups_of(parts.drop_first(), v4_last) {
                None => None,
                Some(r) => Some(seq![g] + r),
            },
        }
    }
}

/// Index of the first `::` in `s`.
pub open spec fn find_double_colon(s: Seq<char>) -> Option<int>
    decreases s.len(),
{
    if s.len() < 2 {
        None
    } else if s[0] == ':' && s[1] == ':' {
        Some(0)
    } else {
        match find_double_colon(s.drop_first()) {
            Some(i) => Some(i + 1),
            None => None,
        }
    }
}

/// The groups on one side of a `::`; an empty side has none.
pub open spec fn side_groups(s: Seq<char>, v4_last: bool) -> Option<Seq<nat>> {
    if s.len() == 0 {
        Some(Seq::empty())
    } else {
        groups_of(split(s, ':'), v4_last)
    }
}

/// IPv6 text: eight groups, or fewer around one `::` that stands for the
/// missing zero groups; dotted-quad text may stand for the last two groups.
pub open spec fn ipv6_groups(s: Seq<char>) -> Option<Seq<nat>> {
    match find_double_colon(s) {
        None => match groups_of(split(s, ':'), true) {
            Some(g) => if g.len() == 8 {
                Some(g)
            } else {
                None
            },
            None => None,
        },
        Some(k) => match (side_groups(s.take(k), false), side_groups(s.skip(k + 2), true)) {
            (Some(h), Some(t)) => if h.len() + t.len() <= 7 {
                Some(h + Seq::new((8 - h.len() - t.len()) as nat, |i: int| 0nat) + t)
            } else {
                None
            },
            _ => None,
        },
    }
}

/// The number that a list of 16-bit groups denotes, most significant first.
pub open spec fn groups_value(g: Seq<nat>) -> nat
    decreases g.len(),
{
    if g.len() == 0 {
        0
    } else {
        groups_value(g.drop_last()) * 65536 + g.last()
    }
}

/// The address that text denotes under the grammar of std's `IpAddr::from_str`:
/// dotted-quad IPv4 text, else IPv6 text.
pub open spec fn ip_text(s: Seq<char>) -> Option<IpAddr> {
    match ipv4_text(s) {
        Some(a) => Some(IpAddr::V4(a as u32)),
        None => match ipv6_groups(s) {
            Some(g) => Some(IpAddr::V6(groups_value(g) as u128)),
            None => None,
        },
    }
}

/// The pieces that a list of bounds stands for.
pub open spec fn pieces(v: Seq<char>, b: Seq<(usize, usize)>) -> Seq<Seq<char>> {
    Seq::new(b.len(), |i: int| v.subrange(b[i].0 as int, b[i].1 as int))
}

/// Parse `v[lo..hi]` as one decimal octet.
fn dec_octet_range(v: &Vec<char>, lo: usize, hi: usize) -> (r: Option<u32>)
    requires
        lo <= hi <= v@.len(),
    ensures
        match r {
            Some(n) => dec_octet(v@.subrange(lo as int, hi as int)) == Some(n as nat),
            None => dec_octet(v@.subrange(lo as int, hi as int)) is None,
        },
{
    let ghost p = v@.subrange(lo as int, hi as int);
    if hi - lo < 1 || hi - lo > 3 {
        return None;
    }
    if hi - lo > 1 && v[lo] == '0' {
        return None;
    }
    let mut acc: u32 = 0;
    let mut i = lo;
    while i < hi
        invariant
            lo <= i <= hi <= v@.len(),
            hi - lo <= 3,
            p == v@.subrange(lo as int, hi as int),
            all_digits(p.take(i - lo)),
            acc as nat == digits_value(p.take(i - lo)),
            i - lo == 0 ==> acc == 0,
            i - lo == 1 ==> acc < 10,
            i - lo == 2 ==> acc < 100,
            acc < 1000,
        decreases hi - i,
    {
        let c = v[i];
        if !('0' <= c && c <= '9') {
            assert(p[i - lo] == c);
            return None;
        }
        proof {
            assert(p.take(i - lo + 1).drop_last() =~= p.take(i - lo));
            assert(p.take(i - lo + 1).last() == c);
        }
        acc = acc * 10 + (c as u32 - '0' as u32);
        i = i + 1;
        assert(all_digits(p.take(i - lo))) by {
            assert forall|j: int| 0 <= j < p.take(i - lo).len() implies is_digit(
                #[trigger] p.take(i - lo)[j],
            ) by {
                if j < i - lo - 1 {
                    assert(p.take(i - lo)[j] == p.take(i - lo - 1)[j]);
                }
            }
        }
    }
    assert(p.take(hi - lo) =~= p);
    if acc > 255 {
        return None;
    }
    Some(acc)
}

/// Parse `v[lo..hi]` as dotted-quad IPv4 text.
fn ipv4_range(v: &Vec<char>, lo: usize, hi: usize) -> (r: Option<u32>)
    requires
        lo <= hi <= v@.len(),
    ensures
        match r {
            Some(n) => ipv4_text(v@.subrange(lo as int, hi as int)) == Some(n as nat),
            None => ipv4_text(v@.subrange(lo as int, hi as int)) is None,
        },
{
    let b = split_bounds(v, lo, hi, '.');
    if b.len() != 4 {
        return None;
    }
    let (a0, e0) = b[0];
    let (a1, e1) = b[1];
    let (a2, e2) = b[2];
    let (a3, e3) = b[3];
    let o0 = dec_octet_range(v, a0, e0);
    let o1 = dec_octet_range(v, a1, e1);
    let o2 = dec_octet_range(v, a2, e2);
    let o3 = dec_octet_range(v, a3, e3);
    match (o0, o1, o2, o3) {
        (Some(x0), Some(x1), Some(x2), Some(x3)) => Some(x0 * 16777216 + x1 * 65536 + x2 * 256 + x3),
        _ => None,
    }
}

/// Parse `v[lo..hi]` as one IPv6 group.
fn hex_group_range(v: &Vec<char>, lo: usize, hi: usize) -> (r: Option<u32>)
    requires
        lo <= hi <= v@.len(),
    ensures
        match r {
            Some(n) => hex_group(v@.subrange(lo as int, hi as int)) == Some(n as nat) && n < 65536,
            None => hex_group(v@.subrange(lo as int, hi as int)) is None,
        },
{
    let ghost p = v@.subrange(lo as int, hi as int);
    if hi - lo < 1 || hi - lo > 4 {
        return None;
    }
    let mut acc: u32 = 0;
    let mut i = lo;
    while i < hi
        invariant
            lo <= i <= hi <= v@.len(),
            hi - lo <= 4,
            p == v@.subrange(lo as int, hi as int),
            forall|j: int| 0 <= j < i - lo ==> is_hex(#[trigger] p[j]),
            acc as nat == hex_value(p.take(i - lo)),
            acc < pow16(i - lo),
        decreases hi - i,
    {
        let c = v[i];
        let d: u32;
        if '0' <= c && c <= '9' {
            d = c as u32 - '0' as u32;
        } else if 'a' <= c && c <= 'f' {
            d = c as u32 - 'a' as u32 + 10;
        } else if 'A' <= c && c <= 'F' {
            d = c as u32 - 'A' as u32 + 10;
        } else {
            assert(p[i - lo] == c);
            return None;
        }
        proof {
            assert(p.take(i - lo + 1).drop_last() =~= p.take(i - lo));
            assert(p.take(i - lo + 1).last() == c);
            assert(pow16(i - lo) <= 4096) by {
                reveal_with_fuel(pow16, 5);
            }
            assert(pow16(i - lo + 1) == pow16(i - lo) * 16);
        }
        acc = acc * 16 + d;
        i = i + 1;
    }
    assert(p.take(hi - lo) =~= p);
    proof {
        reveal_with_fuel(pow16, 5);
    }
    Some(acc)
}

/// A list of groups with a fixed prefix in front, keeping failure.
pub open spec fn prepend_groups(a: Seq<nat>, o: Option<Seq<nat>>) -> Option<Seq<nat>> {
    match o {
        Some(r) => Some(a + r),
        None => None,
    }
}

/// The groups as numbers.
pub open spec fn group_nats(g: Seq<u32>) -> Seq<nat> {
    g.map_values(|x: u32| x as nat)
}

/// Parse the pieces `b` of `v` as IPv6 groups.
fn groups_range(v: &Vec<char>, b: &Vec<(usize, usize)>, v4_last: bool) -> (r: Option<Vec<u32>>)
    requires
        forall|i: int| 0 <= i < b@.len() ==> (#[trigger] b@[i]).0 <= b@[i].1 <= v@.len(),
    ensures
        match r {
            Some(g) => groups_of(pieces(v@, b@), v4_last) == Some(group_nats(g@)) && forall|i: int|
                0 <= i < g@.len() ==> #[trigger] g@[i] < 65536,
            None => groups_of(pieces(v@, b@), v4_last) is None,
        },
{
    let ghost parts = pieces(v@, b@);
    let mut acc: Vec<u32> = Vec::new();
    let mut i: usize = 0;
    assert(parts.skip(0) =~= parts);
    assert(group_nats(acc@) =~= Seq::<nat>::empty());
    assert(prepend_groups(Seq::empty(), groups_of(parts, v4_last)) =~= groups_of(parts, v4_last)) by {
        match groups_of(parts, v4_last) {
            Some(r) => { assert(Seq::<nat>::empty() + r =~= r); },
            None => {},
        }
    }
    while i < b.len()
        invariant
            i <= b@.len(),
            parts == pieces(v@, b@),
            forall|k: int| 0 <= k < b@.len() ==> (#[trigger] b@[k]).0 <= b@[k].1 <= v@.len(),
            groups_of(parts, v4_last) == prepend_groups(group_nats(acc@), groups_of(parts.skip(i as int), v4_last)),
            forall|k: int| 0 <= k < acc@.len() ==> #[trigger] acc@[k] < 65536,
        decreases b@.len() - i,
    {
        let ghost rest = parts.skip(i as int);
        assert(rest[0] == v@.subrange(b@[i as int].0 as int, b@[i as int].1 as int));
        assert(rest.drop_first() =~= parts.skip(i + 1));
        let (lo, hi) = b[i];
        if i + 1 == b.len() && v4_last {
            match ipv4_range(v, lo, hi) {
                Some(a) => {
                    let ghost before = acc@;
                    acc.push(a / 65536);
                    acc.push(a % 65536);
                    proof {
                        assert(rest.len() == 1);
                        assert(group_nats(acc@) =~= group_nats(before) + seq![a as nat / 65536, a as nat % 65536]);
                    }
                    return Some(acc);
                },
                None => {},
            }
        }
        match hex_group_range(v, lo, hi) {
            None => {
                return None;
            },
            Some(g) => {
                let ghost before = acc@;
                acc.push(g);
                proof {
                    match groups_of(parts.skip(i + 1), v4_last) {
                        Some(r) => {
                            assert(group_nats(acc@) =~= group_nats(before).push(g as nat));
                            assert(group_nats(before) + (seq![g as nat] + r) =~= group_nats(acc@) + r);
                        },
                        None => {},
                    }
                }
            },
        }
        i = i + 1;
    }
    proof {
        assert(parts.skip(i as int).len() == 0);
        assert(group_nats(acc@) + Seq::<nat>::empty() =~= group_nats(acc@));
    }
    Some(acc)
}

/// `find_double_colon` skips a position that does not start `::`.
proof fn lemma_dcolon_step(v: Seq<char>, i: int, hi: int)
    requires
        0 <= i,
        i + 1 < hi <= v.len(),
        !(v[i] == ':' && v[i + 1] == ':'),
    ensures
        find_double_colon(v.subrange(i, hi)) == (match find_double_colon(v.subrange(i + 1, hi)) {
            Some(k) => Some(k + 1),
            None => None::<int>,
        }),
{
    assert(v.subrange(i, hi).drop_first() =~= v.subrange(i + 1, hi));
}

/// Position (absolute) of the first `::` in `v[lo..hi]`.
fn find_double_colon_range(v: &Vec<char>, lo: usize, hi: usize) -> (r: Option<usize>)
    requires
        lo <= hi <= v@.len(),
    ensures
        match r {
            Some(k) => lo <= k && k + 2 <= hi && find_double_colon(v@.subrange(lo as int, hi as int))
                == Some(k - lo),
            None => find_double_colon(v@.subrange(lo as int, hi as int)) is None,
        },
{
    let mut i = lo;
    while hi - i > 1
        invariant
            lo <= i <= hi <= v@.len(),
            find_double_colon(v@.subrange(lo as int, hi as int)) == (match find_double_colon(
                v@.subrange(i as int, hi as int),
            ) {
                Some(k) => Some(k + (i - lo)),
                None => None::<int>,
            }),
        decreases hi - i,
    {
        if v[i] == ':' && v[i + 1] == ':' {
            return Some(i);
        }
        proof { lemma_dcolon_step(v@, i as int, hi as int); }
        i = i + 1;
    }
    None
}

/// The groups of one side of a `::` in `v[lo..hi]`.
fn side_range(v: &Vec<char>, lo: usize, hi: usize, v4_last: bool) -> (r: Option<Vec<u32>>)
    requires
        lo <= hi <= v@.len(),
    ensures
        match r {
            Some(g) => side_groups(v@.subrange(lo as int, hi as int), v4_last) == Some(group_nats(g@))
                && forall|i: int| 0 <= i < g@.len() ==> #[trigger] g@[i] < 65536,
            None => side_groups(v@.subrange(lo as int, hi as int), v4_last) is None,
        },
{
    if lo == hi {
        let g: Vec<u32> = Vec::new();
        assert(group_nats(g@) =~= Seq::<nat>::empty());
        return Some(g);
    }
    let b = split_bounds(v, lo, hi, ':');
    assert(pieces(v@, b@) =~= split(v@.subrange(lo as int, hi as int), ':'));
    groups_range(v, &b, v4_last)
}

/// `65536^n`.
pub open spec fn pow_group(n: int) -> nat
    decreases n,
{
    if n <= 0 {
        1
    } else {
        65536 * pow_group(n - 1)
    }
}

proof fn lemma_pow_group_mono(a: int, b: int)
    requires
        0 <= a <= b,
    ensures
        pow_group(a) <= pow_group(b),
    decreases b - a,
{
    if a < b {
        lemma_pow_group_mono(a, b - 1);
    }
}

/// The value of eight 16-bit groups.
fn groups_value_exec(g: &Vec<u32>) -> (r: u128)
    requires
        g@.len() == 8,
        forall|i: int| 0 <= i < g@.len() ==> #[trigger] g@[i] < 65536,
    ensures
        r as nat == groups_value(group_nats(g@)),
{
    let mut acc: u128 = 0;
    let mut i: usize = 0;
    assert(pow_group(8) == 0x1_0000_0000_0000_0000_0000_0000_0000_0000nat) by {
        reveal_with_fuel(pow_group, 9);
    }
    while i < 8
        invariant
            i <= 8,
            g@.len() == 8,
            forall|k: int| 0 <= k < g@.len() ==> #[trigger] g@[k] < 65536,
            acc as nat == groups_value(group_nats(g@).take(i as int)),
            acc < pow_group(i as int),
            pow_group(8) == 0x1_0000_0000_0000_0000_0000_0000_0000_0000nat,
        decreases 8 - i,
    {
        proof {
            assert(group_nats(g@).take(i + 1).drop_last() =~= group_nats(g@).take(i as int));
            assert(pow_group(i + 1) == 65536 * pow_group(i as int));
            lemma_pow_group_mono(i + 1, 8);
            assert(acc * 65536 + g@[i as int] < pow_group(i + 1)) by (nonlinear_arith)
                requires
                    acc < pow_group(i as int),
                    g@[i as int] < 65536,
                    pow_group(i + 1) == 65536 * pow_group(i as int),
            ;
        }
        acc = acc * 65536 + g[i] as u128;
        i = i + 1;
    }
    assert(group_nats(g@).take(8) =~= group_nats(g@));
    acc
}

/// Parse `v[lo..hi]` as IPv6 text.
fn ipv6_range(v: &Vec<char>, lo: usize, hi: usize) -> (r: Option<u128>)
    requires
        lo <= hi <= v@.len(),
    ensures
        match r {
            Some(n) => ipv6_groups(v@.subrange(lo as int, hi as int)) matches Some(g) && n as nat
                == groups_value(g),
            None => ipv6_groups(v@.subrange(lo as int, hi as int)) is None,
        },
{
    let ghost s = v@.subrange(lo as int, hi as int);
    match find_double_colon_range(v, lo, hi) {
        None => {
            let b = split_bounds(v, lo, hi, ':');
            assert(pieces(v@, b@) =~= split(s, ':'));
            match groups_range(v, &b, true) {
                Some(g) => {
                    if g.len() == 8 {
                        Some(groups_value_exec(&g))
                    } else {
                        None
                    }
                },
                None => None,
            }
        },
        Some(k) => {
            assert(s.take(k - lo) =~= v@.subrange(lo as int, k as int));
            assert(s.skip(k - lo + 2) =~= v@.subrange(k + 2, hi as int));
            let head = side_range(v, lo, k, false);
            let tail = side_range(v, k + 2, hi, true);
            match (head, tail) {
                (Some(h), Some(t)) => {
                    if h.len() > 7 || t.len() > 7 - h.len() {
                        return None;
                    }
                    let mut full: Vec<u32> = Vec::new();
                    let mut j: usize = 0;
                    while j < h.len()
                        invariant
                            j <= h@.len(),
                            full@ == h@.take(j as int),
                        decreases h@.len() - j,
                    {
                        full.push(h[j]);
                        j = j + 1;
                        assert(full@ =~= h@.take(j as int));
                    }
                    let zeros = 8 - h.len() - t.len();
                    let mut z: usize = 0;
                    while z < zeros
                        invariant
                            z <= zeros,
                            full@ == h@ + Seq::new(z as nat, |q: int| 0u32),
                        decreases zeros - z,
                    {
                        full.push(0);
                        z = z + 1;
                        assert(full@ =~= h@ + Seq::new(z as nat, |q: int| 0u32));
                    }
                    let mut q: usize = 0;
                    while q < t.len()
                        invariant
                            q <= t@.len(),
                            full@ == h@ + Seq::new(zeros as nat, |q: int| 0u32) + t@.take(q as int),
                        decreases t@.len() - q,
                    {
                        full.push(t[q]);
                        q = q + 1;
                        assert(full@ =~= h@ + Seq::new(zeros as nat, |q: int| 0u32) + t@.take(q as int));
                    }
                    proof {
                        assert(t@.take(t@.len() as int) =~= t@);
                        assert(group_nats(full@) =~= group_nats(h@) + Seq::new(
                            (8 - h@.len() - t@.len()) as nat,
                            |i: int| 0nat,
                        ) + group_nats(t@));
                        assert forall|i: int| 0 <= i < full@.len() implies #[trigger] full@[i] < 65536 by {
                            if i < h@.len() {
                            } else if i < h@.len() + zeros {
                            } else {
                                assert(full@[i] == t@[i - h@.len() - zeros]);
                            }
                        }
                    }
                    Some(groups_value_exec(&full))
                },
                _ => None,
            }
        },
    }
}

/// Parse the characters `v[lo..hi]` as an IP address, by the grammar of
/// std's `IpAddr::from_str`.
pub fn parse_ip_range(v: &Vec<char>, lo: usize, hi: usize) -> (r: Option<IpAddr>)
    requires
        lo <= hi <= v@.len(),
    ensures
        r == ip_text(v@.subrange(lo as int, hi as int)),
{
    match ipv4_range(v, lo, hi) {
        Some(a) => Some(IpAddr::V4(a)),
        None => match ipv6_range(v, lo, hi) {
            Some(x) => Some(IpAddr::V6(x)),
            None => None,
        },
    }
}

/// `16^n` for small `n`.
pub open spec fn pow16(n: int) -> nat
    decreases n,
{
    if n <= 0 {
        1
    } else {
        16 * pow16(n - 1)
    }
}

/// `ipnet::AddrParseError`, the error of parsing CIDR text.
#[verifier::external_type_specification]
#[verifier::external_body]
pub struct ExAddrParseError(ipnet::AddrParseError);

/// What `str::parse::<ipnet::IpNet>` accepts, and the network it yields.
pub uninterp spec fn cidr_text(text: Seq<char>) -> Option<NetModel>;

/// `str::parse::<ipnet::IpNet>`. Trusted to succeed exactly when the named
/// result `cidr_text` of the text is a network, and then to yield it; the
/// parser only builds networks through `Ipv4Net::new`/`Ipv6Net::new`, so the
/// prefix length is at most 32 (IPv4) or 128 (IPv6), as `IpNet` requires.
#[verifier::external_body]
pub(crate) fn ipnet_parse(s: &str) -> (r: Result<IpNet, ipnet::AddrParseError>)
    ensures
        match r {
            Ok(n) => cidr_text(s@) == Some(n@),
            Err(_) => cidr_text(s@) is None,
        },
{
    match s.parse::<ipnet::IpNet>() {
        Ok(ipnet::IpNet::V4(n)) => Ok(IpNet { v6: false, addr: u32::from(n.addr()) as u128, prefix_len: n.prefix_len() }),
        Ok(ipnet::IpNet::V6(n)) => Ok(IpNet { v6: true, addr: u128::from(n.addr()), prefix_len: n.prefix_len() }),
        Err(e) => Err(e),
    }
}

/// `Display` of `ipnet::AddrParseError`, which writes one fixed message.
#[verifier::external_body]
pub(crate) fn ipnet_error_text(e: &ipnet::AddrParseError) -> (r: String)
    ensures
        r@ == "invalid IP address syntax"@,
{
    e.to_string()
}

/// Parse the characters `v[lo..hi]` as CIDR text.
pub fn parse_cidr_range(v: &Vec<char>, lo: usize, hi: usize) -> (r: Result<IpNet, ipnet::AddrParseError>)
    requires
        lo <= hi <= v@.len(),
    ensures
        match r {
            Ok(n) => cidr_text(v@.subrange(lo as int, hi as int)) == Some(n@),
            Err(_) => cidr_text(v@.subrange(lo as int, hi as int)) is None,
        },
{
    let s = string_of_range(v, lo, hi);
    ipnet_parse(s.as_str())
}

/// `ipnet::Ipv4Net::new_assert(addr, prefix_len).network()`: the address with
/// its host bits cleared (`new_assert` panics on a prefix longer than 32).
#[verifier::external_body]
fn ipv4_network(addr: u32, prefix_len: u8) -> (r: u32)
    requires
        prefix_len <= 32,
    ensures
        r == network(NetModel { v6: false, addr: addr as nat, prefix_len: prefix_len as nat }),
{
    u32::from(ipnet::Ipv4Net::new_assert(addr.into(), prefix_len).network())
}

/// `ipnet::Ipv4Net::new_assert(addr, prefix_len).broadcast()`: the address
/// with its host bits set.
#[verifier::external_body]
fn ipv4_broadcast(addr: u32, prefix_len: u8) -> (r: u32)
    requires
        prefix_len <= 32,
    ensures
        r == broadcast(NetModel { v6: false, addr: addr as nat, prefix_len: prefix_len as nat }),
{
    u32::from(ipnet::Ipv4Net::new_assert(addr.into(), prefix_len).broadcast())
}

/// `ipnet::Ipv6Net::new_assert(addr, prefix_len).network()`: the address with
/// its host bits cleared (`new_assert` panics on a prefix longer than 128).
#[verifier::external_body]
fn ipv6_network(addr: u128, prefix_len: u8) -> (r: u128)
    requires
        prefix_len <= 128,
    ensures
        r == network(NetModel { v6: true, addr: addr as nat, prefix_len: prefix_len as nat }),
{
    u128::from(ipnet::Ipv6Net::new_assert(addr.into(), prefix_len).network())
}

/// `ipnet::Ipv6Net::new_assert(addr, prefix_len).broadcast()`: the address
/// with its host bits set.
#[verifier::external_body]
fn ipv6_broadcast(addr: u128, prefix_len: u8) -> (r: u128)
    requires
        prefix_len <= 128,
    ensures
        r == broadcast(NetModel { v6: true, addr: addr as nat, prefix_len: prefix_len as nat }),
{
    u128::from(ipnet::Ipv6Net::new_assert(addr.into(), prefix_len).broadcast())
}

/// The network address of a network, as `ipnet` computes it.
pub fn net_network(net: &IpNet) -> (r: u128)
    ensures
        r == network(net@),
{
    proof {
        use_type_invariant(net);
    }
    if net.v6 {
        ipv6_network(net.addr, net.prefix_len)
    } else {
        ipv4_network(net.addr as u32, net.prefix_len) as u128
    }
}

/// The broadcast address of a network, as `ipnet` computes it.
pub fn net_broadcast(net: &IpNet) -> (r: u128)
    ensures
        r == broadcast(net@),
{
    proof {
        use_type_invariant(net);
    }
    if net.v6 {
        ipv6_broadcast(net.addr, net.prefix_len)
    } else {
        ipv4_broadcast(net.addr as u32, net.prefix_len) as u128
    }
}

} // verus!
