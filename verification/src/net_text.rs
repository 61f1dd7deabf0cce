//! The textual form of IP addresses, as std's `Display` writes them:
//! dotted-quad IPv4; IPv6 as lowercase hex groups without leading zeros, the
//! first longest run of two or more zero groups shortened to `::`, and an
//! IPv4-mapped address as `::ffff:` followed by its dotted quad.

use vstd::prelude::*;

use crate::net::{
    dec_octet, find_double_colon, group_nats, groups_of, groups_value, hex_group, hex_val, hex_value,
    ip_text, ipv4_text, ipv6_groups, is_hex, pow_group, side_groups, IpAddr,
};
use crate::text::{
    dec_chars, digit_char, is_digit, lacks, lemma_dec_chars, lemma_digit_char, lemma_split_absent,
    lemma_find_char_bounds, lemma_split_cons, lemma_split_snoc, push_char, push_decimal, split,
};

verus! {

/// The lowercase hex digit of `d < 16`.
pub open spec fn hex_digit(d: nat) -> char {
    if d < 10 {
        digit_char(d)
    } else {
        ((d + 87) as u8) as char
    }
}

/// `{:x}`: the lowercase hex text of `n`, without leading zeros.
pub open spec fn hex_chars(n: nat) -> Seq<char>
    decreases n,
{
    if n < 16 {
        seq![hex_digit(n)]
    } else {
        hex_chars(n / 16).push(hex_digit(n % 16))
    }
}

/// The dotted-quad text of a 32-bit address.
pub open spec fn v4_display(a: nat) -> Seq<char> {
    dec_chars(a / 16777216) + "."@ + dec_chars(a / 65536 % 256) + "."@ + dec_chars(a / 256 % 256) + "."@
        + dec_chars(a % 256)
}

/// The lowest `n` 16-bit groups of `x`, most significant first.
pub open spec fn low_groups(x: nat, n: nat) -> Seq<nat>
    decreases n,
{
    if n == 0 {
        Seq::empty()
    } else {
        low_groups(x / 65536, (n - 1) as nat).push(x % 65536)
    }
}

/// The eight 16-bit groups of an IPv6 address, most significant first.
pub open spec fn v6_groups(x: nat) -> Seq<nat> {
    low_groups(x, 8)
}

/// `g[s..s+l]` is a run of zero groups.
pub open spec fn zero_run(g: Seq<nat>, s: int, l: int) -> bool {
    &&& 0 <= s
    &&& 0 <= l
    &&& s + l <= g.len()
    &&& forall|k: int| s <= k < s + l ==> g[k] == 0
}

/// `g[s..s+l]` is the first of the longest runs of zero groups.
pub open spec fn first_longest(g: Seq<nat>, s: int, l: int) -> bool {
    &&& zero_run(g, s, l)
    &&& forall|s2: int, l2: int| #[trigger] zero_run(g, s2, l2) ==> l2 < l || (l2 == l && s <= s2)
}

/// The start and length of the first longest run of zero groups.
pub open spec fn longest_zero_run(g: Seq<nat>) -> (int, int) {
    choose|r: (int, int)| first_longest(g, r.0, r.1)
}

/// Groups in hex, separated by `:`.
pub open spec fn join_hex(g: Seq<nat>) -> Seq<char>
    decreases g.len(),
{
    if g.len() == 0 {
        Seq::empty()
    } else if g.len() == 1 {
        hex_chars(g[0])
    } else {
        join_hex(g.drop_last()) + ":"@ + hex_chars(g.last())
    }
}

/// Whether the groups are those of an IPv4-mapped address, `::ffff:a.b.c.d`.
pub open spec fn is_v4_mapped(g: Seq<nat>) -> bool {
    g[0] == 0 && g[1] == 0 && g[2] == 0 && g[3] == 0 && g[4] == 0 && g[5] == 65535
}

/// The text of an IPv6 address.
pub open spec fn v6_display(x: nat) -> Seq<char> {
    let g = v6_groups(x);
    if is_v4_mapped(g) {
        "::ffff:"@ + v4_display(g[6] * 65536 + g[7])
    } else {
        let z = longest_zero_run(g);
        if z.1 > 1 {
            join_hex(g.take(z.0)) + "::"@ + join_hex(g.skip(z.0 + z.1))
        } else {
            join_hex(g)
        }
    }
}

/// The text of an address.
pub open spec fn ip_display(ip: IpAddr) -> Seq<char> {
    match ip {
        IpAddr::V4(a) => v4_display(a as nat),
        IpAddr::V6(x) => v6_display(x as nat),
    }
}

/// Append the lowercase hex text of `n`.
fn push_hex(s: &mut String, n: u32)
    ensures
        final(s)@ == old(s)@ + hex_chars(n as nat),
    decreases n,
{
    if n >= 16 {
        push_hex(s, n / 16);
    }
    let d = (n % 16) as u8;
    let c = if d < 10 {
        (d + 48u8) as char
    } else {
        (d + 87u8) as char
    };
    push_char(s, c);
    proof {
        assert(c == hex_digit((n % 16) as nat));
        if n >= 16 {
            assert(hex_chars(n as nat) == hex_chars((n / 16) as nat).push(hex_digit((n % 16) as nat)));
        }
    }
    assert(final(s)@ =~= old(s)@ + hex_chars(n as nat));
}

/// Append the dotted-quad text of a 32-bit address.
fn push_v4(s: &mut String, a: u32)
    ensures
        final(s)@ == old(s)@ + v4_display(a as nat),
{
    push_decimal(s, (a / 16777216) as u128);
    push_char(s, '.');
    push_decimal(s, (a / 65536 % 256) as u128);
    push_char(s, '.');
    push_decimal(s, (a / 256 % 256) as u128);
    push_char(s, '.');
    push_decimal(s, (a % 256) as u128);
    proof {
        reveal_strlit(".");
    }
    assert(s@ =~= old(s)@ + v4_display(a as nat));
}

proof fn lemma_low_groups(x: nat, n: nat)
    ensures
        low_groups(x, n).len() == n,
        forall|i: int| 0 <= i < n ==> #[trigger] low_groups(x, n)[i] < 65536,
    decreases n,
{
    if n > 0 {
        lemma_low_groups(x / 65536, (n - 1) as nat);
    }
}

/// The lowest `n` groups of `x`.
fn value_groups(x: u128, n: usize) -> (r: Vec<u32>)
    requires
        n <= 8,
    ensures
        group_nats(r@) == low_groups(x as nat, n as nat),
        r@.len() == n,
    decreases n,
{
    if n == 0 {
        let r: Vec<u32> = Vec::new();
        assert(group_nats(r@) =~= Seq::<nat>::empty());
        r
    } else {
        let mut r = value_groups(x / 65536, n - 1);
        let ghost before = group_nats(r@);
        r.push((x % 65536) as u32);
        assert(group_nats(r@) =~= before.push((x % 65536) as nat));
        r
    }
}

/// Two first longest runs are the same run.
proof fn lemma_first_longest_unique(g: Seq<nat>, s: int, l: int, s2: int, l2: int)
    requires
        first_longest(g, s, l),
        first_longest(g, s2, l2),
    ensures
        s == s2 && l == l2,
{
    assert(zero_run(g, s2, l2));
    assert(zero_run(g, s, l));
}

/// The first longest run of zero groups.
fn zero_span(g: &Vec<u32>) -> (r: (usize, usize))
    ensures
        r == ((longest_zero_run(group_nats(g@)).0 as usize, longest_zero_run(group_nats(g@)).1 as usize)),
        longest_zero_run(group_nats(g@)).0 + longest_zero_run(group_nats(g@)).1 <= g@.len(),
        0 <= longest_zero_run(group_nats(g@)).0,
        0 <= longest_zero_run(group_nats(g@)).1,
{
    let ghost gs = group_nats(g@);
    let mut best_s: usize = 0;
    let mut best_l: usize = 0;
    let mut cur_l: usize = 0;
    let mut i: usize = 0;
    while i < g.len()
        invariant
            gs == group_nats(g@),
            gs.len() == g@.len(),
            i <= g@.len(),
            cur_l <= i,
            zero_run(gs, i - cur_l, cur_l as int),
            i - cur_l == 0 || gs[i - cur_l - 1] != 0,
            zero_run(gs, best_s as int, best_l as int),
            best_s + best_l <= i,
            forall|s2: int, l2: int| #[trigger] zero_run(gs, s2, l2) && s2 + l2 <= i ==> l2 < best_l || (l2 == best_l && best_s <= s2),
        decreases g@.len() - i,
    {
        let ghost cur_s: int = i - cur_l;
        if g[i] == 0 {
            assert(gs[i as int] == 0);
            proof {
                assert forall|s2: int, l2: int| #[trigger] zero_run(gs, s2, l2) && s2 + l2 == i + 1 && l2 > 0 implies s2 >= cur_s by {
                    if s2 < cur_s {
                        assert(gs[cur_s - 1] == 0);
                    }
                }
            }
            cur_l = cur_l + 1;
            if cur_l > best_l {
                best_s = i + 1 - cur_l;
                best_l = cur_l;
            }
        } else {
            assert(gs[i as int] != 0);
            proof {
                assert forall|s2: int, l2: int| #[trigger] zero_run(gs, s2, l2) && s2 + l2 == i + 1 implies l2 == 0 by {
                    if l2 > 0 {
                        assert(gs[i as int] == 0);
                    }
                }
            }
            cur_l = 0;
        }
        i = i + 1;
    }
    proof {
        let w: (int, int) = (best_s as int, best_l as int);
        assert(first_longest(gs, w.0, w.1));
        let z = longest_zero_run(gs);
        assert(first_longest(gs, z.0, z.1));
        lemma_first_longest_unique(gs, best_s as int, best_l as int, z.0, z.1);
    }
    (best_s, best_l)
}

/// Append the groups `g[lo..hi]` in hex, separated by `:`.
fn push_groups(s: &mut String, g: &Vec<u32>, lo: usize, hi: usize)
    requires
        lo <= hi <= g@.len(),
    ensures
        final(s)@ == old(s)@ + join_hex(group_nats(g@).subrange(lo as int, hi as int)),
{
    let ghost gs = group_nats(g@);
    let ghost start = s@;
    let mut i: usize = lo;
    assert(gs.subrange(lo as int, lo as int) =~= Seq::<nat>::empty());
    assert(s@ =~= start + join_hex(gs.subrange(lo as int, i as int)));
    while i < hi
        invariant
            gs == group_nats(g@),
            lo <= i <= hi <= g@.len(),
            s@ == start + join_hex(gs.subrange(lo as int, i as int)),
        decreases hi - i,
    {
        let ghost before = s@;
        if i > lo {
            push_char(s, ':');
        }
        push_hex(s, g[i]);
        proof {
            reveal_strlit(":");
            let sub = gs.subrange(lo as int, i + 1);
            assert(sub.drop_last() =~= gs.subrange(lo as int, i as int));
            assert(sub.last() == g@[i as int] as nat);
            if i > lo {
                assert(join_hex(sub) == join_hex(sub.drop_last()) + ":"@ + hex_chars(sub.last()));
            } else {
                assert(sub.len() == 1);
            }
        }
        i = i + 1;
        assert(s@ =~= start + join_hex(gs.subrange(lo as int, i as int)));
    }
}

/// Append the text of an IPv6 address.
fn push_v6(s: &mut String, x: u128)
    ensures
        final(s)@ == old(s)@ + v6_display(x as nat),
{
    let g = value_groups(x, 8);
    let ghost gs = group_nats(g@);
    proof {
        lemma_low_groups(x as nat, 8);
        assert forall|i: int| 0 <= i < 8 implies gs[i] == g@[i] as nat by {}
    }
    if g[0] == 0 && g[1] == 0 && g[2] == 0 && g[3] == 0 && g[4] == 0 && g[5] == 65535 {
        push_char(s, ':');
        push_char(s, ':');
        push_char(s, 'f');
        push_char(s, 'f');
        push_char(s, 'f');
        push_char(s, 'f');
        push_char(s, ':');
        assert(gs[6] < 65536 && gs[7] < 65536);
        push_v4(s, g[6] * 65536 + g[7]);
        proof {
            reveal_strlit("::ffff:");
        }
        assert(final(s)@ =~= old(s)@ + v6_display(x as nat));
    } else {
        let (zs, zl) = zero_span(&g);
        if zl > 1 {
            push_groups(s, &g, 0, zs);
            push_char(s, ':');
            push_char(s, ':');
            push_groups(s, &g, zs + zl, 8);
            proof {
                reveal_strlit("::");
                assert(gs.take(zs as int) =~= gs.subrange(0, zs as int));
                assert(gs.skip(zs + zl) =~= gs.subrange(zs + zl, 8));
            }
            assert(final(s)@ =~= old(s)@ + v6_display(x as nat));
        } else {
            push_groups(s, &g, 0, 8);
            assert(gs.subrange(0, 8) =~= gs);
        }
    }
}

/// Append the text of an address, as std's `Display` writes it.
pub fn push_ip(s: &mut String, ip: IpAddr)
    ensures
        final(s)@ == old(s)@ + ip_display(ip),
{
    match ip {
        IpAddr::V4(a) => push_v4(s, a),
        IpAddr::V6(x) => push_v6(s, x),
    }
}

impl IpAddr {
    /// The address as text, as std's `Display` writes it.
    pub fn to_string(&self) -> (r: String)
        ensures
            r@ == ip_display(*self),
    {
        let mut s = String::new();
        push_ip(&mut s, *self);
        assert(s@ =~= ip_display(*self));
        s
    }
}

proof fn lemma_hex_digit(d: nat)
    requires
        d < 16,
    ensures
        is_hex(hex_digit(d)),
        hex_val(hex_digit(d)) == d,
{
    if d < 10 {
        lemma_digit_char(d);
    } else {
        let b: u8 = (d + 87) as u8;
        assert(b as nat == d + 87);
        assert((b as char) as int == b as int);
    }
}

/// The hex text of `n`: hex digits worth `n`, one to four of them below 65536.
proof fn lemma_hex_chars(n: nat)
    ensures
        forall|i: int| 0 <= i < hex_chars(n).len() ==> is_hex(#[trigger] hex_chars(n)[i]),
        hex_value(hex_chars(n)) == n,
        hex_chars(n).len() >= 1,
        n < 16 ==> hex_chars(n).len() == 1,
        n < 256 ==> hex_chars(n).len() <= 2,
        n < 4096 ==> hex_chars(n).len() <= 3,
        n < 65536 ==> hex_chars(n).len() <= 4,
    decreases n,
{
    lemma_hex_digit(n % 16);
    if n >= 16 {
        lemma_hex_chars(n / 16);
        let p = hex_chars(n / 16);
        let d = hex_digit(n % 16);
        assert(hex_chars(n) == p.push(d));
        assert(p.push(d).drop_last() =~= p);
        assert(p.push(d).last() == d);
        assert forall|i: int| 0 <= i < p.push(d).len() implies is_hex(#[trigger] p.push(d)[i]) by {
            if i < p.len() {
                assert(p.push(d)[i] == p[i]);
            }
        }
        assert((n / 16) * 16 + n % 16 == n) by {
            vstd::arithmetic::div_mod::lemma_fundamental_div_mod(n as int, 16);
        }
        assert(hex_value(p.push(d)) == hex_value(p) * 16 + hex_val(d));
    } else {
        let c = hex_digit(n);
        assert(hex_chars(n) == seq![c]);
        assert(seq![c].drop_last() =~= Seq::<char>::empty());
        assert(seq![c].last() == c);
        assert(hex_value(seq![c]) == hex_value(Seq::<char>::empty()) * 16 + hex_val(c));
    }
}

/// Hex text holds no `:` and no `.`.
proof fn lemma_hex_lacks(n: nat)
    ensures
        lacks(hex_chars(n), ':'),
        lacks(hex_chars(n), '.'),
{
    lemma_hex_chars(n);
    assert forall|i: int| 0 <= i < hex_chars(n).len() implies hex_chars(n)[i] != ':' && hex_chars(n)[i] != '.' by {
        assert(is_hex(hex_chars(n)[i]));
    }
}

/// A group's hex text parses back as that group.
proof fn lemma_hex_group_back(g: nat)
    requires
        g < 65536,
    ensures
        hex_group(hex_chars(g)) == Some(g),
{
    lemma_hex_chars(g);
}

/// Decimal text holds no `:` and no `.`.
proof fn lemma_dec_lacks(n: nat)
    ensures
        lacks(dec_chars(n), ':'),
        lacks(dec_chars(n), '.'),
        dec_chars(n).len() > 0 && is_digit(dec_chars(n)[0]),
{
    lemma_dec_chars(n);
    assert forall|i: int| 0 <= i < dec_chars(n).len() implies dec_chars(n)[i] != ':' && dec_chars(n)[i] != '.' by {
        assert(is_digit(dec_chars(n)[i]));
    }
}

/// An octet's decimal text parses back as that octet.
proof fn lemma_dec_octet_back(o: nat)
    requires
        o < 256,
    ensures
        dec_octet(dec_chars(o)) == Some(o),
{
    lemma_dec_chars(o);
}

/// Dotted-quad text parses back as its address, and holds no `:`.
proof fn lemma_v4_back(a: u32)
    ensures
        ipv4_text(v4_display(a as nat)) == Some(a as nat),
        lacks(v4_display(a as nat), ':'),
        is_digit(v4_display(a as nat)[0]),
{
    let o1 = a as nat / 16777216;
    let o2 = a as nat / 65536 % 256;
    let o3 = a as nat / 256 % 256;
    let o4 = a as nat % 256;
    assert(o1 < 256);
    let d1 = dec_chars(o1);
    let d2 = dec_chars(o2);
    let d3 = dec_chars(o3);
    let d4 = dec_chars(o4);
    reveal_strlit(".");
    assert(v4_display(a as nat) =~= d1 + seq!['.'] + (d2 + seq!['.'] + (d3 + seq!['.'] + d4)));
    lemma_dec_lacks(o1);
    lemma_dec_lacks(o2);
    lemma_dec_lacks(o3);
    lemma_dec_lacks(o4);
    lemma_split_cons(d1, d2 + seq!['.'] + (d3 + seq!['.'] + d4), '.');
    lemma_split_cons(d2, d3 + seq!['.'] + d4, '.');
    lemma_split_cons(d3, d4, '.');
    lemma_split_absent(d4, '.');
    let parts = split(v4_display(a as nat), '.');
    assert(parts =~= seq![d1, d2, d3, d4]);
    lemma_dec_octet_back(o1);
    lemma_dec_octet_back(o2);
    lemma_dec_octet_back(o3);
    lemma_dec_octet_back(o4);
    assert(a / 16777216 * 16777216 + a / 65536 % 256 * 65536 + a / 256 % 256 * 256 + a % 256 == a) by (bit_vector);
    let v = v4_display(a as nat);
    assert forall|i: int| 0 <= i < v.len() implies v[i] != ':' by {
        if i < d1.len() {
            assert(v[i] == d1[i]);
        } else if i == d1.len() {
        } else if i < d1.len() + 1 + d2.len() {
            assert(v[i] == d2[i - d1.len() - 1]);
        } else if i == d1.len() + 1 + d2.len() {
        } else if i < d1.len() + 2 + d2.len() + d3.len() {
            assert(v[i] == d3[i - d1.len() - 2 - d2.len()]);
        } else if i == d1.len() + 2 + d2.len() + d3.len() {
        } else {
            assert(v[i] == d4[i - d1.len() - 3 - d2.len() - d3.len()]);
        }
    }
    assert(v[0] == d1[0]);
}

/// The hex texts of a list of groups.
pub open spec fn hex_texts(g: Seq<nat>) -> Seq<Seq<char>> {
    g.map_values(|x: nat| hex_chars(x))
}

/// No two consecutive colons.
pub open spec fn no_double_colon(s: Seq<char>) -> bool {
    forall|i: int| 0 <= i < s.len() - 1 ==> !(#[trigger] s[i] == ':' && s[i + 1] == ':')
}

/// The pieces of `join_hex(g)` between colons are the groups' hex texts.
proof fn lemma_join_hex_split(g: Seq<nat>)
    requires
        g.len() >= 1,
    ensures
        split(join_hex(g), ':') == hex_texts(g),
    decreases g.len(),
{
    if g.len() == 1 {
        lemma_hex_lacks(g[0]);
        lemma_split_absent(hex_chars(g[0]), ':');
        assert(hex_texts(g) =~= seq![hex_chars(g[0])]);
    } else {
        let p = g.drop_last();
        reveal_strlit(":");
        assert(join_hex(g) =~= join_hex(p) + seq![':'] + hex_chars(g.last()));
        lemma_hex_lacks(g.last());
        lemma_split_snoc(join_hex(p), hex_chars(g.last()), ':');
        lemma_join_hex_split(p);
        assert(hex_texts(g) =~= hex_texts(p).push(hex_chars(g.last())));
    }
}

/// Hex texts of groups parse back as the groups.
proof fn lemma_groups_of_hex(g: Seq<nat>, v4_last: bool)
    requires
        forall|i: int| 0 <= i < g.len() ==> #[trigger] g[i] < 65536,
    ensures
        groups_of(hex_texts(g), v4_last) == Some(g),
    decreases g.len(),
{
    let parts = hex_texts(g);
    if g.len() > 0 {
        lemma_hex_lacks(g[0]);
        lemma_split_absent(hex_chars(g[0]), '.');
        lemma_hex_group_back(g[0]);
        assert(parts[0] == hex_chars(g[0]));
        assert(parts.drop_first() =~= hex_texts(g.drop_first()));
        lemma_groups_of_hex(g.drop_first(), v4_last);
        assert(seq![g[0]] + g.drop_first() =~= g);
    } else {
        assert(parts =~= Seq::<Seq<char>>::empty());
    }
}

/// Joined hex groups hold no `::` and no `.`, and neither start nor end with `:`.
proof fn lemma_join_hex_shape(g: Seq<nat>)
    ensures
        no_double_colon(join_hex(g)),
        lacks(join_hex(g), '.'),
        g.len() > 0 ==> join_hex(g).len() > 0 && join_hex(g)[0] != ':' && join_hex(g).last() != ':',
        g.len() == 0 ==> join_hex(g).len() == 0,
    decreases g.len(),
{
    if g.len() == 1 {
        lemma_hex_lacks(g[0]);
        lemma_hex_chars(g[0]);
    } else if g.len() > 1 {
        let p = g.drop_last();
        let j = join_hex(p);
        let h = hex_chars(g.last());
        reveal_strlit(":");
        let s = join_hex(g);
        assert(s =~= j + seq![':'] + h);
        lemma_join_hex_shape(p);
        lemma_hex_lacks(g.last());
        lemma_hex_chars(g.last());
        assert forall|i: int| 0 <= i < s.len() - 1 implies !(#[trigger] s[i] == ':' && s[i + 1] == ':') by {
            if i < j.len() - 1 {
                assert(s[i] == j[i] && s[i + 1] == j[i + 1]);
            } else if i == j.len() - 1 {
                assert(s[i] == j.last());
            } else if i == j.len() {
                assert(s[i + 1] == h[0]);
            } else {
                assert(s[i] == h[i - j.len() - 1]);
            }
        }
        assert forall|i: int| 0 <= i < s.len() implies s[i] != '.' by {
            if i < j.len() {
                assert(s[i] == j[i]);
            } else if i > j.len() {
                assert(s[i] == h[i - j.len() - 1]);
            }
        }
        assert(s[0] == j[0]);
        assert(s.last() == h.last());
    }
}

/// Text without `::` has none to find.
proof fn lemma_find_double_colon_absent(s: Seq<char>)
    requires
        no_double_colon(s),
    ensures
        find_double_colon(s) is None,
    decreases s.len(),
{
    if s.len() >= 2 {
        assert(!(s[0] == ':' && s[1] == ':'));
        assert forall|i: int| 0 <= i < s.drop_first().len() - 1 implies !(#[trigger] s.drop_first()[i] == ':' && s.drop_first()[i + 1] == ':') by {
            assert(s.drop_first()[i] == s[i + 1]);
            assert(s.drop_first()[i + 1] == s[i + 2]);
        }
        lemma_find_double_colon_absent(s.drop_first());
    }
}

/// The first `::` of `x + y`, with none in `x`, `x` not ending in `:`, and `y`
/// starting with `::`, is where `y` starts.
proof fn lemma_find_double_colon_at(x: Seq<char>, y: Seq<char>)
    requires
        no_double_colon(x),
        x.len() > 0 ==> x.last() != ':',
        y.len() >= 2,
        y[0] == ':',
        y[1] == ':',
    ensures
        find_double_colon(x + y) == Some(x.len() as int),
    decreases x.len(),
{
    let s = x + y;
    if x.len() == 0 {
        assert(s =~= y);
    } else {
        assert(s[0] == x[0]);
        if x.len() == 1 {
            assert(s[0] == x.last());
        } else {
            assert(s[1] == x[1]);
        }
        let t = x.drop_first();
        assert(s.drop_first() =~= t + y);
        assert forall|i: int| 0 <= i < t.len() - 1 implies !(#[trigger] t[i] == ':' && t[i + 1] == ':') by {
            assert(t[i] == x[i + 1]);
            assert(t[i + 1] == x[i + 2]);
        }
        if t.len() > 0 {
            assert(t.last() == x.last());
        }
        lemma_find_double_colon_at(t, y);
    }
}

/// The groups of the low `n` groups of `x` denote `x` modulo `65536^n`.
proof fn lemma_low_groups_value(x: nat, n: nat)
    ensures
        groups_value(low_groups(x, n)) == x % pow_group(n as int),
    decreases n,
{
    if n == 0 {
        assert(low_groups(x, 0) =~= Seq::<nat>::empty());
    } else {
        lemma_low_groups_value(x / 65536, (n - 1) as nat);
        let p = low_groups(x / 65536, (n - 1) as nat);
        assert(low_groups(x, n).drop_last() =~= p);
        assert(low_groups(x, n).last() == x % 65536);
        lemma_pow_group_pos((n - 1) as int);
        vstd::arithmetic::div_mod::lemma_mod_breakdown(x as int, 65536, pow_group(n - 1) as int);
        assert(pow_group(n as int) == 65536 * pow_group(n - 1));
    }
}

proof fn lemma_pow_group_pos(n: int)
    ensures
        pow_group(n) > 0,
    decreases n,
{
    if n > 0 {
        lemma_pow_group_pos(n - 1);
    }
}

/// Scanning the groups from `i` on, with the current run of zeros ending at
/// `i` and the first longest run before it, finds a first longest run.
proof fn lemma_scan_zero_runs(g: Seq<nat>, i: int, cur_l: int, best_s: int, best_l: int) -> (r: (int, int))
    requires
        0 <= cur_l <= i <= g.len(),
        zero_run(g, i - cur_l, cur_l),
        i - cur_l == 0 || g[i - cur_l - 1] != 0,
        zero_run(g, best_s, best_l),
        best_s + best_l <= i,
        forall|s2: int, l2: int| #[trigger] zero_run(g, s2, l2) && s2 + l2 <= i ==> l2 < best_l || (l2 == best_l && best_s <= s2),
    ensures
        first_longest(g, r.0, r.1),
    decreases g.len() - i,
{
    if i == g.len() {
        (best_s, best_l)
    } else if g[i] == 0 {
        let cur_s = i - cur_l;
        assert forall|s2: int, l2: int| #[trigger] zero_run(g, s2, l2) && s2 + l2 == i + 1 && l2 > 0 implies s2 >= cur_s by {
            if s2 < cur_s {
                assert(g[cur_s - 1] == 0);
            }
        }
        if cur_l + 1 > best_l {
            lemma_scan_zero_runs(g, i + 1, cur_l + 1, cur_s, cur_l + 1)
        } else {
            lemma_scan_zero_runs(g, i + 1, cur_l + 1, best_s, best_l)
        }
    } else {
        assert forall|s2: int, l2: int| #[trigger] zero_run(g, s2, l2) && s2 + l2 == i + 1 implies l2 == 0 by {
            if l2 > 0 {
                assert(g[i] == 0);
            }
        }
        lemma_scan_zero_runs(g, i + 1, 0, best_s, best_l)
    }
}

/// Every list of groups has a first longest run of zeros.
proof fn lemma_longest_zero_run_exists(g: Seq<nat>)
    ensures
        first_longest(g, longest_zero_run(g).0, longest_zero_run(g).1),
{
    let r = lemma_scan_zero_runs(g, 0, 0, 0, 0);
    assert(first_longest(g, r.0, r.1));
}

/// The first piece of a split begins with the text's first character, unless
/// that character is the separator.
proof fn lemma_split_head(s: Seq<char>, c: char)
    requires
        s.len() > 0,
        s[0] != c,
    ensures
        split(s, c)[0].len() > 0,
        split(s, c)[0][0] == s[0],
{
    lemma_find_char_bounds(s, c);
}

/// Groups: eight of them, each below 65536.
pub open spec fn groups_wf(g: Seq<nat>) -> bool {
    g.len() == 8 && forall|i: int| 0 <= i < g.len() ==> #[trigger] g[i] < 65536
}

/// The text of an IPv4-mapped address parses back as its groups.
proof fn lemma_v6_mapped_back(g: Seq<nat>)
    requires
        groups_wf(g),
        is_v4_mapped(g),
    ensures
        ipv4_text("::ffff:"@ + v4_display(g[6] * 65536 + g[7])) is None,
        ipv6_groups("::ffff:"@ + v4_display(g[6] * 65536 + g[7])) == Some(g),
{
    let w = g[6] * 65536 + g[7];
    let t = "::ffff:"@ + v4_display(w);
    let a = w as u32;
    assert(a as nat == w);
    let v = v4_display(w);
    lemma_v4_back(a);
    reveal_strlit("::ffff:");
    let ffff = seq!['f', 'f', 'f', 'f'];
    assert(t =~= Seq::<char>::empty() + (seq![':', ':'] + (ffff + seq![':'] + v)));
    assert(no_double_colon(Seq::<char>::empty()));
    lemma_find_double_colon_at(Seq::<char>::empty(), seq![':', ':'] + (ffff + seq![':'] + v));
    assert(find_double_colon(t) == Some(0int));
    assert(t.take(0) =~= Seq::<char>::empty());
    assert(t.skip(2) =~= ffff + seq![':'] + v);
    assert(lacks(ffff, ':'));
    lemma_split_cons(ffff, v, ':');
    lemma_split_absent(v, ':');
    let parts = split(t.skip(2), ':');
    assert(parts =~= seq![ffff, v]);
    assert(((102u8) as char) as int == 102);
    assert(hex_digit(15) == 'f');
    reveal_with_fuel(hex_chars, 4);
    assert(hex_chars(65535) =~= ffff);
    lemma_hex_group_back(65535);
    assert(parts.drop_first() =~= seq![v]);
    assert(groups_of(seq![v], true) == Some(seq![w / 65536, w % 65536]));
    assert(groups_of(parts, true) == Some(seq![65535nat] + seq![w / 65536, w % 65536]));
    vstd::arithmetic::div_mod::lemma_fundamental_div_mod_converse(w as int, 65536, g[6] as int, g[7] as int);
    let tl = seq![65535nat, w / 65536, w % 65536];
    assert(Seq::<nat>::empty() + Seq::new(5, |i: int| 0nat) + tl =~= g);
    lemma_split_head(t, '.');
}

/// One side of a `::` parses back as its groups.
proof fn lemma_side_back(h: Seq<nat>, v4_last: bool)
    requires
        forall|i: int| 0 <= i < h.len() ==> #[trigger] h[i] < 65536,
    ensures
        side_groups(join_hex(h), v4_last) == Some(h),
{
    if h.len() > 0 {
        lemma_join_hex_shape(h);
        lemma_join_hex_split(h);
        lemma_groups_of_hex(h, v4_last);
    } else {
        assert(h =~= Seq::<nat>::empty());
    }
}

/// Two sides joined by `::` hold no `.`.
proof fn lemma_compressed_lacks_dot(h: Seq<nat>, tl: Seq<nat>)
    ensures
        lacks(join_hex(h) + "::"@ + join_hex(tl), '.'),
{
    let jh = join_hex(h);
    let jt = join_hex(tl);
    let t = jh + "::"@ + jt;
    reveal_strlit("::");
    lemma_join_hex_shape(h);
    lemma_join_hex_shape(tl);
    assert forall|i: int| 0 <= i < t.len() implies t[i] != '.' by {
        if i < jh.len() {
            assert(t[i] == jh[i]);
        } else if i >= jh.len() + 2 {
            assert(t[i] == jt[i - jh.len() - 2]);
        }
    }
}

/// The text with the run `g[s..s+l]` shortened to `::` parses back as the groups.
proof fn lemma_v6_compressed_back(g: Seq<nat>, s: int, l: int)
    requires
        groups_wf(g),
        zero_run(g, s, l),
        l > 1,
    ensures
        ipv4_text(join_hex(g.take(s)) + "::"@ + join_hex(g.skip(s + l))) is None,
        ipv6_groups(join_hex(g.take(s)) + "::"@ + join_hex(g.skip(s + l))) == Some(g),
{
    let h = g.take(s);
    let tl = g.skip(s + l);
    let jh = join_hex(h);
    let jt = join_hex(tl);
    let t = jh + "::"@ + jt;
    reveal_strlit("::");
    assert(t =~= jh + (seq![':', ':'] + jt));
    lemma_join_hex_shape(h);
    lemma_find_double_colon_at(jh, seq![':', ':'] + jt);
    assert(t.take(jh.len() as int) =~= jh);
    assert(t.skip(jh.len() as int + 2) =~= jt);
    lemma_side_back(h, false);
    lemma_side_back(tl, true);
    assert(h + Seq::new(l as nat, |i: int| 0nat) + tl =~= g);
    lemma_compressed_lacks_dot(h, tl);
    lemma_split_absent(t, '.');
}

/// The text of every group, uncompressed, parses back as the groups.
proof fn lemma_v6_plain_back(g: Seq<nat>)
    requires
        groups_wf(g),
    ensures
        ipv4_text(join_hex(g)) is None,
        ipv6_groups(join_hex(g)) == Some(g),
{
    let t = join_hex(g);
    lemma_join_hex_shape(g);
    lemma_find_double_colon_absent(t);
    lemma_join_hex_split(g);
    lemma_groups_of_hex(g, true);
    lemma_split_absent(t, '.');
}

/// IPv6 text parses back as the groups of its address, and is no IPv4 text.
proof fn lemma_v6_back(x: u128)
    ensures
        ipv4_text(v6_display(x as nat)) is None,
        ipv6_groups(v6_display(x as nat)) == Some(v6_groups(x as nat)),
        groups_value(v6_groups(x as nat)) == x,
{
    let g = v6_groups(x as nat);
    lemma_low_groups(x as nat, 8);
    lemma_low_groups_value(x as nat, 8);
    reveal_with_fuel(pow_group, 9);
    assert(pow_group(8) == 0x1_0000_0000_0000_0000_0000_0000_0000_0000nat);
    vstd::arithmetic::div_mod::lemma_small_mod(x as nat, pow_group(8));
    assert(groups_wf(g));
    if is_v4_mapped(g) {
        lemma_v6_mapped_back(g);
    } else {
        lemma_longest_zero_run_exists(g);
        let z = longest_zero_run(g);
        if z.1 > 1 {
            lemma_v6_compressed_back(g, z.0, z.1);
        } else {
            lemma_v6_plain_back(g);
        }
    }
}

/// Law: the text of an address parses back to that address — `ip_text`, the
/// grammar of std's `IpAddr::from_str`, undoes `ip_display`.
pub proof fn lemma_display_parses_back(ip: IpAddr)
    ensures
        ip_text(ip_display(ip)) == Some(ip),
{
    match ip {
        IpAddr::V4(a) => {
            lemma_v4_back(a);
        },
        IpAddr::V6(x) => {
            lemma_v6_back(x);
        },
    }
}

} // verus!
