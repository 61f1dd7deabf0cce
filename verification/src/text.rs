//! Character-level helpers shared by the parsers and renderers: whitespace
//! trimming, splitting, decimal parsing and decimal formatting, each with a
//! mathematical model over `Seq<char>`.

use vstd::prelude::*;

verus! {

/// Unicode `White_Space`, the set that `char::is_whitespace` and `str::trim` use.
pub open spec fn is_ws(c: char) -> bool {
    ||| ('\u{9}' <= c && c <= '\u{d}')
    ||| c == ' '
    ||| c == '\u{85}'
    ||| c == '\u{a0}'
    ||| c == '\u{1680}'
    ||| ('\u{2000}' <= c && c <= '\u{200a}')
    ||| c == '\u{2028}'
    ||| c == '\u{2029}'
    ||| c == '\u{202f}'
    ||| c == '\u{205f}'
    ||| c == '\u{3000}'
}

/// Drop leading whitespace.
pub open spec fn trim_start(s: Seq<char>) -> Seq<char>
    decreases s.len(),
{
    if s.len() > 0 && is_ws(s[0]) {
        trim_start(s.drop_first())
    } else {
        s
    }
}

/// Drop trailing whitespace.
pub open spec fn trim_end(s: Seq<char>) -> Seq<char>
    decreases s.len(),
{
    if s.len() > 0 && is_ws(s.last()) {
        trim_end(s.drop_last())
    } else {
        s
    }
}

/// `str::trim`: drop whitespace at both ends.
pub open spec fn trim(s: Seq<char>) -> Seq<char> {
    trim_end(trim_start(s))
}

/// Index of the first occurrence of `c` in `s`.
pub open spec fn find_char(s: Seq<char>, c: char) -> Option<int>
    decreases s.len(),
{
    if s.len() == 0 {
        None
    } else if s[0] == c {
        Some(0)
    } else {
        match find_char(s.drop_first(), c) {
            Some(i) => Some(i + 1),
            None => None,
        }
    }
}

/// `str::split` on a single character: the pieces between separators, in order.
pub open spec fn split(s: Seq<char>, c: char) -> Seq<Seq<char>>
    decreases s.len(),
{
    match find_char(s, c) {
        None => seq![s],
        Some(i) => if 0 <= i < s.len() {
            seq![s.take(i)] + split(s.skip(i + 1), c)
        } else {
            seq![s]
        },
    }
}

pub open spec fn is_digit(c: char) -> bool {
    '0' <= c && c <= '9'
}

pub open spec fn digit_val(c: char) -> nat {
    (c as int - '0' as int) as nat
}

pub open spec fn digit_char(d: nat) -> char {
    ((d + '0' as nat) as u8) as char
}

pub open spec fn all_digits(s: Seq<char>) -> bool {
    forall|i: int| 0 <= i < s.len() ==> is_digit(#[trigger] s[i])
}

/// The number that a string of decimal digits denotes.
pub open spec fn digits_value(s: Seq<char>) -> nat
    decreases s.len(),
{
    if s.len() == 0 {
        0
    } else {
        digits_value(s.drop_last()) * 10 + digit_val(s.last())
    }
}

/// What `u8::from_str` / `u32::from_str` accept: an optional `+`, then one or
/// more ASCII digits whose value does not exceed `max`.
pub open spec fn parse_unsigned(s: Seq<char>, max: nat) -> Option<nat> {
    let d = if s.len() > 0 && s[0] == '+' { s.drop_first() } else { s };
    if d.len() > 0 && all_digits(d) && digits_value(d) <= max {
        Some(digits_value(d))
    } else {
        None
    }
}

/// The decimal text of `n`, without leading zeros.
pub open spec fn dec_chars(n: nat) -> Seq<char>
    decreases n,
{
    if n < 10 {
        seq![digit_char(n)]
    } else {
        dec_chars(n / 10).push(digit_char(n % 10))
    }
}

/// `{:0w}` formatting: left-pad with zeros to width `w`.
pub open spec fn zero_pad(s: Seq<char>, w: nat) -> Seq<char> {
    if s.len() < w {
        Seq::new((w - s.len()) as nat, |i: int| '0') + s
    } else {
        s
    }
}

/// `{:<w}` formatting: right-pad with spaces to width `w`.
pub open spec fn space_pad(s: Seq<char>, w: nat) -> Seq<char> {
    if s.len() < w {
        s + Seq::new((w - s.len()) as nat, |i: int| ' ')
    } else {
        s
    }
}

/// The characters of a string slice, in order.
pub fn chars_of(s: &str) -> (r: Vec<char>)
    ensures
        r@ == s@,
{
    broadcast use vstd::string::group_string_axioms;

    let mut v: Vec<char> = Vec::new();
    for c in it: s.chars()
        invariant
            v@ == it.seq().take(it.index() as int),
    {
        v.push(c);
        assert(v@ =~= it.seq().take(it.index() + 1));
    }
    assert(v@ =~= s@);
    v
}

/// `String::push`: append one character.
#[verifier::external_body]
pub fn push_char(s: &mut String, c: char)
    ensures
        final(s)@ == old(s)@.push(c),
{
    s.push(c)
}

/// A `String` holding the characters `v[lo..hi]`.
pub fn string_of_range(v: &Vec<char>, lo: usize, hi: usize) -> (r: String)
    requires
        lo <= hi <= v@.len(),
    ensures
        r@ == v@.subrange(lo as int, hi as int),
{
    let mut s = String::new();
    let mut i: usize = lo;
    while i < hi
        invariant
            lo <= i <= hi <= v@.len(),
            s@ == v@.subrange(lo as int, i as int),
        decreases hi - i,
    {
        push_char(&mut s, v[i]);
        i = i + 1;
        assert(s@ =~= v@.subrange(lo as int, i as int));
    }
    s
}

/// Append `t` to `s`.
pub fn push_str(s: &mut String, t: &str)
    ensures
        final(s)@ == old(s)@ + t@,
{
    s.append(t);
}

/// Append the decimal text of `n`.
pub fn push_decimal(s: &mut String, n: u128)
    ensures
        final(s)@ == old(s)@ + dec_chars(n as nat),
    decreases n,
{
    if n >= 10 {
        push_decimal(s, n / 10);
    }
    let d = (n % 10) as u8;
    push_char(s, (d + 48u8) as char);
    proof {
        assert((d + 48u8) as char == digit_char((n % 10) as nat));
        if n >= 10 {
            assert(dec_chars(n as nat) == dec_chars((n / 10) as nat).push(digit_char((n % 10) as nat)));
        }
    }
    assert(final(s)@ =~= old(s)@ + dec_chars(n as nat));
}


/// `trim_start` of a non-empty sequence that starts with whitespace skips that character.
pub proof fn lemma_trim_start_step(v: Seq<char>, a: int, hi: int)
    requires
        0 <= a < hi <= v.len(),
        is_ws(v[a]),
    ensures
        trim_start(v.subrange(a, hi)) == trim_start(v.subrange(a + 1, hi)),
{
    assert(v.subrange(a, hi).drop_first() =~= v.subrange(a + 1, hi));
}

/// `trim_end` of a sequence that ends with whitespace skips that character.
pub proof fn lemma_trim_end_step(v: Seq<char>, lo: int, b: int)
    requires
        0 <= lo < b <= v.len(),
        is_ws(v[b - 1]),
    ensures
        trim_end(v.subrange(lo, b)) == trim_end(v.subrange(lo, b - 1)),
{
    assert(v.subrange(lo, b).drop_last() =~= v.subrange(lo, b - 1));
}

/// Bounds `[a, b)` of `v[lo..hi]` with the surrounding whitespace removed.
pub fn trim_bounds(v: &Vec<char>, lo: usize, hi: usize) -> (r: (usize, usize))
    requires
        lo <= hi <= v@.len(),
    ensures
        lo <= r.0 <= r.1 <= hi,
        v@.subrange(r.0 as int, r.1 as int) == trim(v@.subrange(lo as int, hi as int)),
{
    let mut a = lo;
    while a < hi && is_ws_exec(v[a])
        invariant
            lo <= a <= hi <= v@.len(),
            trim_start(v@.subrange(lo as int, hi as int)) == trim_start(v@.subrange(a as int, hi as int)),
        decreases hi - a,
    {
        proof { lemma_trim_start_step(v@, a as int, hi as int); }
        a = a + 1;
    }
    assert(trim_start(v@.subrange(a as int, hi as int)) == v@.subrange(a as int, hi as int));
    let mut b = hi;
    while b > a && is_ws_exec(v[b - 1])
        invariant
            lo <= a <= b <= hi <= v@.len(),
            trim_end(v@.subrange(a as int, hi as int)) == trim_end(v@.subrange(a as int, b as int)),
        decreases b - a,
    {
        proof { lemma_trim_end_step(v@, a as int, b as int); }
        b = b - 1;
    }
    assert(trim_end(v@.subrange(a as int, b as int)) == v@.subrange(a as int, b as int));
    (a, b)
}

/// `char::is_whitespace`.
pub fn is_ws_exec(c: char) -> (r: bool)
    ensures
        r == is_ws(c),
{
    ('\u{9}' <= c && c <= '\u{d}') || c == ' ' || c == '\u{85}' || c == '\u{a0}'
        || c == '\u{1680}' || ('\u{2000}' <= c && c <= '\u{200a}') || c == '\u{2028}'
        || c == '\u{2029}' || c == '\u{202f}' || c == '\u{205f}' || c == '\u{3000}'
}

/// A character that is not `c` is skipped by `find_char`.
pub proof fn lemma_find_step(v: Seq<char>, i: int, hi: int, c: char)
    requires
        0 <= i < hi <= v.len(),
        v[i] != c,
    ensures
        find_char(v.subrange(i, hi), c) == (match find_char(v.subrange(i + 1, hi), c) {
            Some(k) => Some(k + 1),
            None => None::<int>,
        }),
{
    assert(v.subrange(i, hi).drop_first() =~= v.subrange(i + 1, hi));
}

/// `find_char` only ever reports an index inside the sequence, holding `c`.
pub proof fn lemma_find_char_bounds(s: Seq<char>, c: char)
    ensures
        find_char(s, c) matches Some(k) ==> 0 <= k < s.len() && s[k] == c
            && forall|j: int| 0 <= j < k ==> s[j] != c,
        find_char(s, c) is None ==> forall|j: int| 0 <= j < s.len() ==> s[j] != c,
    decreases s.len(),
{
    if s.len() > 0 && s[0] != c {
        lemma_find_char_bounds(s.drop_first(), c);
        assert forall|j: int| 1 <= j < s.len() implies s[j] == s.drop_first()[j - 1] by {}
    }
}

/// Position (absolute) of the first `c` in `v[lo..hi]`.
pub fn find_in(v: &Vec<char>, lo: usize, hi: usize, c: char) -> (r: Option<usize>)
    requires
        lo <= hi <= v@.len(),
    ensures
        match r {
            Some(j) => lo <= j < hi && find_char(v@.subrange(lo as int, hi as int), c) == Some(
                j - lo,
            ),
            None => find_char(v@.subrange(lo as int, hi as int), c) is None,
        },
{
    let mut i = lo;
    while i < hi
        invariant
            lo <= i <= hi <= v@.len(),
            find_char(v@.subrange(lo as int, hi as int), c) == (match find_char(
                v@.subrange(i as int, hi as int),
                c,
            ) {
                Some(k) => Some(k + (i - lo)),
                None => None::<int>,
            }),
        decreases hi - i,
    {
        if v[i] == c {
            assert(find_char(v@.subrange(i as int, hi as int), c) == Some(0int));
            return Some(i);
        }
        proof { lemma_find_step(v@, i as int, hi as int, c); }
        i = i + 1;
    }
    assert(v@.subrange(i as int, hi as int).len() == 0);
    None
}

/// The value of `n` decimal digits is below `10^n`; adding one digit keeps the prefix value.
pub proof fn lemma_digits_value_prefix(s: Seq<char>, i: int)
    requires
        0 <= i <= s.len(),
    ensures
        digits_value(s.take(i)) <= digits_value(s),
    decreases s.len() - i,
{
    if i < s.len() {
        lemma_digits_value_prefix(s, i + 1);
        assert(s.take(i + 1).drop_last() =~= s.take(i));
        assert(digits_value(s.take(i)) <= digits_value(s.take(i + 1)));
    } else {
        assert(s.take(i) =~= s);
    }
}

/// Parse `v[lo..hi]` as an unsigned decimal with an optional `+`, as the std
/// `from_str` of an unsigned integer type whose maximum is `max`.
pub fn parse_unsigned_range(v: &Vec<char>, lo: usize, hi: usize, max: u64) -> (r: Option<u64>)
    requires
        lo <= hi <= v@.len(),
        max <= u32::MAX,
    ensures
        match r {
            Some(n) => parse_unsigned(v@.subrange(lo as int, hi as int), max as nat) == Some(n as nat),
            None => parse_unsigned(v@.subrange(lo as int, hi as int), max as nat) is None,
        },
{
    let ghost s = v@.subrange(lo as int, hi as int);
    let mut start = lo;
    if lo < hi && v[lo] == '+' {
        start = lo + 1;
    }
    let ghost d = v@.subrange(start as int, hi as int);
    assert(d =~= (if s.len() > 0 && s[0] == '+' { s.drop_first() } else { s }));
    if start == hi {
        return None;
    }
    let mut acc: u64 = 0;
    let mut i = start;
    while i < hi
        invariant
            start <= i <= hi <= v@.len(),
            start < hi,
            d == v@.subrange(start as int, hi as int),
            s == v@.subrange(lo as int, hi as int),
            d == (if s.len() > 0 && s[0] == '+' { s.drop_first() } else { s }),
            max <= u32::MAX,
            all_digits(d.take(i - start)),
            acc as nat == digits_value(d.take(i - start)),
            acc <= max,
        decreases hi - i,
    {
        let c = v[i];
        if !('0' <= c && c <= '9') {
            assert(d[i - start] == c);
            return None;
        }
        let dv = (c as u32 - '0' as u32) as u64;
        let next = acc * 10 + dv;
        proof {
            assert(d.take(i - start + 1).drop_last() =~= d.take(i - start));
            assert(d.take(i - start + 1).last() == c);
        }
        if next > max {
            proof {
                lemma_digits_value_prefix(d, i - start + 1);
                assert(d.take(i - start + 1).len() == i - start + 1);
            }
            return None;
        }
        acc = next;
        i = i + 1;
        assert(all_digits(d.take(i - start))) by {
            assert forall|j: int| 0 <= j < d.take(i - start).len() implies is_digit(
                #[trigger] d.take(i - start)[j],
            ) by {
                if j < i - start - 1 {
                    assert(d.take(i - start)[j] == d.take(i - start - 1)[j]);
                }
            }
        }
    }
    assert(d.take(i - start) =~= d);
    Some(acc)
}

/// Split law: the first piece of `v[start..n]` ends at the separator `j`.
pub proof fn lemma_split_at(v: Seq<char>, start: int, j: int, n: int, c: char)
    requires
        0 <= start <= j < n <= v.len(),
        find_char(v.subrange(start, n), c) == Some(j - start),
    ensures
        split(v.subrange(start, n), c) == seq![v.subrange(start, j)] + split(
            v.subrange(j + 1, n),
            c,
        ),
{
    assert(v.subrange(start, n).take(j - start) =~= v.subrange(start, j));
    assert(v.subrange(start, n).skip(j - start + 1) =~= v.subrange(j + 1, n));
}

/// The bounds of the pieces of `v[lo..hi]` between separators `c`, in order:
/// the exec counterpart of `split`.
pub fn split_bounds(v: &Vec<char>, lo: usize, hi: usize, c: char) -> (r: Vec<(usize, usize)>)
    requires
        lo <= hi <= v@.len(),
    ensures
        r@.len() == split(v@.subrange(lo as int, hi as int), c).len(),
        r@.len() >= 1,
        forall|i: int|
            0 <= i < r@.len() ==> lo <= (#[trigger] r@[i]).0 <= r@[i].1 <= hi && v@.subrange(
                r@[i].0 as int,
                r@[i].1 as int,
            ) == split(v@.subrange(lo as int, hi as int), c)[i],
{
    let mut out: Vec<(usize, usize)> = Vec::new();
    let ghost mut done: Seq<Seq<char>> = Seq::empty();
    let mut start = lo;
    loop
        invariant
            lo <= start <= hi <= v@.len(),
            out@.len() == done.len(),
            forall|i: int|
                0 <= i < out@.len() ==> lo <= (#[trigger] out@[i]).0 <= out@[i].1 <= hi && v@.subrange(
                    out@[i].0 as int,
                    out@[i].1 as int,
                ) == done[i],
            split(v@.subrange(lo as int, hi as int), c) == done + split(v@.subrange(start as int, hi as int), c),
        decreases hi - start,
    {
        match find_in(v, start, hi, c) {
            Some(j) => {
                proof {
                    lemma_split_at(v@, start as int, j as int, hi as int, c);
                    assert(done + (seq![v@.subrange(start as int, j as int)] + split(v@.subrange(j + 1, hi as int), c))
                        =~= done.push(v@.subrange(start as int, j as int)) + split(v@.subrange(j + 1, hi as int), c));
                    done = done.push(v@.subrange(start as int, j as int));
                }
                out.push((start, j));
                start = j + 1;
            },
            None => {
                proof {
                    assert(split(v@.subrange(start as int, hi as int), c) == seq![v@.subrange(start as int, hi as int)]);
                    done = done.push(v@.subrange(start as int, hi as int));
                    assert(done =~= split(v@.subrange(lo as int, hi as int), c));
                }
                out.push((start, hi));
                return out;
            },
        }
    }
}

/// `c` does not occur in `s`.
pub open spec fn lacks(s: Seq<char>, c: char) -> bool {
    forall|i: int| 0 <= i < s.len() ==> s[i] != c
}

/// A character that does not occur is not found.
pub proof fn lemma_find_char_absent(s: Seq<char>, c: char)
    requires
        lacks(s, c),
    ensures
        find_char(s, c) is None,
    decreases s.len(),
{
    if s.len() > 0 {
        assert(lacks(s.drop_first(), c));
        lemma_find_char_absent(s.drop_first(), c);
    }
}

/// In `x + y`, with no `c` in `x` and `y` starting with `c`, the first `c` is
/// where `y` starts.
pub proof fn lemma_find_char_at_join(x: Seq<char>, y: Seq<char>, c: char)
    requires
        lacks(x, c),
        y.len() > 0,
        y[0] == c,
    ensures
        find_char(x + y, c) == Some(x.len() as int),
    decreases x.len(),
{
    if x.len() > 0 {
        assert((x + y)[0] == x[0]);
        assert((x + y).drop_first() =~= x.drop_first() + y);
        assert(lacks(x.drop_first(), c));
        lemma_find_char_at_join(x.drop_first(), y, c);
    } else {
        assert(x + y =~= y);
    }
}

/// What `find_char` finds in `x` it finds in `x + y`.
pub proof fn lemma_find_char_keep(x: Seq<char>, y: Seq<char>, c: char)
    requires
        find_char(x, c) is Some,
    ensures
        find_char(x + y, c) == find_char(x, c),
    decreases x.len(),
{
    assert((x + y)[0] == x[0]);
    if x[0] != c {
        assert((x + y).drop_first() =~= x.drop_first() + y);
        lemma_find_char_keep(x.drop_first(), y, c);
    }
}

/// Text without the separator splits into itself.
pub proof fn lemma_split_absent(s: Seq<char>, c: char)
    requires
        lacks(s, c),
    ensures
        split(s, c) == seq![s],
{
    lemma_find_char_absent(s, c);
}

/// Splitting `x`, a separator, then `y`, with no separator in `x`.
pub proof fn lemma_split_cons(x: Seq<char>, y: Seq<char>, c: char)
    requires
        lacks(x, c),
    ensures
        split(x + seq![c] + y, c) == seq![x] + split(y, c),
{
    let s = x + seq![c] + y;
    assert(s =~= x + (seq![c] + y));
    lemma_find_char_at_join(x, seq![c] + y, c);
    assert(s.take(x.len() as int) =~= x);
    assert(s.skip(x.len() as int + 1) =~= y);
}

/// Splitting `x`, a separator, then `y`, with no separator in `y`.
pub proof fn lemma_split_snoc(x: Seq<char>, y: Seq<char>, c: char)
    requires
        lacks(y, c),
    ensures
        split(x + seq![c] + y, c) == split(x, c).push(y),
    decreases x.len(),
{
    let s = x + seq![c] + y;
    match find_char(x, c) {
        None => {
            lemma_find_char_bounds(x, c);
            lemma_split_cons(x, y, c);
            lemma_split_absent(y, c);
            assert(split(x, c) == seq![x]);
            assert(seq![x] + seq![y] =~= seq![x].push(y));
        },
        Some(i) => {
            lemma_find_char_bounds(x, c);
            lemma_find_char_keep(x, seq![c] + y, c);
            assert(s =~= x + (seq![c] + y));
            assert(s.take(i) =~= x.take(i));
            assert(s.skip(i + 1) =~= x.skip(i + 1) + seq![c] + y);
            lemma_split_snoc(x.skip(i + 1), y, c);
            assert(seq![x.take(i)] + split(x.skip(i + 1), c).push(y) =~= (seq![x.take(i)] + split(x.skip(i + 1), c)).push(y));
        },
    }
}

/// The digit character of `d < 10` is a digit worth `d`.
pub proof fn lemma_digit_char(d: nat)
    requires
        d < 10,
    ensures
        is_digit(digit_char(d)),
        digit_val(digit_char(d)) == d,
{
    let b: u8 = (d + 48) as u8;
    assert(b as nat == d + 48);
    assert((b as char) as int == b as int);
}

/// The decimal text of `n`: digits whose value is `n`, without a leading
/// zero, one to three of them below 1000.
pub proof fn lemma_dec_chars(n: nat)
    ensures
        all_digits(dec_chars(n)),
        digits_value(dec_chars(n)) == n,
        dec_chars(n).len() >= 1,
        dec_chars(n)[0] == '0' ==> n == 0,
        n < 10 ==> dec_chars(n).len() == 1,
        n < 100 ==> dec_chars(n).len() <= 2,
        n < 1000 ==> dec_chars(n).len() <= 3,
    decreases n,
{
    lemma_digit_char(n % 10);
    if n >= 10 {
        lemma_dec_chars(n / 10);
        let p = dec_chars(n / 10);
        let d = digit_char(n % 10);
        assert(dec_chars(n) == p.push(d));
        assert(p.push(d).drop_last() =~= p);
        assert(p.push(d)[0] == p[0]);
        assert forall|i: int| 0 <= i < p.push(d).len() implies is_digit(#[trigger] p.push(d)[i]) by {
            if i < p.len() {
                assert(p.push(d)[i] == p[i]);
            }
        }
        assert(p.push(d).last() == d);
        assert(digits_value(p.push(d)) == digits_value(p) * 10 + digit_val(d));
        assert((n / 10) * 10 + n % 10 == n) by {
            vstd::arithmetic::div_mod::lemma_fundamental_div_mod(n as int, 10);
        }
        assert(digit_val(d) == n % 10);
        assert(digits_value(dec_chars(n)) == n);
    } else {
        let c = digit_char(n);
        assert(dec_chars(n) == seq![c]);
        assert(seq![c].drop_last() =~= Seq::<char>::empty());
        assert(seq![c].last() == c);
        assert(digits_value(seq![c]) == digits_value(Seq::<char>::empty()) * 10 + digit_val(c));
        assert(digit_val(c) == n);
    }
}

/// Splitting `x`, a separator, then `y` splits `x` and `y` apart.
pub proof fn lemma_split_join(x: Seq<char>, y: Seq<char>, c: char)
    ensures
        split(x + seq![c] + y, c) == split(x, c) + split(y, c),
    decreases x.len(),
{
    let s = x + seq![c] + y;
    lemma_find_char_bounds(x, c);
    match find_char(x, c) {
        None => {
            lemma_split_cons(x, y, c);
            lemma_split_absent(x, c);
        },
        Some(i) => {
            lemma_find_char_keep(x, seq![c] + y, c);
            assert(s =~= x + (seq![c] + y));
            assert(s.take(i) =~= x.take(i));
            assert(s.skip(i + 1) =~= x.skip(i + 1) + seq![c] + y);
            lemma_split_join(x.skip(i + 1), y, c);
            assert(seq![x.take(i)] + (split(x.skip(i + 1), c) + split(y, c)) =~= (seq![x.take(i)] + split(x.skip(i + 1), c)) + split(y, c));
        },
    }
}

} // verus!
