//! The bind address: an IPv4 address and port held as plain values, and a
//! verified parser for its text form `a.b.c.d:port`. The parser is exact:
//! it accepts a string if and only if it is the canonical rendering of some
//! address, and then returns exactly that address.

use vstd::prelude::*;
use vstd::string::StrSliceExecFns;
use vstd::arithmetic::div_mod::lemma_fundamental_div_mod;
use vstd::arithmetic::div_mod::lemma_fundamental_div_mod_converse;

verus! {

/// An IPv4 socket address as plain values: four octets and a port.
#[derive(Clone, Copy, PartialEq, Eq, Structural, Debug)]
pub struct BindAddr {
    pub oct0: u8,
    pub oct1: u8,
    pub oct2: u8,
    pub oct3: u8,
    pub port: u16,
}

/// Whether `c` is a decimal digit.
pub open spec fn is_digit(c: char) -> bool {
    48 <= c as int <= 57
}

/// The numeric value of a digit character.
pub open spec fn digit_val(c: char) -> int {
    c as int - 48
}

/// The digit character for a value in 0..=9.
pub open spec fn digit_char(n: int) -> char {
    if n == 0 {
        '0'
    } else if n == 1 {
        '1'
    } else if n == 2 {
        '2'
    } else if n == 3 {
        '3'
    } else if n == 4 {
        '4'
    } else if n == 5 {
        '5'
    } else if n == 6 {
        '6'
    } else if n == 7 {
        '7'
    } else if n == 8 {
        '8'
    } else {
        '9'
    }
}

/// The canonical decimal rendering of `n`: most significant digit first,
/// no superfluous leading zero.
pub open spec fn spec_dec(n: nat) -> Seq<char>
    decreases n,
{
    if n < 10 {
        seq![digit_char(n as int)]
    } else {
        spec_dec(n / 10).push(digit_char((n % 10) as int))
    }
}

/// The numeric value of a digit string, read left to right.
pub open spec fn group_val(s: Seq<char>) -> int
    decreases s.len(),
{
    if s.len() == 0 {
        0
    } else {
        group_val(s.drop_last()) * 10 + digit_val(s.last())
    }
}

/// A canonical decimal group: nonempty, digits only, and no superfluous
/// leading zero.
pub open spec fn is_dec_group(s: Seq<char>) -> bool {
    &&& s.len() > 0
    &&& forall|i: int| 0 <= i < s.len() ==> is_digit(#[trigger] s[i])
    &&& s.len() > 1 ==> s[0] != '0'
}

/// The canonical text form of a bind address: the four octets and the port,
/// each in canonical decimal, separated by dots and one colon.
pub open spec fn spec_addr_str(b: BindAddr) -> Seq<char> {
    spec_dec(b.oct0 as nat) + seq!['.'] + spec_dec(b.oct1 as nat) + seq!['.'] + spec_dec(
        b.oct2 as nat,
    ) + seq!['.'] + spec_dec(b.oct3 as nat) + seq![':'] + spec_dec(b.port as nat)
}

/// Ten to the power `k`.
pub open spec fn pow10(k: nat) -> int
    decreases k,
{
    if k == 0 {
        1
    } else {
        10 * pow10((k - 1) as nat)
    }
}

proof fn lemma_pow10_pos(k: nat)
    ensures
        pow10(k) >= 1,
    decreases k,
{
    if k > 0 {
        lemma_pow10_pos((k - 1) as nat);
    }
}

proof fn lemma_pow10_mono(j: nat, k: nat)
    requires
        j <= k,
    ensures
        pow10(j) <= pow10(k),
        pow10(j) >= 1,
    decreases k,
{
    lemma_pow10_pos(j);
    if j < k {
        lemma_pow10_mono(j, (k - 1) as nat);
    }
}

/// The rendering of any value is a canonical decimal group and reads back
/// to that value.
proof fn lemma_dec_props(n: nat)
    ensures
        is_dec_group(spec_dec(n)),
        group_val(spec_dec(n)) == n,
        n >= 1 ==> spec_dec(n)[0] != '0',
    decreases n,
{
    if n < 10 {
        let s = spec_dec(n);
        assert(s =~= seq![digit_char(n as int)]);
        assert(s.drop_last() =~= Seq::<char>::empty());
        assert(group_val(Seq::<char>::empty()) == 0);
        assert(s.last() == digit_char(n as int));
        assert(is_digit(digit_char(n as int)));
        assert(digit_val(digit_char(n as int)) == n);
        assert(group_val(s) == group_val(s.drop_last()) * 10 + digit_val(s.last()));
    } else {
        lemma_dec_props(n / 10);
        lemma_fundamental_div_mod(n as int, 10);
        let t = spec_dec(n / 10);
        let d = digit_char((n % 10) as int);
        let s = spec_dec(n);
        assert(s == t.push(d));
        assert(s.drop_last() =~= t);
        assert(s.last() == d);
        assert(forall|i: int| 0 <= i < t.len() ==> #[trigger] s[i] == t[i]);
        assert(is_digit(d));
        assert(digit_val(d) == n % 10);
        assert(s.len() >= 2);
        assert(group_val(s) == group_val(s.drop_last()) * 10 + digit_val(s.last()));
        assert(group_val(s) == (n / 10) * 10 + (n % 10));
        assert(s[0] == t[0]);
        assert(n / 10 >= 1);
    }
}

/// Bounds on the value of a digit string by its length.
proof fn lemma_group_val_bounds(s: Seq<char>)
    requires
        s.len() > 0,
        forall|i: int| 0 <= i < s.len() ==> is_digit(#[trigger] s[i]),
    ensures
        0 <= group_val(s) < pow10(s.len()),
        s[0] != '0' ==> group_val(s) >= pow10((s.len() - 1) as nat),
    decreases s.len(),
{
    if s.len() == 1 {
        assert(s.last() == s[0]);
        assert(group_val(s) == group_val(s.drop_last()) * 10 + digit_val(s.last()));
        assert(s.drop_last().len() == 0);
        if s[0] != '0' {
            assert(digit_val(s[0]) >= 1);
        }
    } else {
        let t = s.drop_last();
        assert(t.len() == s.len() - 1);
        assert(forall|i: int| 0 <= i < t.len() ==> #[trigger] t[i] == s[i]);
        lemma_group_val_bounds(t);
        let v = group_val(t);
        let d = digit_val(s.last());
        assert(is_digit(s[s.len() - 1]));
        assert(0 <= d <= 9);
        assert(pow10(s.len()) == 10 * pow10((s.len() - 1) as nat));
        assert(group_val(s) == v * 10 + d);
        if s[0] != '0' {
            assert(t[0] == s[0]);
            assert(v >= pow10((t.len() - 1) as nat));
            assert(pow10((s.len() - 1) as nat) == 10 * pow10((s.len() - 2) as nat));
        }
    }
}

/// A canonical decimal group is the rendering of its own value.
proof fn lemma_group_canon(s: Seq<char>)
    requires
        is_dec_group(s),
    ensures
        0 <= group_val(s),
        spec_dec(group_val(s) as nat) == s,
    decreases s.len(),
{
    lemma_group_val_bounds(s);
    let v = group_val(s);
    if s.len() == 1 {
        assert(s.last() == s[0]);
        assert(s.drop_last() =~= Seq::<char>::empty());
        assert(group_val(Seq::<char>::empty()) == 0);
        assert(v == group_val(s.drop_last()) * 10 + digit_val(s.last()));
        assert(v == digit_val(s[0]));
        assert(v < 10);
        assert(digit_char(digit_val(s[0])) == s[0]);
        assert(spec_dec(v as nat) =~= s);
    } else {
        let t = s.drop_last();
        assert(t.len() == s.len() - 1 >= 1);
        assert(forall|i: int| 0 <= i < t.len() ==> #[trigger] t[i] == s[i]);
        assert(is_dec_group(t));
        lemma_group_canon(t);
        lemma_group_val_bounds(t);
        let w = group_val(t);
        let d = digit_val(s.last());
        assert(is_digit(s[s.len() - 1]));
        assert(0 <= d <= 9);
        assert(v == w * 10 + d);
        assert(w >= 1);
        lemma_fundamental_div_mod_converse(v, 10, w, d);
        assert(v / 10 == w);
        assert(v % 10 == d);
        assert(v >= 10);
        assert(spec_dec(v as nat) == spec_dec((v / 10) as nat).push(digit_char(v % 10)));
        assert(digit_char(digit_val(s.last())) == s.last());
        assert(spec_dec(v as nat) == t.push(s.last()));
        assert(t.push(s.last()) =~= s);
    }
}

/// Reads `c` as a decimal digit.
fn digit_of(c: char) -> (r: Option<u8>)
    ensures
        r matches Some(d) ==> is_digit(c) && d == digit_val(c),
        r is None ==> !is_digit(c),
{
    let u = c as u32;
    if 48 <= u && u <= 57 {
        Some((u - 48) as u8)
    } else {
        None
    }
}

/// Scans the maximal run of digits beginning at `start` and reads it as a
/// canonical decimal group bounded by `max`. Returns where the run ends,
/// and the group's value where the run is such a group with value at most
/// `max`, `None` otherwise.
fn scan_group(s: &str, start: usize, max: u32) -> (r: (usize, Option<u32>))
    requires
        start <= s@.len(),
        max <= 65535,
    ensures
        ({
            let end = r.0;
            let sub = s@.subrange(start as int, end as int);
            &&& start <= end <= s@.len()
            &&& forall|i: int| start <= i < end ==> is_digit(#[trigger] s@[i])
            &&& (end == s@.len() || !is_digit(s@[end as int]))
            &&& match r.1 {
                Some(v) => is_dec_group(sub) && v == group_val(sub) && v <= max,
                None => !(is_dec_group(sub) && group_val(sub) <= max),
            }
        }),
{
    let len = s.unicode_len();
    let mut end = start;
    let mut stop = false;
    while !stop && end < len
        invariant
            start <= end <= len,
            len == s@.len(),
            forall|i: int| start <= i < end ==> is_digit(#[trigger] s@[i]),
            stop ==> end < len && !is_digit(s@[end as int]),
        decreases len - end + (if stop {
            0int
        } else {
            1int
        }),
    {
        if digit_of(s.get_char(end)).is_some() {
            end = end + 1;
        } else {
            stop = true;
        }
    }
    if end == start {
        proof {
            assert(s@.subrange(start as int, end as int).len() == 0);
        }
        return (end, None);
    }
    let first = s.get_char(start);
    if first == '0' && end - start > 1 {
        proof {
            assert(s@.subrange(start as int, end as int)[0] == '0');
            assert(s@.subrange(start as int, end as int).len() > 1);
        }
        return (end, None);
    }
    if end - start > 5 {
        proof {
            let sub = s@.subrange(start as int, end as int);
            assert(sub[0] == s@[start as int]);
            assert(sub[0] != '0');
            lemma_group_val_bounds(sub);
            lemma_pow10_mono(5, (sub.len() - 1) as nat);
            reveal_with_fuel(pow10, 7);
            assert(pow10(5) == 100000);
            assert(group_val(sub) > 65535);
        }
        return (end, None);
    }
    let mut v: u32 = 0;
    let mut j = start;
    while j < end
        invariant
            start <= j <= end <= len,
            len == s@.len(),
            end - start <= 5,
            forall|i: int| start <= i < end ==> is_digit(#[trigger] s@[i]),
            v == group_val(s@.subrange(start as int, j as int)),
            v < pow10((j - start) as nat),
        decreases end - j,
    {
        let c = s.get_char(j);
        let d: u8 = match digit_of(c) {
            Some(d) => d,
            None => unreached(),
        };
        proof {
            let subj = s@.subrange(start as int, j as int);
            let subj1 = s@.subrange(start as int, j + 1);
            assert(subj1.drop_last() =~= subj);
            assert(subj1.last() == s@[j as int]);
            assert(subj1.len() > 0);
            assert(group_val(subj1) == group_val(subj) * 10 + digit_val(s@[j as int]));
            lemma_pow10_mono(((j - start) as nat), 4);
            reveal_with_fuel(pow10, 7);
            assert(pow10(4) == 10000);
            assert(v <= 9999);
        }
        v = v * 10 + d as u32;
        j += 1;
    }
    proof {
        let sub = s@.subrange(start as int, end as int);
        lemma_pow10_mono(((end - start) as nat), 5);
        reveal_with_fuel(pow10, 7);
        assert(v < 100000);
        if sub.len() > 1 {
            assert(sub[0] == s@[start as int]);
            assert(sub[0] != '0');
        }
        assert(is_dec_group(sub));
    }
    if v > max {
        (end, None)
    } else {
        (end, Some(v))
    }
}

/// Two maximal digit runs from the same start end at the same place.
proof fn lemma_run_end_unique(s: Seq<char>, start: int, e1: int, e2: int)
    requires
        0 <= start,
        start <= e1 <= s.len(),
        start <= e2 <= s.len(),
        forall|i: int| start <= i < e1 ==> is_digit(#[trigger] s[i]),
        e1 == s.len() || !is_digit(s[e1]),
        forall|i: int| start <= i < e2 ==> is_digit(#[trigger] s[i]),
        e2 == s.len() || !is_digit(s[e2]),
    ensures
        e1 == e2,
{
    if e1 < e2 {
        assert(is_digit(s[e1]));
    } else if e2 < e1 {
        assert(is_digit(s[e2]));
    }
}

/// How the rendering of an address decomposes: five canonical decimal
/// groups with the three dots and the colon between them.
proof fn lemma_render_decomp(s: Seq<char>, b: BindAddr)
    requires
        s == spec_addr_str(b),
    ensures
        ({
            let g0 = spec_dec(b.oct0 as nat);
            let g1 = spec_dec(b.oct1 as nat);
            let g2 = spec_dec(b.oct2 as nat);
            let g3 = spec_dec(b.oct3 as nat);
            let g4 = spec_dec(b.port as nat);
            let q0 = g0.len() as int;
            let q1 = q0 + 1 + g1.len();
            let q2 = q1 + 1 + g2.len();
            let q3 = q2 + 1 + g3.len();
            &&& s.len() == q3 + 1 + g4.len()
            &&& s.subrange(0, q0) == g0
            &&& s[q0] == '.'
            &&& s.subrange(q0 + 1, q1) == g1
            &&& s[q1] == '.'
            &&& s.subrange(q1 + 1, q2) == g2
            &&& s[q2] == '.'
            &&& s.subrange(q2 + 1, q3) == g3
            &&& s[q3] == ':'
            &&& s.subrange(q3 + 1, s.len() as int) == g4
        }),
{
    let g0 = spec_dec(b.oct0 as nat);
    let g1 = spec_dec(b.oct1 as nat);
    let g2 = spec_dec(b.oct2 as nat);
    let g3 = spec_dec(b.oct3 as nat);
    let g4 = spec_dec(b.port as nat);
    let q0 = g0.len() as int;
    let q1 = q0 + 1 + g1.len();
    let q2 = q1 + 1 + g2.len();
    let q3 = q2 + 1 + g3.len();
    assert(s.subrange(0, q0) =~= g0);
    assert(s.subrange(q0 + 1, q1) =~= g1);
    assert(s.subrange(q1 + 1, q2) =~= g2);
    assert(s.subrange(q2 + 1, q3) =~= g3);
    assert(s.subrange(q3 + 1, s.len() as int) =~= g4);
}

/// The text form of an address is unambiguous: no two distinct addresses
/// render alike, so a string is the rendering of at most one address.
#[verifier::rlimit(100)]
pub proof fn lemma_addr_str_unambiguous(b1: BindAddr, b2: BindAddr)
    requires
        spec_addr_str(b1) == spec_addr_str(b2),
    ensures
        b1 == b2,
{
    let s = spec_addr_str(b1);
    lemma_render_decomp(s, b1);
    lemma_render_decomp(s, b2);
    let a0 = spec_dec(b1.oct0 as nat);
    let a1 = spec_dec(b1.oct1 as nat);
    let a2 = spec_dec(b1.oct2 as nat);
    let a3 = spec_dec(b1.oct3 as nat);
    let a4 = spec_dec(b1.port as nat);
    let c0 = spec_dec(b2.oct0 as nat);
    let c1 = spec_dec(b2.oct1 as nat);
    let c2 = spec_dec(b2.oct2 as nat);
    let c3 = spec_dec(b2.oct3 as nat);
    let c4 = spec_dec(b2.port as nat);
    lemma_dec_props(b1.oct0 as nat);
    lemma_dec_props(b1.oct1 as nat);
    lemma_dec_props(b1.oct2 as nat);
    lemma_dec_props(b1.oct3 as nat);
    lemma_dec_props(b1.port as nat);
    lemma_dec_props(b2.oct0 as nat);
    lemma_dec_props(b2.oct1 as nat);
    lemma_dec_props(b2.oct2 as nat);
    lemma_dec_props(b2.oct3 as nat);
    lemma_dec_props(b2.port as nat);
    assert(!is_digit('.'));
    assert(!is_digit(':'));
    let p0 = a0.len() as int;
    let q0 = c0.len() as int;
    assert forall|i: int| 0 <= i < p0 implies is_digit(#[trigger] s[i]) by {
        assert(s.subrange(0, p0)[i] == s[i]);
        assert(is_digit(a0[i]));
    }
    assert forall|i: int| 0 <= i < q0 implies is_digit(#[trigger] s[i]) by {
        assert(s.subrange(0, q0)[i] == s[i]);
        assert(is_digit(c0[i]));
    }
    lemma_run_end_unique(s, 0, p0, q0);
    assert(a0 == c0);
    assert(b1.oct0 == b2.oct0);
    let p1 = p0 + 1 + a1.len();
    let q1 = p0 + 1 + c1.len();
    assert forall|i: int| p0 + 1 <= i < p1 implies is_digit(#[trigger] s[i]) by {
        assert(s.subrange(p0 + 1, p1)[i - (p0 + 1)] == s[i]);
        assert(is_digit(a1[i - (p0 + 1)]));
    }
    assert forall|i: int| p0 + 1 <= i < q1 implies is_digit(#[trigger] s[i]) by {
        assert(s.subrange(p0 + 1, q1)[i - (p0 + 1)] == s[i]);
        assert(is_digit(c1[i - (p0 + 1)]));
    }
    lemma_run_end_unique(s, p0 + 1, p1, q1);
    assert(a1 == c1);
    assert(b1.oct1 == b2.oct1);
    let p2 = p1 + 1 + a2.len();
    let q2 = p1 + 1 + c2.len();
    assert forall|i: int| p1 + 1 <= i < p2 implies is_digit(#[trigger] s[i]) by {
        assert(s.subrange(p1 + 1, p2)[i - (p1 + 1)] == s[i]);
        assert(is_digit(a2[i - (p1 + 1)]));
    }
    assert forall|i: int| p1 + 1 <= i < q2 implies is_digit(#[trigger] s[i]) by {
        assert(s.subrange(p1 + 1, q2)[i - (p1 + 1)] == s[i]);
        assert(is_digit(c2[i - (p1 + 1)]));
    }
    lemma_run_end_unique(s, p1 + 1, p2, q2);
    assert(a2 == c2);
    assert(b1.oct2 == b2.oct2);
    let p3 = p2 + 1 + a3.len();
    let q3 = p2 + 1 + c3.len();
    assert forall|i: int| p2 + 1 <= i < p3 implies is_digit(#[trigger] s[i]) by {
        assert(s.subrange(p2 + 1, p3)[i - (p2 + 1)] == s[i]);
        assert(is_digit(a3[i - (p2 + 1)]));
    }
    assert forall|i: int| p2 + 1 <= i < q3 implies is_digit(#[trigger] s[i]) by {
        assert(s.subrange(p2 + 1, q3)[i - (p2 + 1)] == s[i]);
        assert(is_digit(c3[i - (p2 + 1)]));
    }
    lemma_run_end_unique(s, p2 + 1, p3, q3);
    assert(a3 == c3);
    assert(b1.oct3 == b2.oct3);
    assert(a4 == s.subrange(p3 + 1, s.len() as int));
    assert(c4 == s.subrange(p3 + 1, s.len() as int));
    assert(b1.port == b2.port);
}

/// What one scan of a digit run from `start` established.
spec fn scan_facts(s: Seq<char>, start: int, end: int, v: Option<u32>, max: int) -> bool {
    &&& 0 <= start <= end <= s.len()
    &&& forall|i: int| start <= i < end ==> is_digit(#[trigger] s[i])
    &&& (end == s.len() || !is_digit(s[end]))
    &&& match v {
        Some(x) => is_dec_group(s.subrange(start, end)) && x == group_val(
            s.subrange(start, end),
        ) && x <= max,
        None => !(is_dec_group(s.subrange(start, end)) && group_val(s.subrange(start, end))
            <= max),
    }
}

/// Where the five scans and four separator checks do not all succeed, the
/// input is the rendering of no address.
proof fn lemma_no_render(
    s: Seq<char>,
    e0: int,
    v0: Option<u32>,
    sep0: bool,
    st1: int,
    e1: int,
    v1: Option<u32>,
    sep1: bool,
    st2: int,
    e2: int,
    v2: Option<u32>,
    sep2: bool,
    st3: int,
    e3: int,
    v3: Option<u32>,
    sep3: bool,
    st4: int,
    e4: int,
    v4: Option<u32>,
)
    requires
        scan_facts(s, 0, e0, v0, 255),
        sep0 == (e0 < s.len() && s[e0] == '.'),
        st1 == if sep0 {
            e0 + 1
        } else {
            e0
        },
        scan_facts(s, st1, e1, v1, 255),
        sep1 == (e1 < s.len() && s[e1] == '.'),
        st2 == if sep1 {
            e1 + 1
        } else {
            e1
        },
        scan_facts(s, st2, e2, v2, 255),
        sep2 == (e2 < s.len() && s[e2] == '.'),
        st3 == if sep2 {
            e2 + 1
        } else {
            e2
        },
        scan_facts(s, st3, e3, v3, 255),
        sep3 == (e3 < s.len() && s[e3] == ':'),
        st4 == if sep3 {
            e3 + 1
        } else {
            e3
        },
        scan_facts(s, st4, e4, v4, 65535),
        !(v0 is Some && v1 is Some && v2 is Some && v3 is Some && v4 is Some && sep0 && sep1
            && sep2 && sep3 && e4 == s.len()),
    ensures
        forall|b: BindAddr| s != spec_addr_str(b),
{
    assert forall|b: BindAddr| s != spec_addr_str(b) by {
        if s == spec_addr_str(b) {
            lemma_render_decomp(s, b);
            let g0 = spec_dec(b.oct0 as nat);
            let g1 = spec_dec(b.oct1 as nat);
            let g2 = spec_dec(b.oct2 as nat);
            let g3 = spec_dec(b.oct3 as nat);
            let g4 = spec_dec(b.port as nat);
            let q0 = g0.len() as int;
            let q1 = q0 + 1 + g1.len();
            let q2 = q1 + 1 + g2.len();
            let q3 = q2 + 1 + g3.len();
            lemma_dec_props(b.oct0 as nat);
            lemma_dec_props(b.oct1 as nat);
            lemma_dec_props(b.oct2 as nat);
            lemma_dec_props(b.oct3 as nat);
            lemma_dec_props(b.port as nat);
            assert(!is_digit('.'));
            assert(!is_digit(':'));
            assert forall|i: int| 0 <= i < q0 implies is_digit(#[trigger] s[i]) by {
                assert(s.subrange(0, q0)[i] == s[i]);
                assert(is_digit(g0[i]));
            }
            lemma_run_end_unique(s, 0, e0, q0);
            assert(e0 == q0);
            assert(is_dec_group(s.subrange(0, e0)));
            assert(group_val(s.subrange(0, e0)) == b.oct0 as int);
            assert(v0 is Some);
            assert(sep0);
            assert(st1 == q0 + 1);
            assert forall|i: int| st1 <= i < q1 implies is_digit(#[trigger] s[i]) by {
                assert(s.subrange(st1, q1)[i - st1] == s[i]);
                assert(is_digit(g1[i - st1]));
            }
            lemma_run_end_unique(s, st1, e1, q1);
            assert(e1 == q1);
            assert(s.subrange(st1, e1) == g1);
            assert(v1 is Some);
            assert(sep1);
            assert(st2 == q1 + 1);
            assert forall|i: int| st2 <= i < q2 implies is_digit(#[trigger] s[i]) by {
                assert(s.subrange(st2, q2)[i - st2] == s[i]);
                assert(is_digit(g2[i - st2]));
            }
            lemma_run_end_unique(s, st2, e2, q2);
            assert(e2 == q2);
            assert(s.subrange(st2, e2) == g2);
            assert(v2 is Some);
            assert(sep2);
            assert(st3 == q2 + 1);
            assert forall|i: int| st3 <= i < q3 implies is_digit(#[trigger] s[i]) by {
                assert(s.subrange(st3, q3)[i - st3] == s[i]);
                assert(is_digit(g3[i - st3]));
            }
            lemma_run_end_unique(s, st3, e3, q3);
            assert(e3 == q3);
            assert(s.subrange(st3, e3) == g3);
            assert(v3 is Some);
            assert(sep3);
            assert(st4 == q3 + 1);
            assert forall|i: int| st4 <= i < s.len() implies is_digit(#[trigger] s[i]) by {
                assert(s.subrange(st4, s.len() as int)[i - st4] == s[i]);
                assert(is_digit(g4[i - st4]));
            }
            lemma_run_end_unique(s, st4, e4, s.len() as int);
            assert(e4 == s.len());
            assert(s.subrange(st4, e4) == g4);
            assert(v4 is Some);
            assert(false);
        }
    }
}

/// Parses the text form of a bind address. The contract is exact: the
/// result is `Some(b)` if and only if the input is the canonical rendering
/// of `b`, and `None` where the input renders no address at all.
#[verifier::rlimit(100)]
pub fn parse_bind_addr(s: &str) -> (r: Option<BindAddr>)
    ensures
        r matches Some(b) ==> s@ == spec_addr_str(b),
        r is None ==> forall|b: BindAddr| s@ != spec_addr_str(b),
{
    let len = s.unicode_len();
    let (e0, v0) = scan_group(s, 0, 255);
    let sep0: bool = if e0 < len {
        s.get_char(e0) == '.'
    } else {
        false
    };
    let st1: usize = if sep0 {
        e0 + 1
    } else {
        e0
    };
    let (e1, v1) = scan_group(s, st1, 255);
    let sep1: bool = if e1 < len {
        s.get_char(e1) == '.'
    } else {
        false
    };
    let st2: usize = if sep1 {
        e1 + 1
    } else {
        e1
    };
    let (e2, v2) = scan_group(s, st2, 255);
    let sep2: bool = if e2 < len {
        s.get_char(e2) == '.'
    } else {
        false
    };
    let st3: usize = if sep2 {
        e2 + 1
    } else {
        e2
    };
    let (e3, v3) = scan_group(s, st3, 255);
    let sep3: bool = if e3 < len {
        s.get_char(e3) == ':'
    } else {
        false
    };
    let st4: usize = if sep3 {
        e3 + 1
    } else {
        e3
    };
    let (e4, v4) = scan_group(s, st4, 65535);
    if sep0 && sep1 && sep2 && sep3 && e4 == len {
        match (v0, v1, v2, v3, v4) {
            (Some(a0), Some(a1), Some(a2), Some(a3), Some(p)) => {
                let b = BindAddr {
                    oct0: a0 as u8,
                    oct1: a1 as u8,
                    oct2: a2 as u8,
                    oct3: a3 as u8,
                    port: p as u16,
                };
                proof {
                    let sub0 = s@.subrange(0, e0 as int);
                    let sub1 = s@.subrange(st1 as int, e1 as int);
                    let sub2 = s@.subrange(st2 as int, e2 as int);
                    let sub3 = s@.subrange(st3 as int, e3 as int);
                    let sub4 = s@.subrange(st4 as int, e4 as int);
                    lemma_group_canon(sub0);
                    lemma_group_canon(sub1);
                    lemma_group_canon(sub2);
                    lemma_group_canon(sub3);
                    lemma_group_canon(sub4);
                    assert(spec_dec(b.oct0 as nat) == sub0);
                    assert(spec_dec(b.oct1 as nat) == sub1);
                    assert(spec_dec(b.oct2 as nat) == sub2);
                    assert(spec_dec(b.oct3 as nat) == sub3);
                    assert(spec_dec(b.port as nat) == sub4);
                    assert(s@ =~= spec_addr_str(b));
                }
                Some(b)
            },
            _ => {
                proof {
                    lemma_no_render(
                        s@,
                        e0 as int,
                        v0,
                        sep0,
                        st1 as int,
                        e1 as int,
                        v1,
                        sep1,
                        st2 as int,
                        e2 as int,
                        v2,
                        sep2,
                        st3 as int,
                        e3 as int,
                        v3,
                        sep3,
                        st4 as int,
                        e4 as int,
                        v4,
                    );
                }
                None
            },
        }
    } else {
        proof {
            lemma_no_render(
                s@,
                e0 as int,
                v0,
                sep0,
                st1 as int,
                e1 as int,
                v1,
                sep1,
                st2 as int,
                e2 as int,
                v2,
                sep2,
                st3 as int,
                e3 as int,
                v3,
                sep3,
                st4 as int,
                e4 as int,
                v4,
            );
        }
        None
    }
}

} // verus!
