//! Reading a weight from decimal text, in weight units.
//!
//! A weight is written as a decimal number: an optional `+`, digits with an
//! optional point (at least one digit in all), and an optional exponent (`e`
//! or `E`, an optional sign, digits). Its value is rounded to the nearest
//! weight unit, halves upward. Negative numbers, infinities and NaN are no
//! weights.
use vstd::prelude::*;
use vstd::arithmetic::div_mod::lemma_fundamental_div_mod_converse;
use crate::score::MAX_WEIGHT;

verus! {

/// A decimal digit.
pub open spec fn is_digit(c: char) -> bool {
    '0' <= c && c <= '9'
}

/// The number that the digits `s` spell (zero for no digits).
pub open spec fn digits_value(s: Seq<char>) -> int
    decreases s.len(),
{
    if s.len() == 0 {
        0
    } else {
        digits_value(s.drop_last()) * 10 + (s.last() as int - '0' as int)
    }
}

/// Ten to the power `n`.
pub open spec fn pow10(n: nat) -> int
    decreases n,
{
    if n == 0 {
        1
    } else {
        10 * pow10((n - 1) as nat)
    }
}

/// The end of the run of digits in `t` that starts at `i`.
pub open spec fn run_end(t: Seq<char>, i: int) -> int
    decreases t.len() - i,
{
    if i < 0 || i >= t.len() {
        t.len() as int
    } else if is_digit(t[i]) {
        run_end(t, i + 1)
    } else {
        i
    }
}

/// `dv * 10^s` rounded to the nearest integer, halves upward, where it is at
/// most `MAX_WEIGHT`.
pub open spec fn units_of(dv: int, s: int) -> Option<u64> {
    let u = if s >= 0 {
        dv * pow10(s as nat)
    } else {
        (dv + 5 * pow10((-s - 1) as nat)) / pow10((-s) as nat)
    };
    if 0 <= u <= MAX_WEIGHT {
        Some(u as u64)
    } else {
        None
    }
}

/// The digits of a number written with integer digits `t[a..b]` and decimals `t[c..d]`.
pub open spec fn mantissa(t: Seq<char>, a: int, b: int, c: int, d: int) -> Seq<char> {
    t.subrange(a, b) + t.subrange(c, d)
}

/// Where the parts of a decimal number stand in a text: integer digits
/// `a..b`, decimals `c..d`, exponent digits `g..h`.
pub struct Layout {
    pub a: int,
    pub b: int,
    pub c: int,
    pub d: int,
    pub g: int,
    pub h: int,
    pub has_exp: bool,
    pub neg: bool,
}

/// The layout of `t`, read left to right.
pub open spec fn layout_of(t: Seq<char>) -> Layout {
    let n = t.len() as int;
    let a = if n > 0 && t[0] == '+' { 1int } else { 0int };
    let b = run_end(t, a);
    let point = b < n && t[b] == '.';
    let c = if point { b + 1 } else { b };
    let d = if point { run_end(t, c) } else { b };
    let has_exp = d < n && (t[d] == 'e' || t[d] == 'E');
    let signed = has_exp && d + 1 < n && (t[d + 1] == '+' || t[d + 1] == '-');
    let neg = signed && t[d + 1] == '-';
    let g = if signed { d + 2 } else if has_exp { d + 1 } else { d };
    let h = if has_exp { run_end(t, g) } else { d };
    Layout { a, b, c, d, g, h, has_exp, neg }
}

/// The layout covers all of `t` and holds at least one digit before the exponent.
pub open spec fn layout_valid(l: Layout, n: int) -> bool {
    (l.b - l.a) + (l.d - l.c) >= 1 && (if l.has_exp { l.h > l.g && l.h == n } else { l.d == n })
}

/// The power of ten by which the mantissa is scaled, weight units included.
pub open spec fn scale_of(t: Seq<char>, l: Layout) -> int {
    let e = digits_value(t.subrange(l.g, l.h));
    let ev = if !l.has_exp { 0 } else if l.neg { -e } else { e };
    ev - (l.d - l.c) + 6
}

/// The weight, in weight units, that the text `t` gives; `None` where `t` is
/// no non-negative decimal number or its value exceeds `MAX_WEIGHT` units.
pub open spec fn weight_of(t: Seq<char>) -> Option<u64> {
    let l = layout_of(t);
    if !layout_valid(l, t.len() as int) {
        None
    } else {
        units_of(digits_value(mantissa(t, l.a, l.b, l.c, l.d)), scale_of(t, l))
    }
}

proof fn lemma_pow10_le(a: nat, b: nat)
    requires
        a <= b,
    ensures
        1 <= pow10(a) <= pow10(b),
    decreases b,
{
    if a < b {
        lemma_pow10_le(a, (b - 1) as nat);
    } else if a > 0 {
        lemma_pow10_le((a - 1) as nat, (a - 1) as nat);
    }
}

proof fn lemma_digits_bound(s: Seq<char>)
    requires
        forall|i: int| 0 <= i < s.len() ==> is_digit(#[trigger] s[i]),
    ensures
        0 <= digits_value(s) < pow10(s.len()),
    decreases s.len(),
{
    if s.len() > 0 {
        let t = s.drop_last();
        assert forall|i: int| 0 <= i < t.len() implies is_digit(#[trigger] t[i]) by {
            assert(t[i] == s[i]);
        }
        lemma_digits_bound(t);
        assert(is_digit(s[s.len() - 1]));
    }
}

proof fn lemma_digits_concat(x: Seq<char>, y: Seq<char>)
    ensures
        digits_value(x + y) == digits_value(x) * pow10(y.len()) + digits_value(y),
    decreases y.len(),
{
    if y.len() == 0 {
        assert(x + y =~= x);
    } else {
        let y0 = y.drop_last();
        lemma_digits_concat(x, y0);
        assert((x + y).drop_last() =~= x + y0);
        assert((x + y).last() == y.last());
        assert(digits_value(x) * pow10(y.len()) == 10 * (digits_value(x) * pow10(y0.len()))) by (nonlinear_arith)
            requires
                pow10(y.len()) == 10 * pow10(y0.len()),
        {
        }
    }
}

/// Rounding `x ++ y` to a unit of `10^|y|` keeps `x` and adds one where the
/// first dropped digit is five or more.
proof fn lemma_round_split(x: Seq<char>, y: Seq<char>)
    requires
        y.len() >= 1,
        forall|i: int| 0 <= i < y.len() ==> is_digit(#[trigger] y[i]),
    ensures
        (digits_value(x + y) + 5 * pow10((y.len() - 1) as nat)) / pow10(y.len()) == digits_value(x) + (if y[0]
            >= '5' { 1int } else { 0int }),
{
    let k = (y.len() - 1) as nat;
    let rest = y.subrange(1, y.len() as int);
    assert(y =~= seq![y[0]] + rest);
    lemma_digits_concat(x, y);
    lemma_digits_concat(seq![y[0]], rest);
    assert(seq![y[0]].drop_last() =~= Seq::<char>::empty());
    assert(digits_value(Seq::<char>::empty()) == 0);
    assert(seq![y[0]].last() == y[0]);
    assert(digits_value(seq![y[0]]) == digits_value(seq![y[0]].drop_last()) * 10 + (y[0] as int - '0' as int));
    assert forall|i: int| 0 <= i < rest.len() implies is_digit(#[trigger] rest[i]) by {
        assert(rest[i] == y[i + 1]);
    }
    lemma_digits_bound(rest);
    assert(is_digit(y[0]));
    let p = pow10(k);
    let dy = digits_value(y);
    let dig = y[0] as int - '0' as int;
    assert(pow10(y.len()) == 10 * p);
    assert(dy == dig * p + digits_value(rest));
    let bit = if y[0] >= '5' { 1int } else { 0int };
    let r = dy + 5 * p - bit * (10 * p);
    assert(0 <= r < 10 * p) by (nonlinear_arith)
        requires
            dy == dig * p + digits_value(rest),
            0 <= digits_value(rest) < p,
            0 <= dig <= 9,
            bit == (if dig >= 5 { 1int } else { 0int }),
            r == dy + 5 * p - bit * (10 * p),
    {
    }
    let q = digits_value(x) + bit;
    assert(digits_value(x + y) + 5 * p == q * (10 * p) + r) by (nonlinear_arith)
        requires
            digits_value(x + y) == digits_value(x) * (10 * p) + dy,
            q == digits_value(x) + bit,
            r == dy + 5 * p - bit * (10 * p),
    {
    }
    lemma_fundamental_div_mod_converse(digits_value(x + y) + 5 * p, 10 * p, q, r);
}

proof fn lemma_zero_units(s: int)
    ensures
        units_of(0, s) == Some(0u64),
{
    if s < 0 {
        let tt = (-s) as nat;
        lemma_pow10_le((tt - 1) as nat, (tt - 1) as nat);
        assert(pow10(tt) == 10 * pow10((tt - 1) as nat));
        lemma_fundamental_div_mod_converse(5 * pow10((tt - 1) as nat), pow10(tt), 0, 5 * pow10((tt - 1) as nat));
    } else {
        assert(0 * pow10(s as nat) == 0);
    }
}

proof fn lemma_scale_cap(e: int, esat: int, has_exp: bool, neg: bool, f: int, m: int, s: int, s_exact: int)
    requires
        e >= 0,
        has_exp ==> esat == (if e < EXPONENT_CAP { e } else { EXPONENT_CAP as int }),
        !has_exp ==> esat == 0 && !neg,
        s == (if neg { -esat } else { esat }) - f + 6,
        s_exact == (if !has_exp { 0 } else if neg { -e } else { e }) - f + 6,
        0 <= f <= m < 0x1_0000_0000_0000_0000,
    ensures
        s > 15 ==> s_exact >= 16,
        0 <= s <= 15 ==> s_exact == s,
        s < 0 && -s > m ==> s_exact <= s,
        s < 0 && -s <= m ==> s_exact == s,
{
}

proof fn lemma_large_units(dv: int, s: int)
    requires
        dv >= 1,
        s >= 16,
    ensures
        units_of(dv, s) is None,
{
    lemma_pow10_le(16, s as nat);
    reveal_with_fuel(pow10, 17);
    assert(dv * pow10(s as nat) >= pow10(s as nat)) by (nonlinear_arith)
        requires
            dv >= 1,
            pow10(s as nat) >= 1,
    {
    }
}

proof fn lemma_small_units(dv: int, m: nat, s: int)
    requires
        0 <= dv < pow10(m),
        s < 0,
        -s > m,
    ensures
        units_of(dv, s) == Some(0u64),
{
    let te = (-s) as nat;
    lemma_pow10_le(m, (te - 1) as nat);
    assert(pow10(te) == 10 * pow10((te - 1) as nat));
    let num = dv + 5 * pow10((te - 1) as nat);
    lemma_fundamental_div_mod_converse(num, pow10(te), 0, num);
}

/// Finds the end of the run of digits that starts at `from`.
fn find_run(t: &str, from: usize, n: usize) -> (r: usize)
    requires
        from <= n,
        n == t@.len(),
    ensures
        r == run_end(t@, from as int),
        from <= r <= n,
        forall|k: int| from <= k < r ==> is_digit(#[trigger] t@[k]),
{
    let mut i: usize = from;
    while i < n && '0' <= t.get_char(i) && t.get_char(i) <= '9'
        invariant
            from <= i <= n == t@.len(),
            run_end(t@, from as int) == run_end(t@, i as int),
            forall|k: int| from <= k < i ==> is_digit(#[trigger] t@[k]),
        decreases n - i,
    {
        i = i + 1;
    }
    i
}

/// The value of the first `len` digits of `mantissa(t, a, b, c, d)`, or `cap`
/// where it reaches `cap`.
fn capped_digits(t: &str, a: usize, b: usize, c: usize, d: usize, len: usize, cap: u128) -> (v: u128)
    requires
        a <= b <= c <= d <= t@.len(),
        len <= (b - a) + (d - c),
        1 <= cap <= 1_000_000_000_000_000_000_000_000_000_000,
        forall|k: int| a <= k < b ==> is_digit(#[trigger] t@[k]),
        forall|k: int| c <= k < d ==> is_digit(#[trigger] t@[k]),
    ensures
        v == (if digits_value(mantissa(t@, a as int, b as int, c as int, d as int).subrange(0, len as int)) < cap {
            digits_value(mantissa(t@, a as int, b as int, c as int, d as int).subrange(0, len as int))
        } else {
            cap as int
        }),
{
    let ghost m = mantissa(t@, a as int, b as int, c as int, d as int);
    let mut v: u128 = 0;
    let mut k: usize = 0;
    while k < len
        invariant
            0 <= k <= len <= (b - a) + (d - c),
            a <= b <= c <= d <= t@.len(),
            1 <= cap <= 1_000_000_000_000_000_000_000_000_000_000,
            m == mantissa(t@, a as int, b as int, c as int, d as int),
            forall|i: int| a <= i < b ==> is_digit(#[trigger] t@[i]),
            forall|i: int| c <= i < d ==> is_digit(#[trigger] t@[i]),
            v == (if digits_value(m.subrange(0, k as int)) < cap { digits_value(m.subrange(0, k as int)) } else { cap as int }),
            digits_value(m.subrange(0, k as int)) >= 0,
        decreases len - k,
    {
        let ch = if k < b - a { t.get_char(a + k) } else { t.get_char(c + (k - (b - a))) };
        proof {
            assert(m.subrange(0, k + 1).drop_last() =~= m.subrange(0, k as int));
            assert(m.subrange(0, k + 1).last() == m[k as int]);
            if k < b - a {
                assert(m[k as int] == t@[a + k]);
            } else {
                assert(m[k as int] == t@[c + (k - (b - a))]);
            }
            assert(is_digit(ch));
        }
        let dig = (ch as u32 - '0' as u32) as u128;
        if v < cap {
            let w = v * 10 + dig;
            v = if w < cap { w } else { cap };
        }
        k = k + 1;
    }
    v
}

fn ten_to(n: u32) -> (r: u128)
    requires
        n <= 16,
    ensures
        r == pow10(n as nat),
        r <= 10_000_000_000_000_000,
{
    let mut r: u128 = 1;
    let mut k: u32 = 0;
    while k < n
        invariant
            0 <= k <= n <= 16,
            r == pow10(k as nat),
            pow10(k as nat) <= 10_000_000_000_000_000,
        decreases n - k,
    {
        proof {
            lemma_pow10_le((k + 1) as nat, 16);
            reveal_with_fuel(pow10, 17);
        }
        r = r * 10;
        k = k + 1;
    }
    proof {
        lemma_pow10_le(n as nat, 16);
        reveal_with_fuel(pow10, 17);
    }
    r
}

/// Mantissas are read up to this value; anything larger exceeds every weight.
const MANTISSA_CAP: u128 = 10_000_000_000_000_000;

/// Exponents are read up to this value; anything larger decides the outcome alone.
const EXPONENT_CAP: u128 = 1_000_000_000_000_000_000_000_000_000_000;

/// The layout of a text, in positions.
struct Scan {
    a: usize,
    b: usize,
    c: usize,
    d: usize,
    g: usize,
    h: usize,
    has_exp: bool,
    neg: bool,
}

fn scan(text: &str, n: usize) -> (r: Scan)
    requires
        n == text@.len(),
    ensures
        layout_of(text@) == (Layout {
            a: r.a as int,
            b: r.b as int,
            c: r.c as int,
            d: r.d as int,
            g: r.g as int,
            h: r.h as int,
            has_exp: r.has_exp,
            neg: r.neg,
        }),
        r.a <= r.b <= r.c <= r.d <= n,
        r.has_exp ==> r.d < r.g <= r.h <= n,
        !r.has_exp ==> r.g == r.d && r.h == r.d,
        forall|k: int| r.a <= k < r.b ==> is_digit(#[trigger] text@[k]),
        forall|k: int| r.c <= k < r.d ==> is_digit(#[trigger] text@[k]),
        forall|k: int| r.g <= k < r.h ==> is_digit(#[trigger] text@[k]),
{
    let a: usize = if n > 0 && text.get_char(0) == '+' { 1 } else { 0 };
    let b = find_run(text, a, n);
    let point = b < n && text.get_char(b) == '.';
    let c: usize = if point { b + 1 } else { b };
    let d: usize = if point { find_run(text, c, n) } else { b };
    let has_exp = d < n && (text.get_char(d) == 'e' || text.get_char(d) == 'E');
    let signed = has_exp && d + 1 < n && (text.get_char(d + 1) == '+' || text.get_char(d + 1) == '-');
    let neg = signed && text.get_char(d + 1) == '-';
    let g: usize = if signed { d + 2 } else if has_exp { d + 1 } else { d };
    let h: usize = if has_exp { find_run(text, g, n) } else { d };
    Scan { a, b, c, d, g, h, has_exp, neg }
}

/// `units_of(dv, s)` for `0 <= s <= 15`, from `dsat`, the mantissa capped at `MANTISSA_CAP`.
fn scale_up(dsat: u128, s: i128, Ghost(dv): Ghost<int>) -> (r: Option<u64>)
    requires
        0 <= s <= 15,
        dv >= 0,
        dsat == (if dv < MANTISSA_CAP { dv } else { MANTISSA_CAP as int }),
    ensures
        r == units_of(dv, s as int),
{
    proof {
        reveal_with_fuel(pow10, 17);
        lemma_pow10_le(0, s as nat);
    }
    if dsat >= MANTISSA_CAP {
        proof {
            assert(dv * pow10(s as nat) >= dv) by (nonlinear_arith)
                requires
                    dv >= 0,
                    pow10(s as nat) >= 1,
            {
            }
        }
        return None;
    }
    let p = ten_to(s as u32);
    proof {
        lemma_pow10_le(s as nat, 15);
        assert(dsat * p <= 10_000_000_000_000_000 * 1_000_000_000_000_000) by (nonlinear_arith)
            requires
                dsat <= 10_000_000_000_000_000,
                p <= 1_000_000_000_000_000,
        {
        }
    }
    let u = dsat * p;
    if u <= MAX_WEIGHT as u128 {
        Some(u as u64)
    } else {
        None
    }
}

/// `units_of(dv, -tt)` for `1 <= tt <= m`, where `dv` is the value of the
/// `m`-digit mantissa.
fn scale_down(text: &str, a: usize, b: usize, c: usize, d: usize, tt: usize) -> (r: Option<u64>)
    requires
        a <= b <= c <= d <= text@.len(),
        1 <= tt <= (b - a) + (d - c),
        forall|k: int| a <= k < b ==> is_digit(#[trigger] text@[k]),
        forall|k: int| c <= k < d ==> is_digit(#[trigger] text@[k]),
    ensures
        r == units_of(digits_value(mantissa(text@, a as int, b as int, c as int, d as int)), -(tt as int)),
{
    let ghost t = text@;
    let ghost mant = mantissa(t, a as int, b as int, c as int, d as int);
    let m = (b - a) + (d - c);
    let l: usize = m - tt;
    let ghost x = mant.subrange(0, l as int);
    let ghost y = mant.subrange(l as int, m as int);
    let first = if l < b - a { text.get_char(a + l) } else { text.get_char(c + (l - (b - a))) };
    proof {
        assert(mant =~= x + y);
        assert(y[0] == mant[l as int]);
        if l < b - a {
            assert(mant[l as int] == t[a + l]);
        } else {
            assert(mant[l as int] == t[c + (l - (b - a))]);
        }
        assert forall|k: int| 0 <= k < y.len() implies is_digit(#[trigger] y[k]) by {
            assert(y[k] == mant[l + k]);
            if l + k < b - a {
                assert(mant[l + k] == t[a + l + k]);
            } else {
                assert(mant[l + k] == t[c + (l + k - (b - a))]);
            }
        }
        lemma_round_split(x, y);
        assert forall|k: int| 0 <= k < x.len() implies is_digit(#[trigger] x[k]) by {
            assert(x[k] == mant[k]);
            if k < b - a {
                assert(mant[k] == t[a + k]);
            } else {
                assert(mant[k] == t[c + (k - (b - a))]);
            }
        }
        lemma_digits_bound(x);
        reveal_with_fuel(pow10, 17);
    }
    let p = capped_digits(text, a, b, c, d, l, MANTISSA_CAP);
    if p >= MANTISSA_CAP {
        return None;
    }
    let u: u128 = if first >= '5' { p + 1 } else { p };
    if u <= MAX_WEIGHT as u128 {
        Some(u as u64)
    } else {
        None
    }
}

/// Reads a weight from decimal text (`"10"`, `"+1.5"`, `".25"`, `"3."`,
/// `"1e3"`, `"2.5E-1"`), in weight units, rounded to the nearest unit.
#[verifier::rlimit(60)]
pub fn parse_weight(text: &str) -> (r: Option<u64>)
    ensures
        r == weight_of(text@),
        r matches Some(v) ==> v <= MAX_WEIGHT,
{
    let n = text.unicode_len();
    let ghost t = text@;
    let l = scan(text, n);
    let valid = (l.b - l.a) + (l.d - l.c) >= 1 && (if l.has_exp { l.h > l.g && l.h == n } else { l.d == n });
    if !valid {
        return None;
    }
    let m = (l.b - l.a) + (l.d - l.c);
    let f = l.d - l.c;
    let ghost mant = mantissa(t, l.a as int, l.b as int, l.c as int, l.d as int);
    let ghost dv = digits_value(mant);
    let ghost es = t.subrange(l.g as int, l.h as int);
    let ghost s_exact = scale_of(t, layout_of(t));
    proof {
        assert(mant.subrange(0, m as int) =~= mant);
        assert forall|k: int| 0 <= k < mant.len() implies is_digit(#[trigger] mant[k]) by {
            if k < l.b - l.a {
                assert(mant[k] == t[l.a + k]);
            } else {
                assert(mant[k] == t[l.c + (k - (l.b - l.a))]);
            }
        }
        lemma_digits_bound(mant);
        assert(mantissa(t, l.g as int, l.h as int, l.h as int, l.h as int).subrange(0, l.h - l.g) =~= es);
        assert forall|k: int| 0 <= k < es.len() implies is_digit(#[trigger] es[k]) by {
            assert(es[k] == t[l.g + k]);
        }
        lemma_digits_bound(es);
        reveal_with_fuel(pow10, 17);
    }
    let dsat = capped_digits(text, l.a, l.b, l.c, l.d, m, MANTISSA_CAP);
    if dsat == 0 {
        proof {
            lemma_zero_units(s_exact);
        }
        return Some(0);
    }
    let esat: u128 = if l.has_exp { capped_digits(text, l.g, l.h, l.h, l.h, l.h - l.g, EXPONENT_CAP) } else { 0 };
    let s: i128 = (if l.neg { -(esat as i128) } else { esat as i128 }) - (f as i128) + 6;
    proof {
        assert(s_exact == (if !l.has_exp { 0 } else if l.neg { -digits_value(es) } else { digits_value(es) }) - f + 6);
        lemma_scale_cap(digits_value(es), esat as int, l.has_exp, l.neg, f as int, m as int, s as int, s_exact);
        assert(dsat == (if dv < MANTISSA_CAP { dv } else { MANTISSA_CAP as int }));
    }
    if s > 15 {
        proof {
            lemma_large_units(dv, s_exact);
        }
        None
    } else if s >= 0 {
        scale_up(dsat, s, Ghost(dv))
    } else if -s > m as i128 {
        proof {
            lemma_small_units(dv, m as nat, s_exact);
        }
        Some(0)
    } else {
        scale_down(text, l.a, l.b, l.c, l.d, (-s) as usize)
    }
}

} // verus!
