//! Sizes, counts, shares and times as people read them. Quantities are shown as
//! double-precision arithmetic would show them, ties going to the even digit. The
//! significand of a double lies between 2 to the 52nd and 2 to the 53rd.

use crate::numbers::{decimal, decimal_is_positional, fixed, fixed_text};
use crate::text::{chars_of, push_text, text_between};
use vstd::arithmetic::power2::{lemma2_to64, lemma_pow2_pos, lemma_pow2_unfold, pow2};
use vstd::prelude::*;

verus! {

/// `a / b`, to the nearest whole number; halfway between two, the even one.
pub open spec fn half_even(a: nat, b: nat) -> nat {
    let q = a / b;
    let r = a % b;
    if 2 * r > b || (2 * r == b && q % 2 == 1) {
        q + 1
    } else {
        q
    }
}

/// `a / b`, to the nearest whole number; halfway between two, the even one.
fn div_half_even(a: u128, b: u128) -> (r: u128)
    requires
        0 < b < 0x8000_0000_0000_0000_0000_0000_0000_0000,
        a < 0x8000_0000_0000_0000_0000_0000_0000_0000,
    ensures
        r == half_even(a as nat, b as nat),
        r <= a + 1,
        r * b <= a + b,
{
    let q = a / b;
    let m = a % b;
    proof {
        assert(q <= a && m < b && q * b + m == a) by (nonlinear_arith)
            requires
                q == a / b,
                m == a % b,
                b > 0,
        ;
        assert((q + 1) * b == q * b + b) by (nonlinear_arith);
    }
    if 2 * m > b || (2 * m == b && q % 2 == 1) {
        q + 1
    } else {
        q
    }
}

/// The step between neighbouring doubles of the size of `n`.
pub open spec fn float_step(n: nat, step: nat) -> nat
    decreases n - step,
{
    if step == 0 || n < 0x20_0000_0000_0000 * step {
        step
    } else {
        float_step(n, 2 * step)
    }
}

/// The double nearest to the whole number `n`.
pub open spec fn as_float(n: nat) -> nat {
    let step = float_step(n, 1);
    half_even(n, step) * step
}

/// The double nearest to the whole number `n`.
fn to_float(n: u128) -> (r: u128)
    requires
        n < 0x200_0000_0000_0000_0000,
    ensures
        r == as_float(n as nat),
        r <= 2 * n + 1,
{
    let mut step: u128 = 1;
    while n >= 0x20_0000_0000_0000 * step
        invariant
            1 <= step,
            step <= n || step == 1,
            n < 0x200_0000_0000_0000_0000,
            float_step(n as nat, 1) == float_step(n as nat, step as nat),
        decreases n - step,
    {
        step = 2 * step;
    }
    let q = div_half_even(n, step);
    q * step
}

/// The least power of two, from `f` on, that lifts `num` to a full significand over
/// `den`.
pub open spec fn lift(num: nat, den: nat, f: nat) -> nat
    decreases 0x20_0000_0000_0000 * den - num,
{
    if num == 0 || num >= 0x10_0000_0000_0000 * den {
        f
    } else {
        lift(2 * num, den, 2 * f)
    }
}

/// The least power of two, from `g` on, that brings `num` down to one significand
/// over `den`.
pub open spec fn lower_by(num: nat, den: nat, g: nat) -> nat
    decreases num - den,
{
    if den == 0 || num < 0x20_0000_0000_0000 * den {
        g
    } else {
        lower_by(num, 2 * den, 2 * g)
    }
}

/// The double nearest to `num / den`: the first times the second over the third.
pub open spec fn float_quotient(num: nat, den: nat) -> (nat, nat, nat) {
    let f = lift(num, den, 1);
    let g = lower_by(num, den, 1);
    (half_even(num * f, den * g), g, f)
}

/// The double nearest to `num / den`: the first times the second over the third.
fn float_div(num: u128, den: u128) -> (r: (u128, u128, u128))
    requires
        num <= 0x400_0000_0000_0000_0000,
        0 < den <= 0x4_0000_0000_0000_0000,
    ensures
        (r.0 as nat, r.1 as nat, r.2 as nat) == float_quotient(num as nat, den as nat),
        0 < r.2 <= 0x800_0000_0000_0000_0000_0000_0000_0000,
        r.0 * r.1 <= 0x800_0000_0000_0000_0000_0000_0000_0000,
{
    let mut up: u128 = num;
    let mut f: u128 = 1;
    while up != 0 && up < 0x10_0000_0000_0000 * den
        invariant
            0 < den <= 0x4_0000_0000_0000_0000,
            up <= 0x400_0000_0000_0000_0000 || up < 0x20_0000_0000_0000 * den,
            1 <= f,
            up != 0 ==> f <= up,
            up == 0 ==> f == 1,
            up == num * f,
            lift(num as nat, den as nat, 1) == lift(up as nat, den as nat, f as nat),
        decreases 0x20_0000_0000_0000 * den - up,
    {
        assert(num * (2 * f) == 2 * (num * f)) by (nonlinear_arith);
        up = 2 * up;
        f = 2 * f;
    }
    let mut down: u128 = den;
    let mut g: u128 = 1;
    while num >= 0x20_0000_0000_0000 * down
        invariant
            num <= 0x400_0000_0000_0000_0000,
            0 < down,
            1 <= g <= down,
            down <= num || down == den,
            down == den * g,
            den <= 0x4_0000_0000_0000_0000,
            g == 1 || 0x20_0000_0000_0000 * down <= 2 * num,
            lower_by(num as nat, den as nat, 1) == lower_by(num as nat, down as nat, g as nat),
        decreases num - down,
    {
        assert(den * (2 * g) == 2 * (den * g)) by (nonlinear_arith);
        down = 2 * down;
        g = 2 * g;
    }
    proof {
        assert(up < 0x800_0000_0000_0000_0000_0000_0000_0000);
    }
    let m = div_half_even(up, down);
    proof {
        assert(m * g <= m * down) by (nonlinear_arith)
            requires
                g <= down,
                m >= 0,
        ;
    }
    (m, g, f)
}

/// The unit that `v` bytes are shown in, from unit `u` of `den` bytes on, and how
/// many bytes it has: the largest of which there is at least one.
pub open spec fn unit_for(v: nat, u: nat, den: nat) -> (nat, nat)
    decreases 5 - u,
{
    if u < 5 && v >= 1024 * den {
        unit_for(v, u + 1, 1024 * den)
    } else {
        (u, den)
    }
}

/// The names of the units.
pub open spec fn unit_name(u: nat) -> Seq<char> {
    if u == 0 {
        "B"@
    } else if u == 1 {
        "KiB"@
    } else if u == 2 {
        "MiB"@
    } else if u == 3 {
        "GiB"@
    } else if u == 4 {
        "TiB"@
    } else {
        "PiB"@
    }
}

/// How many digits a quantity of `v` parts of `den` gets behind the point: fewer, the
/// larger it is, and none for whole bytes.
pub open spec fn places_for(v: nat, u: nat, den: nat) -> nat {
    if u == 0 || v >= 100 * den {
        0
    } else if v >= 10 * den {
        1
    } else {
        2
    }
}

/// 1, 10 or 100.
pub open spec fn ten_to(places: nat) -> nat {
    if places == 0 {
        1
    } else if places == 1 {
        10
    } else {
        100
    }
}

/// A number of bytes in binary units.
pub open spec fn bytes_label(n: nat) -> Seq<char> {
    let v = as_float(n);
    let (u, den) = unit_for(v, 0, 1);
    let places = places_for(v, u, den);
    fixed(half_even(v * ten_to(places), den), places) + " "@ + unit_name(u)
}

fn name_of_unit(u: u8) -> (r: &'static str)
    ensures
        r@ == unit_name(u as nat),
{
    if u == 0 {
        "B"
    } else if u == 1 {
        "KiB"
    } else if u == 2 {
        "MiB"
    } else if u == 3 {
        "GiB"
    } else if u == 4 {
        "TiB"
    } else {
        "PiB"
    }
}

/// A number of bytes in binary units.
pub fn fmt_bytes(n: u64) -> (r: String)
    ensures
        r@ == bytes_label(n as nat),
{
    let v = to_float(n as u128);
    let mut u: u8 = 0;
    let mut den: u128 = 1;
    while u < 5 && v >= 1024 * den
        invariant
            u <= 5,
            1 <= den,
            u == 0 ==> den == 1,
            den <= v || den == 1,
            v <= 0x4_0000_0000_0000_0000,
            unit_for(v as nat, 0, 1) == unit_for(v as nat, u as nat, den as nat),
        decreases 5 - u,
    {
        u = u + 1;
        den = 1024 * den;
    }
    let (places, tens): (u8, u128) = if u == 0 || v >= 100 * den {
        (0, 1)
    } else if v >= 10 * den {
        (1, 10)
    } else {
        (2, 100)
    };
    assert(tens == ten_to(places as nat));
    assert(v * tens <= 100 * v) by (nonlinear_arith)
        requires
            tens <= 100,
            v >= 0,
    ;
    let mut r = fixed_text(div_half_even(v * tens, den), places);
    push_text(&mut r, " ");
    push_text(&mut r, name_of_unit(u));
    r
}

/// What `part` is of `whole` in percent: without a fraction from ten on, below with
/// one digit.
pub open spec fn percent_label(part: nat, whole: nat) -> Seq<char> {
    let (m, g, f) = float_quotient(as_float(100 * as_float(part)), as_float(whole));
    if m * g >= 10 * f {
        fixed(half_even(m * g, f), 0) + "%"@
    } else {
        fixed(half_even(10 * (m * g), f), 1) + "%"@
    }
}

proof fn lemma_some_float(n: nat, step: nat)
    requires
        n > 0,
        step > 0,
        step <= n,
    ensures
        0 < float_step(n, step) <= n,
    decreases n - step,
{
    if n >= 0x20_0000_0000_0000 * step {
        lemma_some_float(n, 2 * step);
    }
}

proof fn lemma_positive(n: nat)
    requires
        n > 0,
    ensures
        as_float(n) > 0,
{
    let step = float_step(n, 1);
    lemma_some_float(n, 1);
    assert(n / step >= 1) by (nonlinear_arith)
        requires
            0 < step <= n,
    ;
    assert(half_even(n, step) * step > 0) by (nonlinear_arith)
        requires
            half_even(n, step) >= 1,
            step > 0,
    ;
}

/// What `part` is of `whole` in percent.
pub fn fmt_pct(part: u64, whole: u64) -> (r: String)
    requires
        whole > 0,
    ensures
        r@ == percent_label(part as nat, whole as nat),
{
    let p = to_float(part as u128);
    let num = to_float(100 * p);
    let den = to_float(whole as u128);
    proof {
        lemma_positive(whole as nat);
    }
    let (m, g, f) = float_div(num, den);
    let v: u128 = m * g;
    let mut r = if v >= 10 * f {
        fixed_text(div_half_even(v, f), 0)
    } else {
        fixed_text(div_half_even(10 * v, f), 1)
    };
    push_text(&mut r, "%");
    r
}

/// A time in milliseconds: in seconds with one digit behind the point, where it is
/// at least one.
pub open spec fn time_label(ms: nat) -> Seq<char> {
    if ms >= 1000 {
        let (m, g, f) = float_quotient(as_float(ms), 1000);
        fixed(half_even(10 * (m * g), f), 1) + " s"@
    } else {
        decimal(ms) + " ms"@
    }
}

/// A time in milliseconds.
pub fn fmt_time(ms: u64) -> (r: String)
    ensures
        r@ == time_label(ms as nat),
{
    if ms >= 1000 {
        let (m, g, f) = float_div(to_float(ms as u128), 1000);
        let v: u128 = m * g;
        let mut r = fixed_text(div_half_even(10 * v, f), 1);
        push_text(&mut r, " s");
        r
    } else {
        let mut r = fixed_text(ms as u128, 0);
        push_text(&mut r, " ms");
        r
    }
}

/// The digits `s` with a comma in front of every three from the right.
pub open spec fn grouped(s: Seq<char>) -> Seq<char>
    decreases s.len(),
{
    if s.len() <= 3 {
        s
    } else {
        grouped(s.take(s.len() - 3)) + ","@ + s.skip(s.len() - 3)
    }
}

/// A count with its digits in groups of three.
pub open spec fn count_label(n: nat) -> Seq<char> {
    grouped(decimal(n))
}

fn group(v: &Vec<char>, end: usize) -> (r: String)
    requires
        end <= v@.len(),
    ensures
        r@ == grouped(v@.take(end as int)),
    decreases end,
{
    if end <= 3 {
        let r = text_between(v, 0, end);
        assert(r@ == v@.take(end as int));
        r
    } else {
        let mut r = group(v, end - 3);
        push_text(&mut r, ",");
        push_text(&mut r, text_between(v, end - 3, end).as_str());
        proof {
            let s = v@.take(end as int);
            assert(s.take(s.len() - 3) == v@.take(end - 3));
            assert(s.skip(s.len() - 3) == v@.subrange(end - 3, end as int));
        }
        r
    }
}

/// A count with its digits in groups of three.
pub fn fmt_n(n: u64) -> (r: String)
    ensures
        r@ == count_label(n as nat),
{
    let s = crate::numbers::decimal_text(n);
    let v = chars_of(s.as_str());
    assert(v@.take(v@.len() as int) == v@);
    group(&v, v.len())
}

/// `s`, cut to `max` characters: where it is longer, an ellipsis takes the place of
/// the last.
pub open spec fn shortened(s: Seq<char>, max: nat) -> Seq<char> {
    if s.len() <= max {
        s
    } else {
        s.take(if max > 0 {
            max - 1
        } else {
            0
        }).push('\u{2026}')
    }
}

/// `s`, cut to `max` characters.
pub fn shorten(s: &str, max: usize) -> (r: String)
    ensures
        r@ == shortened(s@, max as nat),
{
    let v = chars_of(s);
    if v.len() <= max {
        return s.to_owned();
    }
    let keep: usize = if max > 0 {
        max - 1
    } else {
        0
    };
    let mut r = text_between(&v, 0, keep);
    r.push('\u{2026}');
    assert(r@ == shortened(s@, max as nat));
    r
}

/// A rounded quotient is the nearest whole number, and of two that are equally near the
/// even one.
pub proof fn rounded_is_the_nearest(a: nat, b: nat)
    requires
        b > 0,
    ensures
        -(b as int) <= 2 * (half_even(a, b) * b - a) <= b,
        2 * (half_even(a, b) * b - a) == b || 2 * (half_even(a, b) * b - a) == -(b as int)
            ==> half_even(a, b) % 2 == 0,
{
    let q = a / b;
    let r = a % b;
    vstd::arithmetic::div_mod::lemma_fundamental_div_mod(a as int, b as int);
    assert(b * q == q * b) by (nonlinear_arith);
    assert((q + 1) * b == q * b + b) by (nonlinear_arith);
}

/// Nothing but the nearest whole number is what a quotient is rounded to.
proof fn lemma_nearest(a: nat, b: nat, h: nat)
    requires
        b > 0,
        -(b as int) <= 2 * (h * b - a) <= b,
        2 * (h * b - a) == b || 2 * (h * b - a) == -(b as int) ==> h % 2 == 0,
    ensures
        half_even(a, b) == h,
{
    rounded_is_the_nearest(a, b);
    let g = half_even(a, b);
    if g > h {
        assert((g - h) * b >= b && (g - h) * b == g * b - h * b) by (nonlinear_arith)
            requires
                g > h,
                b > 0,
        ;
        assert(g == h + 1) by (nonlinear_arith)
            requires
                (g - h) * b <= b,
                g > h,
                b > 0,
        ;
    }
    if g < h {
        assert((h - g) * b >= b && (h - g) * b == h * b - g * b) by (nonlinear_arith)
            requires
                g < h,
                b > 0,
        ;
        assert(h == g + 1) by (nonlinear_arith)
            requires
                (h - g) * b <= b,
                g < h,
                b > 0,
        ;
    }
}

proof fn lemma_step_is(n: nat, from: nat, k: nat)
    requires
        from > 0,
        k > 0,
        n < 0x20_0000_0000_0000 * (from * k),
        k > 1 ==> n >= 0x10_0000_0000_0000 * (from * k),
        exists|e: nat| k == #[trigger] pow2(e),
    ensures
        float_step(n, from) == from * k,
    decreases k,
{
    let e = choose|e: nat| k == #[trigger] pow2(e);
    lemma2_to64();
    if e == 0 {
        assert(k == 1);
        assert(from * k == from) by (nonlinear_arith)
            requires
                k == 1,
        ;
    } else {
        lemma_pow2_unfold(e);
        let half = pow2((e - 1) as nat);
        assert(k == 2 * half);
        lemma_pow2_pos((e - 1) as nat);
        assert(from * k == (2 * from) * half) by (nonlinear_arith)
            requires
                k == 2 * half,
        ;
        assert((2 * from) * half >= 2 * from) by (nonlinear_arith)
            requires
                half >= 1,
        ;
        lemma_step_is(n, 2 * from, half);
    }
}

/// A whole number below 2 to the 53rd is a double itself. The double for a larger one is
/// the nearest multiple of the step there, which is a power of two; of two that are equally
/// near, the one with the even significand.
pub proof fn doubles_are_the_nearest(n: nat, e: nat)
    ensures
        n < 0x20_0000_0000_0000 ==> as_float(n) == n,
        ({
            let step = pow2(e);
            0x10_0000_0000_0000 * step <= n < 0x20_0000_0000_0000 * step ==> as_float(n) % step == 0
                && -(step as int) <= 2 * (as_float(n) - n) <= step && (2 * (as_float(n) - n) == step
                || 2 * (as_float(n) - n) == -(step as int) ==> as_float(n) / step % 2 == 0)
        }),
{
    let step = pow2(e);
    lemma_pow2_pos(e);
    if n < 0x20_0000_0000_0000 {
        assert(float_step(n, 1) == 1);
        lemma_nearest(n, 1, n);
    }
    if 0x10_0000_0000_0000 * step <= n < 0x20_0000_0000_0000 * step {
        assert(1 * step == step);
        lemma_step_is(n, 1, step);
        rounded_is_the_nearest(n, step);
        let h = half_even(n, step);
        vstd::arithmetic::div_mod::lemma_mod_multiples_basic(h as int, step as int);
        vstd::arithmetic::div_mod::lemma_div_by_multiple(h as int, step as int);
    }
}

/// How many bytes a unit has.
pub open spec fn unit_bytes(u: nat) -> nat {
    if u == 0 {
        1
    } else if u == 1 {
        0x400
    } else if u == 2 {
        0x10_0000
    } else if u == 3 {
        0x4000_0000
    } else if u == 4 {
        0x100_0000_0000
    } else {
        0x4_0000_0000_0000
    }
}

/// `h` is `x` over `den` to the nearest whole number, the even one of two.
pub open spec fn nearest(h: nat, x: nat, den: nat) -> bool {
    &&& -(den as int) <= 2 * (h * den - x) <= den
    &&& 2 * (h * den - x) == den || 2 * (h * den - x) == -(den as int) ==> h % 2 == 0
}

/// A number of bytes is told, as the double that it is, in the largest unit of which there
/// is one at least, to the nearest digit: below ten of it with two digits behind the point,
/// below a hundred with one, and from there on with none; bytes with none.
pub proof fn bytes_are_told_in_the_largest_unit(n: nat, u: nat, h: nat)
    requires
        u <= 5,
        u > 0 ==> as_float(n) >= unit_bytes(u),
        u < 5 ==> as_float(n) < unit_bytes(u + 1),
    ensures
        u == 0 ==> bytes_label(n) == decimal(as_float(n)) + " B"@,
        ({
            let v = as_float(n);
            let den = unit_bytes(u);
            let name = if u == 1 {
                " KiB"@
            } else if u == 2 {
                " MiB"@
            } else if u == 3 {
                " GiB"@
            } else if u == 4 {
                " TiB"@
            } else {
                " PiB"@
            };
            &&& u > 0 && v < 10 * den && nearest(h, 100 * v, den) ==> bytes_label(n) == fixed(h, 2)
                + name
            &&& u > 0 && 10 * den <= v < 100 * den && nearest(h, 10 * v, den) ==> bytes_label(n)
                == fixed(h, 1) + name
            &&& u > 0 && v >= 100 * den && nearest(h, v, den) ==> bytes_label(n) == decimal(h)
                + name
        }),
{
    reveal_strlit(" ");
    reveal_strlit("B");
    reveal_strlit(" B");
    reveal_strlit("KiB");
    reveal_strlit(" KiB");
    reveal_strlit("MiB");
    reveal_strlit(" MiB");
    reveal_strlit("GiB");
    reveal_strlit(" GiB");
    reveal_strlit("TiB");
    reveal_strlit(" TiB");
    reveal_strlit("PiB");
    reveal_strlit(" PiB");
    let v = as_float(n);
    reveal_with_fuel(unit_for, 7);
    let den = unit_bytes(u);
    assert(unit_for(v, 0, 1) == (u, den));
    let places = places_for(v, u, den);
    let t = half_even(v * ten_to(places), den);
    assert(" "@ + unit_name(u) =~= if u == 0 {
        " B"@
    } else if u == 1 {
        " KiB"@
    } else if u == 2 {
        " MiB"@
    } else if u == 3 {
        " GiB"@
    } else if u == 4 {
        " TiB"@
    } else {
        " PiB"@
    });
    assert(fixed(t, places) + " "@ + unit_name(u) == fixed(t, places) + (" "@ + unit_name(u)));
    if u == 0 {
        lemma_nearest(v, 1, v);
    } else if v < 10 * den {
        if nearest(h, 100 * v, den) {
            lemma_nearest(100 * v, den, h);
        }
    } else if v < 100 * den {
        if nearest(h, 10 * v, den) {
            lemma_nearest(10 * v, den, h);
        }
    } else if nearest(h, v, den) {
        lemma_nearest(v, den, h);
    }
}

/// A quotient of doubles is close enough to the exact one: where `c` times the dividend is
/// not halfway between two multiples of the divisor, rounding `c` times the quotient gives
/// the nearest multiple.
proof fn lemma_quotient_rounds(num: nat, den: nat, c: nat, h: nat)
    requires
        0 < num,
        0 < den,
        0 < c <= 10,
        c * num < 0x10_0000_0000_0000,
        -(den as int) < 2 * (h * den - c * num) < den,
    ensures
        ({
            let (m, g, f) = float_quotient(num, den);
            &&& g == 1
            &&& f > 0
            &&& half_even(c * (m * g), f) == h
            &&& num >= 10 * den ==> m * g >= 10 * f
            &&& num < 10 * den ==> m * g < 10 * f
        }),
{
    let (m, g, f) = float_quotient(num, den);
    assert(num < 0x10_0000_0000_0000) by (nonlinear_arith)
        requires
            c * num < 0x10_0000_0000_0000,
            c >= 1,
    ;
    assert(num < 0x20_0000_0000_0000 * den) by (nonlinear_arith)
        requires
            num < 0x10_0000_0000_0000,
            den >= 1,
    ;
    assert(g == 1);
    lemma_lift_bounds(num, den, 1);
    assert(f > c * den) by (nonlinear_arith)
        requires
            num * f >= 0x10_0000_0000_0000 * den * 1,
            c * num < 0x10_0000_0000_0000,
            den >= 1,
            num >= 1,
            c >= 1,
            f >= 0,
    ;
    let x = num * f;
    assert(den * g == den) by (nonlinear_arith)
        requires
            g == 1,
    ;
    rounded_is_the_nearest(x, den);
    assert(m == half_even(x, den));
    assert(m * g == m) by (nonlinear_arith)
        requires
            g == 1,
    ;
    let d = 2 * (h * den - c * num);
    assert(2 * (h * (f * den) - c * x) == d * f) by (nonlinear_arith)
        requires
            d == 2 * (h * den - c * num),
            x == num * f,
    ;
    assert(d * f <= (den - 1) * f && d * f >= -((den - 1) * f)) by (nonlinear_arith)
        requires
            -(den as int) < d < den,
            f > 0,
    ;
    assert((den - 1) * f == den * f - f) by (nonlinear_arith);
    let y = m * den - x;
    assert(-(den as int) <= 2 * y <= den);
    assert(h * (f * den) - c * (m * den) == (h * f - c * m) * den) by (nonlinear_arith);
    assert(c * (m * den) == c * x + c * y) by (nonlinear_arith)
        requires
            y == m * den - x,
    ;
    assert(-(c * den) <= 2 * (c * y) <= c * den) by (nonlinear_arith)
        requires
            -(den as int) <= 2 * y <= den,
            c > 0,
    ;
    let z = h * f - c * m;
    assert(-(den * f) < 2 * (z * den) < den * f);
    assert(-(f as int) < 2 * z < f) by (nonlinear_arith)
        requires
            -(den * f) < 2 * (z * den) < den * f,
            den > 0,
    ;
    lemma_nearest(c * m, f, h);
    if num >= 10 * den {
        assert(x >= 10 * (f * den)) by (nonlinear_arith)
            requires
                num >= 10 * den,
                x == num * f,
                f > 0,
        ;
        assert(m >= 10 * f) by (nonlinear_arith)
            requires
                2 * (m * den - x) >= -(den as int),
                x >= 10 * (f * den),
                den > 0,
        ;
    } else {
        assert(x <= 10 * (f * den) - f) by (nonlinear_arith)
            requires
                num <= 10 * den - 1,
                x == num * f,
                f > 0,
        ;
        assert(f > den) by (nonlinear_arith)
            requires
                f > c * den,
                c >= 1,
        ;
        assert(m < 10 * f) by (nonlinear_arith)
            requires
                2 * (m * den - x) <= den,
                x <= 10 * (f * den) - f,
                f > den,
                den > 0,
        ;
    }
}

/// A share from ten percent on is told to the nearest whole percent, and a smaller one to
/// the nearest tenth, wherever one is nearest. (So for all parts below four million
/// millions.)
pub proof fn shares_are_told_to_the_nearest(part: nat, whole: nat, h: nat)
    requires
        0 < whole < 0x20_0000_0000_0000,
        1000 * part < 0x10_0000_0000_0000,
    ensures
        100 * part >= 10 * whole && -(whole as int) < 2 * (h * whole - 100 * part) < whole
            ==> percent_label(part, whole) == decimal(h) + "%"@,
        100 * part < 10 * whole && -(whole as int) < 2 * (h * whole - 1000 * part) < whole
            ==> percent_label(part, whole) == fixed(h, 1) + "%"@,
{
    doubles_are_the_nearest(part, 0);
    doubles_are_the_nearest(100 * part, 0);
    doubles_are_the_nearest(whole, 0);
    let num = 100 * part;
    if part == 0 {
        let (m, g, f) = float_quotient(num, whole);
        assert(f == 1 && g == 1);
        lemma_nearest(0, whole, 0);
        assert(num * f == 0 && whole * g == whole);
        assert(m == 0);
        assert(m * g == 0);
        lemma_nearest(0, 1, 0);
        if -(whole as int) < 2 * (h * whole - 1000 * part) < whole {
            assert(h == 0) by (nonlinear_arith)
                requires
                    2 * (h * whole) < whole,
                    whole > 0,
            ;
        }
    } else if num >= 10 * whole {
        if -(whole as int) < 2 * (h * whole - 100 * part) < whole {
            lemma_quotient_rounds(num, whole, 1, h);
            let (m, g, f) = float_quotient(num, whole);
            assert(1 * (m * g) == m * g);
        }
    } else {
        if -(whole as int) < 2 * (h * whole - 1000 * part) < whole {
            lemma_quotient_rounds(num, whole, 10, h);
        }
    }
}

/// A time below a second is told in milliseconds, a longer one in seconds, to the nearest
/// tenth wherever one is nearest.
pub proof fn times_are_told_to_the_nearest(ms: nat, h: nat)
    ensures
        ms < 1000 ==> time_label(ms) == decimal(ms) + " ms"@,
        1000 <= ms && 10 * ms < 0x10_0000_0000_0000 && -100 < 2 * (h * 100 - ms) < 100
            ==> time_label(ms) == fixed(h, 1) + " s"@,
{
    if 1000 <= ms && 10 * ms < 0x10_0000_0000_0000 && -100 < 2 * (h * 100 - ms) < 100 {
        doubles_are_the_nearest(ms, 0);
        lemma_quotient_rounds(ms, 1000, 10, h);
    }
}

/// A count below a thousand is told as it is. A larger one has a comma before its last
/// three digits, and before that it is told as the count of its thousands.
pub proof fn counts_are_told_by_the_thousand(n: nat, rest: nat)
    requires
        rest < 1000,
    ensures
        count_label(rest) == decimal(rest),
        n > 0 ==> count_label(1000 * n + rest) == count_label(n) + seq![
            ',',
            ('0' as int + rest / 100) as char,
            ('0' as int + rest / 10 % 10) as char,
            ('0' as int + rest % 10) as char,
        ],
{
    reveal_strlit(",");
    assert(decimal(rest).len() <= 3) by {
        reveal_with_fuel(decimal, 4);
    }
    if n > 0 {
        let a = rest / 100;
        let b = rest / 10 % 10;
        let c = rest % 10;
        decimal_is_positional(n, a);
        decimal_is_positional(10 * n + a, b);
        decimal_is_positional(10 * (10 * n + a) + b, c);
        let all = 1000 * n + rest;
        assert(all == 10 * (10 * (10 * n + a) + b) + c);
        let s = decimal(all);
        let d = decimal(n);
        let x = ('0' as int + a) as char;
        let y = ('0' as int + b) as char;
        let z = ('0' as int + c) as char;
        assert(s == d.push(x).push(y).push(z));
        assert(s.take(s.len() - 3) == d);
        assert(s.skip(s.len() - 3) == seq![x, y, z]);
        assert(grouped(s) == grouped(d) + ","@ + seq![x, y, z]);
        assert(grouped(d) + ","@ + seq![x, y, z] =~= count_label(n) + seq![',', x, y, z]);
    }
}

/// A text that is too long loses its end to an ellipsis and is then as long as allowed; one
/// that fits stays as it is.
pub proof fn long_texts_end_in_an_ellipsis(s: Seq<char>, max: nat)
    ensures
        s.len() <= max ==> shortened(s, max) == s,
        s.len() > max && max > 0 ==> shortened(s, max).len() == max && shortened(s, max).last()
            == '\u{2026}' && shortened(s, max).drop_last() == s.take(max - 1),
        s.len() > 0 ==> shortened(s, 0) == seq!['\u{2026}'],
{
    if s.len() > max && max > 0 {
        assert(shortened(s, max).drop_last() == s.take(max - 1));
    }
    assert(s.take(0).push('\u{2026}') == seq!['\u{2026}']);
}

proof fn lemma_lift_bounds(num: nat, den: nat, f: nat)
    requires
        0 < num,
        0 < den,
        f > 0,
    ensures
        lift(num, den, f) >= f,
        num * lift(num, den, f) >= 0x10_0000_0000_0000 * den * f,
        lift(num, den, f) > f ==> num * lift(num, den, f) < 0x20_0000_0000_0000 * den * f,
        lift(num, den, f) > f ==> num < 0x10_0000_0000_0000 * den,
        exists|e: nat| lift(num, den, f) == f * #[trigger] pow2(e),
    decreases 0x20_0000_0000_0000 * den - num,
{
    lemma2_to64();
    if num < 0x10_0000_0000_0000 * den {
        let l = lift(2 * num, den, 2 * f);
        lemma_lift_bounds(2 * num, den, 2 * f);
        assert(num * l >= 0x10_0000_0000_0000 * den * f) by (nonlinear_arith)
            requires
                2 * num * l >= 0x10_0000_0000_0000 * den * (2 * f),
        ;
        assert(num * l < 0x20_0000_0000_0000 * den * f) by (nonlinear_arith)
            requires
                l > 2 * f ==> 2 * num * l < 0x20_0000_0000_0000 * den * (2 * f),
                l >= 2 * f,
                2 * num < 0x20_0000_0000_0000 * den,
                f > 0,
                den > 0,
                num > 0,
        ;
        let e = choose|e: nat| l == (2 * f) * #[trigger] pow2(e);
        lemma_pow2_unfold(e + 1);
        assert(l == f * pow2(e + 1)) by (nonlinear_arith)
            requires
                l == (2 * f) * pow2(e),
                pow2(e + 1) == 2 * pow2(e),
        ;
    } else {
        assert(num * f >= 0x10_0000_0000_0000 * den * f) by (nonlinear_arith)
            requires
                num >= 0x10_0000_0000_0000 * den,
                f > 0,
        ;
        assert(f == f * pow2(0)) by (nonlinear_arith)
            requires
                pow2(0) == 1,
        ;
    }
}

proof fn lemma_lower_bounds(num: nat, den: nat, g: nat)
    requires
        0 < den,
        g > 0,
    ensures
        lower_by(num, den, g) >= g,
        num * g < 0x20_0000_0000_0000 * den * lower_by(num, den, g),
        lower_by(num, den, g) > g ==> num * g >= 0x10_0000_0000_0000 * den * lower_by(num, den, g),
        lower_by(num, den, g) > g ==> num >= 0x20_0000_0000_0000 * den,
        exists|e: nat| lower_by(num, den, g) == g * #[trigger] pow2(e),
    decreases num - den,
{
    lemma2_to64();
    if num >= 0x20_0000_0000_0000 * den {
        let l = lower_by(num, 2 * den, 2 * g);
        lemma_lower_bounds(num, 2 * den, 2 * g);
        assert(num * g < 0x20_0000_0000_0000 * den * l) by (nonlinear_arith)
            requires
                num * (2 * g) < 0x20_0000_0000_0000 * (2 * den) * l,
        ;
        assert(num * g >= 0x10_0000_0000_0000 * den * l) by (nonlinear_arith)
            requires
                l > 2 * g ==> num * (2 * g) >= 0x10_0000_0000_0000 * (2 * den) * l,
                l >= 2 * g,
                num >= 0x20_0000_0000_0000 * den,
                g > 0,
                den > 0,
        ;
        let e = choose|e: nat| l == (2 * g) * #[trigger] pow2(e);
        lemma_pow2_unfold(e + 1);
        assert(l == g * pow2(e + 1)) by (nonlinear_arith)
            requires
                l == (2 * g) * pow2(e),
                pow2(e + 1) == 2 * pow2(e),
        ;
    } else {
        assert(num * g < 0x20_0000_0000_0000 * den * g) by (nonlinear_arith)
            requires
                num < 0x20_0000_0000_0000 * den,
                g > 0,
        ;
        assert(g == g * pow2(0)) by (nonlinear_arith)
            requires
                pow2(0) == 1,
        ;
    }
}

/// The quotient of two whole numbers as a double: a significand of 53 bits and a power of
/// two, and the nearest of those to the exact quotient; of two that are equally near, the
/// one with the even significand.
pub proof fn quotients_are_the_nearest_doubles(num: nat, den: nat)
    requires
        0 < num,
        0 < den,
    ensures
        ({
            let (m, g, f) = float_quotient(num, den);
            &&& f == 1 || g == 1
            &&& exists|e: nat| f == #[trigger] pow2(e)
            &&& exists|e: nat| g == #[trigger] pow2(e)
            &&& 0x10_0000_0000_0000 <= m <= 0x20_0000_0000_0000
            &&& nearest(m, num * f, den * g)
        }),
{
    let (m, g, f) = float_quotient(num, den);
    lemma_lift_bounds(num, den, 1);
    lemma_lower_bounds(num, den, 1);
    let e = choose|e: nat| f == 1 * #[trigger] pow2(e);
    assert(f == pow2(e));
    let k = choose|k: nat| g == 1 * #[trigger] pow2(k);
    assert(g == pow2(k));
    assert(den * g >= 1) by (nonlinear_arith)
        requires
            den >= 1,
            g >= 1,
    ;
    rounded_is_the_nearest(num * f, den * g);
    let x = num * f;
    let d = den * g;
    assert(0x10_0000_0000_0000 * d <= x <= 0x20_0000_0000_0000 * d) by {
        if f > 1 {
            assert(g == 1);
            assert(d == den) by (nonlinear_arith)
                requires
                    g == 1,
                    d == den * g,
            ;
        } else {
            assert(f == 1);
            assert(x == num) by (nonlinear_arith)
                requires
                    f == 1,
                    x == num * f,
            ;
            assert(num * 1 == num);
            assert(0x20_0000_0000_0000 * den * g == 0x20_0000_0000_0000 * d) by (nonlinear_arith)
                requires
                    d == den * g,
            ;
            assert(0x10_0000_0000_0000 * den * g == 0x10_0000_0000_0000 * d) by (nonlinear_arith)
                requires
                    d == den * g,
            ;
            if g == 1 {
                assert(d == den) by (nonlinear_arith)
                    requires
                        g == 1,
                        d == den * g,
                ;
            }
        }
    }
    assert(m >= 0x10_0000_0000_0000) by (nonlinear_arith)
        requires
            2 * (m * d - x) >= -(d as int),
            x >= 0x10_0000_0000_0000 * d,
            d > 0,
    ;
    assert(m <= 0x20_0000_0000_0000) by (nonlinear_arith)
        requires
            2 * (m * d - x) <= d,
            x <= 0x20_0000_0000_0000 * d,
            d > 0,
    ;
}

/// A share and a time are told as the doubles that they are, whatever their size: a share
/// of ten percent or more to the nearest whole percent, a smaller one and a time from a
/// second on to the nearest tenth.
pub proof fn labels_round_the_double(part: nat, whole: nat, ms: nat, h: nat)
    requires
        whole > 0,
        ms >= 1000,
    ensures
        ({
            let (m, g, f) = float_quotient(as_float(100 * as_float(part)), as_float(whole));
            &&& m * g >= 10 * f && nearest(h, m * g, f) && f > 0 ==> percent_label(part, whole)
                == decimal(h) + "%"@
            &&& m * g < 10 * f && nearest(h, 10 * (m * g), f) && f > 0 ==> percent_label(part, whole)
                == fixed(h, 1) + "%"@
        }),
        ({
            let (m, g, f) = float_quotient(as_float(ms), 1000);
            nearest(h, 10 * (m * g), f) && f > 0 ==> time_label(ms) == fixed(h, 1) + " s"@
        }),
{
    let (m, g, f) = float_quotient(as_float(100 * as_float(part)), as_float(whole));
    if f > 0 {
        if nearest(h, m * g, f) {
            lemma_nearest(m * g, f, h);
        }
        if nearest(h, 10 * (m * g), f) {
            lemma_nearest(10 * (m * g), f, h);
        }
    }
    let (m2, g2, f2) = float_quotient(as_float(ms), 1000);
    if f2 > 0 && nearest(h, 10 * (m2 * g2), f2) {
        lemma_nearest(10 * (m2 * g2), f2, h);
    }
}

/// Sizes, shares, times, counts and names are shown as their labels.
pub proof fn labels_are_shown(
    n: u64,
    a: String,
    whole: u64,
    b: String,
    c: String,
    d: String,
    s: &str,
    max: usize,
    e: String,
)
    requires
        whole > 0,
        call_ensures(fmt_bytes, (n,), a),
        call_ensures(fmt_pct, (n, whole), b),
        call_ensures(fmt_time, (n,), c),
        call_ensures(fmt_n, (n,), d),
        call_ensures(shorten, (s, max), e),
    ensures
        a@ == bytes_label(n as nat),
        b@ == percent_label(n as nat, whole as nat),
        c@ == time_label(n as nat),
        d@ == count_label(n as nat),
        e@ == shortened(s@, max as nat),
{
}

} // verus!
