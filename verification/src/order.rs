//! How arithmetic on numbers respects their order.

use vstd::arithmetic::power2::*;
use vstd::prelude::*;

use crate::number::Number;
use crate::rounding;

verus! {

/// The place of `v / d` units once rounded.
pub open spec fn rounded_place(v: int, d: nat) -> int {
    let size = rounding::round(vstd::math::abs(v), d);
    let held = if size >= pow2(277) { pow2(277) } else { size };
    if v < 0 {
        -held
    } else {
        held as int
    }
}

/// Places lie between the infinities.
pub proof fn lemma_place_bounds(a: Number)
    requires
        a.is_single(),
    ensures
        -pow2(277) <= a.place() <= pow2(277),
        a is Finite ==> -pow2(277) < a.place() < pow2(277),
        pow2(277) > 0,
{
    lemma_pow2_pos(277);
}

/// Rounded numbers are single precision numbers, never `Nan`.
pub proof fn lemma_rounded(negative: bool, n: nat, d: nat)
    requires
        d > 0,
    ensures
        ({
            let r = Number::rounded(negative, n, d);
            let size = rounding::round(n, d);
            let held = if size >= pow2(277) { pow2(277) } else { size };
            &&& r !is Nan
            &&& r.is_single()
            &&& r.is_negative() == negative
            &&& r.place() == if negative { -held } else { held as int }
        }),
{
    reveal(Number::rounded);
    rounding::lemma_round_representable(n, d);
}

pub proof fn lemma_round_zero(d: nat)
    requires
        d > 0,
    ensures
        rounding::round(0, d) == 0,
        rounding::round(0, 1) == 0,
{
    rounding::lemma_pow2_0();
    assert(0 * pow2(0) == 0);
    rounding::lemma_round_exact(0);
    rounding::lemma_round_same(0, d, 0, 1);
}

pub proof fn lemma_rounded_place_mono(v1: int, d1: nat, v2: int, d2: nat)
    requires
        d1 > 0,
        d2 > 0,
        v1 * d2 <= v2 * d1,
    ensures
        rounded_place(v1, d1) <= rounded_place(v2, d2),
{
    let (a1, a2) = (vstd::math::abs(v1), vstd::math::abs(v2));
    if v1 >= 0 && v2 >= 0 {
        rounding::lemma_round_mono(a1, d1, a2, d2);
    } else if v1 < 0 && v2 < 0 {
        assert(a2 * d1 <= a1 * d2) by (nonlinear_arith)
            requires
                a1 == -v1,
                a2 == -v2,
                v1 * d2 <= v2 * d1,
        ;
        rounding::lemma_round_mono(a2, d2, a1, d1);
    } else if v1 >= 0 {
        assert(v1 * d2 > v2 * d1) by (nonlinear_arith)
            requires
                v1 >= 0,
                v2 < 0,
                d1 > 0,
                d2 > 0,
        ;
    }
}

/// Places of single precision numbers are already rounded.
pub proof fn lemma_rounded_place_exact(a: Number)
    requires
        a.is_single(),
        a is Finite,
    ensures
        rounded_place(a.place(), 1) == a.place(),
{
    rounding::lemma_round_exact(a->units);
}

/// Equal fractions have the same rounded place.
pub proof fn lemma_rounded_place_same(v1: int, d1: nat, v2: int, d2: nat)
    requires
        d1 > 0,
        d2 > 0,
        v1 * d2 == v2 * d1,
    ensures
        rounded_place(v1, d1) == rounded_place(v2, d2),
{
    lemma_rounded_place_mono(v1, d1, v2, d2);
    lemma_rounded_place_mono(v2, d2, v1, d1);
}

pub proof fn lemma_plus_place(a: Number, b: Number)
    requires
        a is Finite,
        b is Finite,
    ensures
        a.plus(b) !is Nan,
        a.plus(b).place() == rounded_place(a.place() + b.place(), 1),
{
    reveal(Number::plus);
    let sum = a.place() + b.place();
    if sum == 0 {
        lemma_round_zero(1);
        lemma_pow2_pos(277);
    } else {
        lemma_rounded(sum < 0, vstd::math::abs(sum), 1);
    }
}

pub proof fn lemma_times_place(a: Number, b: Number)
    requires
        a is Finite,
        b is Finite,
    ensures
        a.times(b) !is Nan,
        a.times(b).place() == rounded_place(a.place() * b.place(), pow2(149)),
{
    reveal(Number::times);
    lemma_pow2_pos(149);
    lemma_pow2_pos(277);
    let negative = a.is_negative() != b.is_negative();
    let (ua, ub) = (a->Finite_units, b->Finite_units);
    lemma_rounded(negative, ua * ub, pow2(149));
    lemma_round_zero(pow2(149));
    let v = a.place() * b.place();
    assert(v == if negative { -(ua * ub) } else { (ua * ub) as int }) by (nonlinear_arith)
        requires
            v == a.place() * b.place(),
            a.place() == if a.is_negative() { -ua } else { ua as int },
            b.place() == if b.is_negative() { -ub } else { ub as int },
            negative == (a.is_negative() != b.is_negative()),
    ;
    assert(ua * ub >= 0) by (nonlinear_arith);
}

pub proof fn lemma_over_place(a: Number, b: Number)
    requires
        a is Finite,
        b is Finite,
        b.place() > 0,
    ensures
        a.over(b) !is Nan,
        a.over(b).place() == rounded_place(a.place() * pow2(149), b.place() as nat),
{
    reveal(Number::over);
    lemma_pow2_pos(149);
    lemma_pow2_pos(277);
    let (ua, ub) = (a->Finite_units, b->Finite_units);
    let one = pow2(149);
    let negative = a.is_negative();
    lemma_rounded(negative, ua * one, ub);
    lemma_round_zero(ub);
    let v = a.place() * one;
    assert(v == if negative { -(ua * one) } else { (ua * one) as int }) by (nonlinear_arith)
        requires
            v == a.place() * one,
            a.place() == if negative { -ua } else { ua as int },
    ;
    assert(ua * one >= 0) by (nonlinear_arith);
}

/// Sums of single precision numbers are single precision numbers.
pub proof fn lemma_plus_single(a: Number, b: Number)
    requires
        a.is_single(),
        b.is_single(),
    ensures
        a.plus(b).is_single(),
{
    reveal(Number::plus);
    if a is Finite && b is Finite {
        let sum = a.place() + b.place();
        if sum == 0 {
            rounding::lemma_pow2_0();
            lemma_pow2_pos(277);
            assert(0 * pow2(0) == 0);
            assert(rounding::representable(0));
        } else {
            lemma_rounded(sum < 0, vstd::math::abs(sum), 1);
        }
    }
}

pub proof fn lemma_minus_single(a: Number, b: Number)
    requires
        a.is_single(),
        b.is_single(),
    ensures
        a.minus(b).is_single(),
{
    lemma_plus_single(a, b.negated());
}

pub proof fn lemma_times_single(a: Number, b: Number)
    requires
        a.is_single(),
        b.is_single(),
    ensures
        a.times(b).is_single(),
{
    reveal(Number::times);
    lemma_pow2_pos(149);
    if a is Finite && b is Finite {
        let negative = a.is_negative() != b.is_negative();
        lemma_rounded(negative, a->Finite_units * b->Finite_units, pow2(149));
    }
}

pub proof fn lemma_over_single(a: Number, b: Number)
    requires
        a.is_single(),
        b.is_single(),
    ensures
        a.over(b).is_single(),
{
    reveal(Number::over);
    lemma_zero_single();
    if a is Finite && b is Finite && b->Finite_units > 0 {
        let negative = a.is_negative() != b.is_negative();
        lemma_rounded(negative, a->Finite_units * pow2(149), b->Finite_units);
    }
}

/// Roots of single precision numbers are single precision numbers.
pub proof fn lemma_root_single(a: Number)
    requires
        a.is_single(),
    ensures
        a.root().is_single(),
{
    reveal(Number::root);
    if a is Finite && a->Finite_units > 0 {
        let whole = rounding::floor_root(a->Finite_units * pow2(149));
        lemma_rounded(false, 2 * whole, 2);
        lemma_rounded(false, 2 * whole + 1, 2);
    }
}

pub proof fn lemma_zero_single()
    ensures
        rounding::representable(0),
        pow2(277) > 0,
        Number::zero().is_single(),
{
    rounding::lemma_pow2_0();
    lemma_pow2_pos(277);
    assert(0 * pow2(0) == 0);
}

/// Adding the same number keeps order.
pub proof fn lemma_plus_mono(a: Number, b: Number, c: Number)
    requires
        a.is_single(),
        b.is_single(),
        c.is_single(),
        a.at_most(b),
        a.plus(c) !is Nan,
        b.plus(c) !is Nan,
    ensures
        a.plus(c).at_most(b.plus(c)),
{
    lemma_place_bounds(a);
    lemma_place_bounds(b);
    lemma_place_bounds(c);
    lemma_plus_single(a, c);
    lemma_plus_single(b, c);
    lemma_place_bounds(a.plus(c));
    lemma_place_bounds(b.plus(c));
    reveal(Number::plus);
    if c is Finite && a is Finite && b is Finite {
        lemma_plus_place(a, c);
        lemma_plus_place(b, c);
        lemma_rounded_place_mono(a.place() + c.place(), 1, b.place() + c.place(), 1);
    }
}

/// Adding does not depend on the order of the two.
pub proof fn lemma_plus_commutes(a: Number, b: Number)
    ensures
        a.plus(b) == b.plus(a),
{
    reveal(Number::plus);
}

/// Subtracting the same number keeps order.
pub proof fn lemma_minus_mono(a: Number, b: Number, c: Number)
    requires
        a.is_single(),
        b.is_single(),
        c.is_single(),
        a.at_most(b),
        a.minus(c) !is Nan,
        b.minus(c) !is Nan,
    ensures
        a.minus(c).at_most(b.minus(c)),
{
    lemma_plus_mono(a, b, c.negated());
}

/// Multiplying by a number that is not negative keeps order.
pub proof fn lemma_times_mono(a: Number, b: Number, c: Number)
    requires
        a.is_single(),
        b.is_single(),
        c.is_single(),
        a.at_most(b),
        c.place() >= 0,
        a.times(c) !is Nan,
        b.times(c) !is Nan,
    ensures
        a.times(c).at_most(b.times(c)),
{
    lemma_place_bounds(a);
    lemma_place_bounds(b);
    lemma_place_bounds(c);
    lemma_times_single(a, c);
    lemma_times_single(b, c);
    lemma_place_bounds(a.times(c));
    lemma_place_bounds(b.times(c));
    lemma_pow2_pos(149);
    if a is Finite && b is Finite && c is Finite {
        lemma_times_place(a, c);
        lemma_times_place(b, c);
        assert((a.place() * c.place()) * pow2(149) <= (b.place() * c.place()) * pow2(149))
            by (nonlinear_arith)
            requires
                a.place() <= b.place(),
                c.place() >= 0,
                pow2(149) > 0,
        ;
        lemma_rounded_place_mono(
            a.place() * c.place(),
            pow2(149),
            b.place() * c.place(),
            pow2(149),
        );
    } else {
        reveal(Number::times);
        lemma_times_sign(a, c);
        lemma_times_sign(b, c);
    }
}

/// The sign of a product with a number that is not negative.
pub proof fn lemma_times_sign(a: Number, c: Number)
    requires
        a.is_single(),
        c.is_single(),
        c !is Nan,
        c.place() >= 0,
        a.times(c) !is Nan,
    ensures
        a.place() >= 0 ==> a.times(c).place() >= 0,
        a.place() <= 0 ==> a.times(c).place() <= 0,
{
    lemma_place_bounds(a);
    lemma_place_bounds(c);
    reveal(Number::times);
    if a is Finite && c is Finite {
        lemma_times_place(a, c);
        let v = a.place() * c.place();
        assert(a.place() >= 0 ==> v >= 0) by (nonlinear_arith)
            requires
                v == a.place() * c.place(),
                c.place() >= 0,
        ;
        assert(a.place() <= 0 ==> v <= 0) by (nonlinear_arith)
            requires
                v == a.place() * c.place(),
                c.place() >= 0,
        ;
        lemma_pow2_pos(149);
        lemma_round_zero(pow2(149));
    }
}

/// Dividing by a positive number keeps order.
pub proof fn lemma_over_mono(a: Number, b: Number, c: Number)
    requires
        a.is_single(),
        b.is_single(),
        c.is_single(),
        c !is Nan,
        a.at_most(b),
        c.place() > 0,
        a.over(c) !is Nan,
        b.over(c) !is Nan,
    ensures
        a.over(c).at_most(b.over(c)),
{
    lemma_place_bounds(a);
    lemma_place_bounds(b);
    lemma_place_bounds(c);
    lemma_over_single(a, c);
    lemma_over_single(b, c);
    lemma_place_bounds(a.over(c));
    lemma_place_bounds(b.over(c));
    if a is Finite && b is Finite && c is Finite {
        lemma_over_place(a, c);
        lemma_over_place(b, c);
        let one = pow2(149);
        let d = c.place() as nat;
        assert((a.place() * one) * d <= (b.place() * one) * d) by (nonlinear_arith)
            requires
                a.place() <= b.place(),
                one >= 0,
                d >= 0,
        ;
        lemma_rounded_place_mono(a.place() * one, d, b.place() * one, d);
    } else {
        reveal(Number::over);
    }
}

/// Whole numbers of at most 24 bits are held exactly.
pub proof fn lemma_whole(i: int)
    requires
        -0x100_0000 <= i <= 0x100_0000,
    ensures
        Number::whole(i) == (Number::Finite {
            negative: i < 0,
            units: vstd::math::abs(i) * pow2(149),
        }),
        Number::whole(i).is_single(),
        Number::whole(i).place() == i * pow2(149),
{
    reveal(Number::whole);
    let q = vstd::math::abs(i);
    assert(rounding::representable(q * pow2(149)));
    rounding::lemma_round_exact(q * pow2(149));
    reveal(Number::rounded);
    lemma_pow2_adds(24, 149);
    rounding::lemma_pow2_24();
    lemma_pow2_strictly_increases(173, 277);
    assert(q * pow2(149) <= pow2(173)) by (nonlinear_arith)
        requires
            q <= 0x100_0000,
            pow2(173) == 0x100_0000 * pow2(149),
    ;
    assert(i * pow2(149) == if i < 0 { -(q * pow2(149)) } else { (q * pow2(149)) as int })
        by (nonlinear_arith)
        requires
            q == if i < 0 { -i } else { i },
    ;
}

/// A fraction of moderate size rounds to a finite number between its bounds.
pub proof fn lemma_ratio_bounds(n: nat, d: nat)
    requires
        n <= 0x100_0000,
        0 < d <= 0x1_0000_0000,
    ensures
        Number::ratio(n, d) is Finite,
        Number::ratio(n, d).is_single(),
        !Number::ratio(n, d).is_negative(),
        0 <= Number::ratio(n, d).place() <= n * pow2(149),
        n >= 1 ==> Number::ratio(n, d).place() > 0,
        n <= d ==> Number::ratio(n, d).place() <= pow2(149),
{
    reveal(Number::ratio);
    reveal(Number::rounded);
    let one = pow2(149);
    let top = n * one;
    lemma_rounded(false, top, d);
    assert(rounding::representable(n * one));
    rounding::lemma_round_exact(n * one);
    assert(top * 1 <= (n * one) * d) by (nonlinear_arith)
        requires
            top == n * one,
            d >= 1,
    ;
    rounding::lemma_round_mono(top, d, n * one, 1);
    lemma_pow2_adds(24, 149);
    rounding::lemma_pow2_24();
    lemma_pow2_strictly_increases(173, 277);
    assert(n * one <= pow2(173)) by (nonlinear_arith)
        requires
            n <= 0x100_0000,
            pow2(173) == 0x100_0000 * one,
    ;
    rounding::lemma_pow2_0();
    if n >= 1 {
        lemma2_to64();
        lemma_pow2_strictly_increases(64, 149);
        assert(1 * pow2(0) == 1);
        assert(rounding::representable(1));
        rounding::lemma_round_exact(1);
        assert(1 * d <= top * 1) by (nonlinear_arith)
            requires
                top == n * one,
                n >= 1,
                one >= d,
        ;
        rounding::lemma_round_mono(1, 1, top, d);
    }
    if n <= d {
        assert(1 * one == one);
        assert(rounding::representable(one));
        rounding::lemma_round_exact(one);
        assert(top * 1 <= one * d) by (nonlinear_arith)
            requires
                top == n * one,
                n <= d,
        ;
        rounding::lemma_round_mono(top, d, one, 1);
    }
}

/// Rounding a magnitude given in steps of `2^t` to a gap of `2^(t + k)`.
pub proof fn lemma_round_to_gap(v: nat, d: nat, t: nat, k: nat, q: nat)
    requires
        0 < d,
        0x80_0000 * (d * pow2(k)) <= v < 0x100_0000 * (d * pow2(k)),
        -(d * pow2(k)) < 2 * (v - q * (d * pow2(k))) < d * pow2(k),
    ensures
        rounding::round(v * pow2(t), d) == q * pow2(t + k),
{
    let gap = pow2(t + k);
    let step = pow2(t);
    let coarse = d * pow2(k);
    rounding::lemma_pow2_24();
    lemma_pow2_pos(t);
    lemma_pow2_pos(k);
    lemma_pow2_adds(t, k);
    lemma_pow2_adds(24, t + k);
    lemma_pow2_adds(23, t + k);
    assert(d * gap == coarse * step) by (nonlinear_arith)
        requires
            coarse == d * pow2(k),
            gap == step * pow2(k),
    ;
    assert(v * step < pow2(24 + (t + k)) * d) by (nonlinear_arith)
        requires
            v < 0x100_0000 * coarse,
            d * gap == coarse * step,
            pow2(24 + (t + k)) == 0x100_0000 * gap,
            step > 0,
    ;
    assert(v * step >= pow2(23 + (t + k)) * d) by (nonlinear_arith)
        requires
            v >= 0x80_0000 * coarse,
            d * gap == coarse * step,
            pow2(23 + (t + k)) == 0x80_0000 * gap,
            step > 0,
    ;
    rounding::lemma_spacing_is(v * step, d, t + k);
    let off = v - q * coarse;
    assert(v * step - q * (coarse * step) == off * step) by (nonlinear_arith)
        requires
            off == v - q * coarse,
    ;
    assert(-(coarse * step) < 2 * (off * step) < coarse * step) by (nonlinear_arith)
        requires
            -coarse < 2 * off < coarse,
            step > 0,
    ;
    assert(coarse * step > 0) by (nonlinear_arith)
        requires
            d > 0,
            coarse == d * pow2(k),
            pow2(k) > 0,
            step > 0,
    ;
    rounding::lemma_nearest_is(v * step, coarse * step, q);
}

/// The single precision number of a decimal fraction: `q / 2^k`.
pub proof fn lemma_ratio_is(n: nat, d: nat, q: nat, k: nat)
    requires
        0 < d,
        k <= 125,
        0x80_0000 * d <= n * pow2(k) < 0x100_0000 * d,
        -d < 2 * (n * pow2(k) - q * d) < d,
    ensures
        Number::ratio(n, d) == (Number::Finite { negative: false, units: q * pow2((149 - k) as nat) }),
{
    reveal(Number::ratio);
    reveal(Number::rounded);
    let t = (149 - k) as nat;
    lemma_pow2_adds(k, t);
    rounding::lemma_pow2_0();
    let v = n * pow2(k);
    assert(v * pow2(t) == n * pow2(149)) by (nonlinear_arith)
        requires
            v == n * pow2(k),
            pow2(149) == pow2(k) * pow2(t),
    ;
    assert(d * pow2(0) == d);
    lemma_round_to_gap(v, d, t, 0, q);
    assert(q <= 0x100_0000) by (nonlinear_arith)
        requires
            2 * (v - q * d) > -d,
            v < 0x100_0000 * d,
            d > 0,
    ;
    lemma_pow2_adds(24, t);
    rounding::lemma_pow2_24();
    lemma_pow2_strictly_increases(24 + t, 277);
    assert(q * pow2(t) <= pow2(24 + t)) by (nonlinear_arith)
        requires
            q <= 0x100_0000,
            pow2(24 + t) == 0x100_0000 * pow2(t),
    ;
}

/// Multiplying does not depend on the order of the two.
pub proof fn lemma_times_commutes(a: Number, b: Number)
    ensures
        a.times(b) == b.times(a),
{
    reveal(Number::times);
    if a is Finite && b is Finite {
        assert(a->Finite_units * b->Finite_units == b->Finite_units * a->Finite_units)
            by (nonlinear_arith);
    }
}

/// A root is not negative.
pub proof fn lemma_root_sign(a: Number)
    ensures
        a.root() is Nan || a.root().place() >= 0,
{
    reveal(Number::root);
    lemma_pow2_pos(277);
    if a is Finite && a->Finite_units > 0 {
        let whole = rounding::floor_root(a->Finite_units * pow2(149));
        lemma_rounded(false, 2 * whole, 2);
        lemma_rounded(false, 2 * whole + 1, 2);
    }
}

/// The whole part of a root, and the root in half units, as it is rounded.
pub proof fn lemma_root_parts(units: nat) -> (r: (nat, nat))
    requires
        units > 0,
    ensures
        r.0 == rounding::floor_root(units * pow2(149)),
        r.0 * r.0 <= units * pow2(149) < (r.0 + 1) * (r.0 + 1),
        r.1 == if r.0 * r.0 == units * pow2(149) { 2 * r.0 } else { 2 * r.0 + 1 },
        (Number::Finite { negative: false, units }).root() == Number::rounded(false, r.1, 2),
{
    reveal(Number::root);
    let whole = rounding::floor_root(units * pow2(149));
    rounding::lemma_floor_root(units * pow2(149));
    let n: nat = if whole * whole == units * pow2(149) { 2 * whole } else { 2 * whole + 1 };
    (whole, n)
}

/// Roots keep order.
pub proof fn lemma_root_mono(a: Number, b: Number)
    requires
        a.is_single(),
        b.is_single(),
        a.at_most(b),
        a.place() >= 0,
    ensures
        a.root().at_most(b.root()),
{
    lemma_place_bounds(a);
    lemma_place_bounds(b);
    lemma_root_single(a);
    lemma_root_single(b);
    lemma_root_sign(b);
    reveal(Number::root);
    if b is Finite && b->Finite_units > 0 {
        let (_, high) = lemma_root_parts(b->Finite_units);
        lemma_rounded(false, high, 2);
        if a->Finite_units > 0 {
            let (small, low) = lemma_root_parts(a->Finite_units);
            lemma_rounded(false, low, 2);
            let (p, q) = (a->Finite_units * pow2(149), b->Finite_units * pow2(149));
            assert(p <= q) by (nonlinear_arith)
                requires
                    a->Finite_units <= b->Finite_units,
                    p == a->Finite_units * pow2(149),
                    q == b->Finite_units * pow2(149),
            ;
            rounding::lemma_floor_root_above(small, q);
            assert(low <= high);
            rounding::lemma_round_mono(low, 2, high, 2);
        }
    } else if b is Infinite {
        lemma_place_bounds(a.root());
        if a is Finite && a->Finite_units > 0 {
            let (_, low) = lemma_root_parts(a->Finite_units);
            lemma_rounded(false, low, 2);
        }
    }
}

/// A root is no less than a number whose square, in units, is no greater.
pub proof fn lemma_root_at_least(a: Number, b: Number)
    requires
        a.is_single(),
        a is Finite,
        a.place() > 0,
        b is Finite,
        b.place() > 0,
        a.place() * a.place() <= b.place() * pow2(149),
    ensures
        a.at_most(b.root()),
{
    let p = a.place() as nat;
    lemma_place_bounds(a);
    let (_, n) = lemma_root_parts(b->Finite_units);
    rounding::lemma_floor_root_above(p, b->Finite_units * pow2(149));
    lemma_rounded(false, n, 2);
    rounding::lemma_round_exact(p);
    rounding::lemma_round_mono(p, 1, n, 2);
}

/// Squares of numbers that are not negative keep order.
pub proof fn lemma_square_mono(a: Number, b: Number)
    requires
        a.is_single(),
        b.is_single(),
        a.at_most(b),
        a.place() >= 0,
    ensures
        a.times(a).at_most(b.times(b)),
        a.times(a).place() >= 0,
{
    lemma_place_bounds(a);
    lemma_place_bounds(b);
    lemma_times_single(a, a);
    if a is Finite {
        lemma_times_place(a, a);
    } else {
        reveal(Number::times);
    }
    lemma_times_sign(a, a);
    lemma_place_bounds(a.times(a));
    if b is Finite {
        lemma_times_place(a, b);
        lemma_times_place(b, b);
        lemma_times_commutes(a, b);
        lemma_times_mono(a, b, a);
        lemma_times_mono(a, b, b);
    } else {
        reveal(Number::times);
    }
}

/// Sums of numbers that are not negative keep order.
pub proof fn lemma_sum_mono(a: Number, b: Number, c: Number, d: Number)
    requires
        a.is_single() && b.is_single() && c.is_single() && d.is_single(),
        a.at_most(b),
        c.at_most(d),
        a.place() >= 0,
        c.place() >= 0,
    ensures
        a.plus(c).at_most(b.plus(d)),
        a.plus(c).place() >= 0,
{
    lemma_sum_sign(a, c);
    lemma_sum_sign(b, c);
    lemma_sum_sign(b, d);
    lemma_plus_mono(a, b, c);
    lemma_plus_commutes(b, c);
    lemma_plus_commutes(b, d);
    lemma_plus_mono(c, d, b);
}

/// A sum of numbers that are not negative is a number that is not negative.
pub proof fn lemma_sum_sign(a: Number, b: Number)
    requires
        a.is_single(),
        b.is_single(),
        a !is Nan,
        b !is Nan,
        a.place() >= 0,
        b.place() >= 0,
    ensures
        a.plus(b) !is Nan,
        a.plus(b).place() >= 0,
        a.at_most(a.plus(b)),
{
    lemma_place_bounds(a);
    lemma_place_bounds(b);
    if a is Finite {
        lemma_plus_grows(a, b);
    } else {
        reveal(Number::plus);
    }
}

/// Adding a zero keeps the place.
pub proof fn lemma_plus_zero(a: Number, z: Number)
    requires
        a.is_single(),
        a is Finite,
        z is Finite,
        z.place() == 0,
    ensures
        a.plus(z) is Finite,
        a.plus(z).place() == a.place(),
{
    lemma_zero_single();
    lemma_plus_place(a, z);
    lemma_rounded_place_exact(a);
    lemma_plus_single(a, z);
    lemma_place_bounds(a);
    lemma_place_bounds(a.plus(z));
}

/// Multiplying by one keeps the place.
pub proof fn lemma_times_one(a: Number)
    requires
        a.is_single(),
        a is Finite,
    ensures
        a.times(Number::whole(1)) is Finite,
        a.times(Number::whole(1)).place() == a.place(),
        Number::whole(1).times(a) is Finite,
        Number::whole(1).times(a).place() == a.place(),
{
    let one = pow2(149);
    lemma_whole(1);
    lemma_times_place(a, Number::whole(1));
    lemma_pow2_pos(149);
    assert(1 * one == one);
    assert((a.place() * one) * 1 == a.place() * one) by (nonlinear_arith);
    lemma_rounded_place_same(a.place() * one, one, a.place(), 1);
    lemma_rounded_place_exact(a);
    lemma_times_single(a, Number::whole(1));
    lemma_place_bounds(a);
    lemma_place_bounds(a.times(Number::whole(1)));
    lemma_times_commutes(a, Number::whole(1));
}

/// Subtracting the number itself leaves nothing.
pub proof fn lemma_minus_self(a: Number)
    requires
        a is Finite,
    ensures
        a.minus(a) == Number::zero(),
{
    reveal(Number::plus);
}

/// One half is held exactly.
pub proof fn lemma_half()
    ensures
        Number::ratio(1, 2) == (Number::Finite { negative: false, units: pow2(148) }),
        2 * pow2(148) == pow2(149),
        Number::ratio(1, 2).is_single(),
{
    lemma_pow2_unfold(149);
    lemma2_to64();
    assert(1 * pow2(24) == 0x100_0000);
    lemma_ratio_bounds(1, 2);
    lemma_ratio_is(1, 2, 0x80_0000, 24);
    lemma_pow2_adds(23, 125);
}

/// Equal fractions are the same number.
pub proof fn lemma_ratio_same(n1: nat, d1: nat, n2: nat, d2: nat)
    requires
        0 < d1,
        0 < d2,
        n1 * d2 == n2 * d1,
    ensures
        Number::ratio(n1, d1) == Number::ratio(n2, d2),
{
    reveal(Number::ratio);
    reveal(Number::rounded);
    let one = pow2(149);
    assert((n1 * one) * d2 == (n2 * one) * d1) by (nonlinear_arith)
        requires
            n1 * d2 == n2 * d1,
    ;
    rounding::lemma_round_same(n1 * one, d1, n2 * one, d2);
}

/// A larger fraction does not round to less.
pub proof fn lemma_ratio_mono(n1: nat, d1: nat, n2: nat, d2: nat)
    requires
        n1 <= 0x100_0000,
        n2 <= 0x100_0000,
        0 < d1 <= 0x1_0000_0000,
        0 < d2 <= 0x1_0000_0000,
        n1 * d2 <= n2 * d1,
    ensures
        Number::ratio(n1, d1).at_most(Number::ratio(n2, d2)),
{
    lemma_ratio_bounds(n1, d1);
    lemma_ratio_bounds(n2, d2);
    reveal(Number::ratio);
    let one = pow2(149);
    assert((n1 * one) * d2 <= (n2 * one) * d1) by (nonlinear_arith)
        requires
            n1 * d2 <= n2 * d1,
            one >= 0,
    ;
    lemma_rounded(false, n1 * one, d1);
    lemma_rounded(false, n2 * one, d2);
    rounding::lemma_round_mono(n1 * one, d1, n2 * one, d2);
}

/// The lesser from the greater leaves no less than nothing.
pub proof fn lemma_minus_sign(a: Number, b: Number)
    requires
        a.is_single(),
        b.is_single(),
        a !is Nan,
        b !is Nan,
        a.minus(b) !is Nan,
    ensures
        b.at_most(a) ==> a.minus(b).place() >= 0,
        a.at_most(b) ==> a.minus(b).place() <= 0,
{
    lemma_place_bounds(a);
    lemma_place_bounds(b);
    if a is Finite && b is Finite {
        lemma_plus_place(a, b.negated());
        lemma_pow2_pos(277);
        lemma_round_zero(1);
    } else {
        reveal(Number::plus);
    }
}

/// Adding a number that is not negative makes no less.
pub proof fn lemma_plus_grows(a: Number, b: Number)
    requires
        a.is_single(),
        b.is_single(),
        a is Finite,
        b !is Nan,
    ensures
        a.plus(b) !is Nan,
        b.place() >= 0 ==> a.at_most(a.plus(b)),
        b.place() <= 0 ==> a.plus(b).at_most(a),
{
    lemma_place_bounds(a);
    lemma_place_bounds(b);
    if b is Finite {
        lemma_plus_place(a, b);
        lemma_rounded_place_exact(a);
        if b.place() >= 0 {
            lemma_rounded_place_mono(a.place(), 1, a.place() + b.place(), 1);
        }
        if b.place() <= 0 {
            lemma_rounded_place_mono(a.place() + b.place(), 1, a.place(), 1);
        }
    } else {
        reveal(Number::plus);
    }
}

/// Dividing a finite number that is not zero by itself gives one.
pub proof fn lemma_over_self(a: Number)
    requires
        a is Finite,
        a.place() != 0,
    ensures
        a.over(a) == Number::whole(1),
{
    reveal(Number::over);
    lemma_whole(1);
    let u = a->Finite_units;
    let one = pow2(149);
    assert((u * one) * 1 == one * u) by (nonlinear_arith);
    rounding::lemma_round_same(u * one, u, one, 1);
    assert(1 * one == one);
    assert(rounding::representable(one));
    rounding::lemma_round_exact(one);
    reveal(Number::rounded);
    lemma_pow2_strictly_increases(149, 277);
}

/// A quotient is at most one where the divisor is no less.
pub proof fn lemma_over_at_most_one(a: Number, b: Number)
    requires
        a.is_single(),
        b.is_single(),
        a.at_most(b),
        b.place() > 0,
        a.over(b) !is Nan,
    ensures
        a.over(b).at_most(Number::whole(1)),
{
    lemma_whole(1);
    lemma_pow2_pos(149);
    if b is Finite {
        lemma_over_self(b);
        lemma_over_mono(a, b, b);
    } else {
        reveal(Number::over);
    }
}

/// The sign of a quotient by a positive number.
pub proof fn lemma_over_sign(a: Number, b: Number)
    requires
        a.is_single(),
        b.is_single(),
        b !is Nan,
        b.place() > 0,
        a.over(b) !is Nan,
    ensures
        a.place() >= 0 ==> a.over(b).place() >= 0,
        a.place() <= 0 ==> a.over(b).place() <= 0,
{
    lemma_place_bounds(a);
    lemma_place_bounds(b);
    reveal(Number::over);
    if a is Finite && b is Finite {
        lemma_over_place(a, b);
        let v = a.place() * pow2(149);
        assert(a.place() >= 0 ==> v >= 0) by (nonlinear_arith)
            requires
                v == a.place() * pow2(149),
        ;
        assert(a.place() <= 0 ==> v <= 0) by (nonlinear_arith)
            requires
                v == a.place() * pow2(149),
        ;
        lemma_round_zero(b.place() as nat);
    }
}

/// A product with a factor from zero to one lies between zero and the other factor.
pub proof fn lemma_times_shrinks(a: Number, f: Number)
    requires
        a.is_single(),
        f.is_single(),
        a is Finite,
        f is Finite,
        0 <= f.place() <= pow2(149),
    ensures
        a.times(f) is Finite,
        a.times(f).is_single(),
        a.place() >= 0 ==> 0 <= a.times(f).place() <= a.place(),
        a.place() <= 0 ==> a.place() <= a.times(f).place() <= 0,
{
    let one = pow2(149);
    let (p, q) = (a.place(), f.place());
    lemma_pow2_pos(149);
    lemma_times_place(a, f);
    lemma_times_single(a, f);
    lemma_times_sign(a, f);
    lemma_rounded_place_exact(a);
    if p >= 0 {
        assert((p * q) * 1 <= p * one) by (nonlinear_arith)
            requires
                p >= 0,
                q <= one,
        ;
        lemma_rounded_place_mono(p * q, one, p, 1);
    }
    if p <= 0 {
        assert(p * one <= (p * q) * 1) by (nonlinear_arith)
            requires
                p <= 0,
                q <= one,
        ;
        lemma_rounded_place_mono(p, 1, p * q, one);
    }
    lemma_place_bounds(a);
    lemma_place_bounds(a.times(f));
}

/// Magnitudes whose significand has its last bit to spare.
pub open spec fn spares_a_bit(u: nat) -> bool {
    exists|q: nat, t: nat| #![trigger q * pow2(t)] u == q * pow2(t) && q <= 0x80_0000
}

/// Half a gap above such a magnitude rounds back to it.
pub proof fn lemma_half_gap_above(u: nat)
    requires
        spares_a_bit(u),
        rounding::spacing(u, 1) > 0,
    ensures
        rounding::round(u + pow2((rounding::spacing(u, 1) - 1) as nat), 1) == u,
{
    let (q, t) = choose|q: nat, t: nat| #![trigger q * pow2(t)] u == q * pow2(t) && q <= 0x80_0000;
    lemma_half_gap_above_parts(u, q, t);
}

proof fn lemma_half_gap_above_parts(u: nat, q: nat, t: nat)
    requires
        u == q * pow2(t),
        q <= 0x80_0000,
        rounding::spacing(u, 1) > 0,
    ensures
        rounding::round(u + pow2((rounding::spacing(u, 1) - 1) as nat), 1) == u,
{
    let s = rounding::spacing(u, 1);
    let gap = pow2(s);
    let half = pow2((s - 1) as nat);
    rounding::lemma_spacing_bounds(u, 1);
    rounding::lemma_pow2_24();
    lemma_pow2_unfold(s);
    lemma_pow2_pos((s - 1) as nat);
    lemma_pow2_pos(t);
    lemma_pow2_adds(24, s);
    lemma_pow2_adds(23, s);
    if t < s {
        lemma_pow2_strictly_increases(t, s);
        assert(q * pow2(t) < 0x80_0000 * gap) by (nonlinear_arith)
            requires
                q <= 0x80_0000,
                pow2(t) < gap,
                pow2(t) > 0,
        ;
        assert(false);
    }
    let k = (t - s) as nat;
    lemma_pow2_adds(k, s);
    let m = q * pow2(k);
    assert(u == m * gap) by (nonlinear_arith)
        requires
            u == q * pow2(t),
            pow2(t) == pow2(k) * gap,
            m == q * pow2(k),
    ;
    assert(0x80_0000 <= m < 0x100_0000) by (nonlinear_arith)
        requires
            u == m * gap,
            0x80_0000 * gap <= u < 0x100_0000 * gap,
            gap > 0,
    ;
    if k == 0 {
        rounding::lemma_pow2_0();
        assert(m == q);
    } else {
        lemma_pow2_unfold(k);
        let w = q * pow2((k - 1) as nat);
        assert(m == 2 * w) by (nonlinear_arith)
            requires
                m == q * pow2(k),
                pow2(k) == 2 * pow2((k - 1) as nat),
                w == q * pow2((k - 1) as nat),
        ;
    }
    assert(m % 2 == 0);
    let v = u + half;
    assert(m * gap + gap <= 0x100_0000 * gap) by (nonlinear_arith)
        requires
            m + 1 <= 0x100_0000,
            gap > 0,
    ;
    rounding::lemma_spacing_is(v, 1, s);
    assert(v == gap * m + half) by (nonlinear_arith)
        requires
            v == u + half,
            u == m * gap,
    ;
    vstd::arithmetic::div_mod::lemma_fundamental_div_mod_converse(
        v as int,
        gap as int,
        m as int,
        half as int,
    );
    assert(1 * gap == gap);
}

} // verus!
