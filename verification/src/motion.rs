//! How the pointer moves, and what a frame does to a session.

use vstd::arithmetic::power2::*;
use vstd::prelude::*;

use crate::aiming;
use crate::laws;
use crate::measures::moderate;
use crate::number::Number;
use crate::order;
use crate::pointer;
use crate::steering;
use crate::value;
use crate::value::{grain, size, speck};

verus! {

/// Whether `k` is the whole part of a number, toward zero, as far as 32 bits
/// with a sign can hold it; `Nan` has the whole part zero.
pub open spec fn whole_part(x: Number, k: int) -> bool {
    let one = pow2(149) as int;
    &&& i32::MIN <= k <= i32::MAX
    &&& x is Nan ==> k == 0
    &&& x !is Nan && x.place() >= 0 ==> {
        &&& 0 <= k && k * one <= x.place()
        &&& x.place() < (k + 1) * one || k == i32::MAX
    }
    &&& x !is Nan && x.place() < 0 ==> {
        &&& k <= 0 && x.place() <= k * one
        &&& (k - 1) * one < x.place() || k == i32::MIN
    }
}

/// A number has one whole part.
proof fn lemma_whole_part(x: Number, k: int)
    requires
        x.is_single(),
        whole_part(x, k),
    ensures
        x.truncated() == k,
        whole_part(x, x.truncated()),
{
    reveal(Number::truncated);
    lemma_pow2_pos(149);
    lemma_pow2_adds(33, 149);
    lemma_pow2_strictly_increases(182, 277);
    lemma2_to64();
    lemma2_to64_rest();
    let one = pow2(149) as int;
    if x is Finite {
        let units = x->Finite_units as int;
        let q = units / one;
        vstd::arithmetic::div_mod::lemma_fundamental_div_mod(units, one);
        vstd::arithmetic::div_mod::lemma_mod_bound(units, one);
        assert(one * q == q * one) by (nonlinear_arith);
        assert((q + 1) * one == q * one + one) by (nonlinear_arith);
        let n = if x.place() >= 0 { k } else { -k };
        assert(n * one <= units) by (nonlinear_arith)
            requires
                (n == k && k * one <= units) || (n == -k && -units <= k * one),
        ;
        assert(n <= q) by (nonlinear_arith)
            requires
                n * one <= units,
                units < (q + 1) * one,
                one > 0,
        ;
        if (x.place() >= 0 && k != i32::MAX) || (x.place() < 0 && k != i32::MIN) {
            assert(units < (n + 1) * one) by (nonlinear_arith)
                requires
                    (n == k && units < (k + 1) * one) || (n == -k && (k - 1) * one < -units),
            ;
            assert(q <= n) by (nonlinear_arith)
                requires
                    q * one <= units,
                    units < (n + 1) * one,
                    one > 0,
            ;
        }
    } else if x is Infinite {
        let top = pow2(277) as int;
        assert(top > 0x1_0000_0001 * one) by (nonlinear_arith)
            requires
                top > pow2(182),
                pow2(182) == 0x2_0000_0000 * one,
                one > 0,
        ;
        if x.place() >= 0 {
            if k < i32::MAX {
                assert((k + 1) * one <= 0x1_0000_0001 * one) by (nonlinear_arith)
                    requires
                        k < 0x7fff_ffff,
                        one > 0,
                ;
            }
        } else if k > i32::MIN {
            assert((k - 1) * one >= -0x1_0000_0001 * one) by (nonlinear_arith)
                requires
                    k > -0x8000_0000,
                    one > 0,
            ;
        }
    }
}

/// The mouse is moved exactly where the whole part of either coordinate has
/// changed, and then to the whole parts of the new position.
pub proof fn mouse_moves_to_changed_pixel(
    old_x: Number,
    old_y: Number,
    new_x: Number,
    new_y: Number,
    from_x: int,
    from_y: int,
    to_x: int,
    to_y: int,
)
    requires
        old_x.is_single() && old_y.is_single() && new_x.is_single() && new_y.is_single(),
        whole_part(old_x, from_x),
        whole_part(old_y, from_y),
        whole_part(new_x, to_x),
        whole_part(new_y, to_y),
    ensures
        ({
            let moved = pointer::pixel_move(old_x, old_y, new_x, new_y);
            &&& moved is Some <==> to_x != from_x || to_y != from_y
            &&& moved matches Some((x, y)) ==> x == to_x && y == to_y
        }),
{
    lemma_whole_part(old_x, from_x);
    lemma_whole_part(old_y, from_y);
    lemma_whole_part(new_x, to_x);
    lemma_whole_part(new_y, to_y);
}

/// Every number has a whole part: the one that it is cut to.
pub proof fn whole_part_is_cut_to(x: Number)
    requires
        x.is_single(),
    ensures
        whole_part(x, x.truncated()),
{
    reveal(Number::truncated);
    lemma_pow2_pos(149);
    lemma_pow2_adds(33, 149);
    lemma_pow2_strictly_increases(182, 277);
    lemma2_to64();
    lemma2_to64_rest();
    let one = pow2(149) as int;
    let k = x.truncated();
    if x is Finite {
        let units = x->Finite_units as int;
        let q = units / one;
        vstd::arithmetic::div_mod::lemma_fundamental_div_mod(units, one);
        vstd::arithmetic::div_mod::lemma_mod_bound(units, one);
        assert(one * q == q * one) by (nonlinear_arith);
        assert((q + 1) * one == q * one + one) by (nonlinear_arith);
        assert(q >= 0) by (nonlinear_arith)
            requires
                (q + 1) * one > units,
                units >= 0,
                one > 0,
        ;
        let n: int = if x.is_negative() { -k } else { k };
        assert(0 <= n <= q);
        assert(n * one <= q * one) by (nonlinear_arith)
            requires
                n <= q,
                one > 0,
        ;
        assert((-n) * one == -(n * one) && (-n - 1) * one == -(n * one) - one && (n + 1) * one == n
            * one + one) by (nonlinear_arith);
        assert(0 * one == 0 && 1 * one == one && -1 * one == -one);
    } else if x is Infinite {
        assert(0x7fff_ffff * one <= pow2(277) && -pow2(277) <= -0x8000_0000 * one)
            by (nonlinear_arith)
            requires
                pow2(277) > pow2(182),
                pow2(182) == 0x2_0000_0000 * one,
                one > 0,
        ;
    }
}

/// The square of the distance between two points of the plane.
#[verifier::opaque]
pub open spec fn apart_squared(x: real, y: real, tx: real, ty: real) -> real {
    (tx - x) * (tx - x) + (ty - y) * (ty - y)
}

/// The largest coordinate that these laws speak of.
pub open spec fn far() -> real {
    0x40_0000_0000real
}

/// Within 25 pixels, and a hair for rounding, the smoothing is a tenth of what
/// it is beyond them.
pub proof fn smoothing_drops_near_target(
    x: Number,
    y: Number,
    tx: Number,
    ty: Number,
    factor: Number,
)
    requires
        x.is_single() && y.is_single() && tx.is_single() && ty.is_single(),
        x is Finite && size(x.value()) <= far(),
        y is Finite && size(y.value()) <= far(),
        tx is Finite && size(tx.value()) <= far(),
        ty is Finite && size(ty.value()) <= far(),
        factor is Finite && 0real <= factor.value() <= 1real,
    ensures
        ({
            let active = pointer::active_factor(tx.minus(x), ty.minus(y), factor);
            let squared = apart_squared(x.value(), y.value(), tx.value(), ty.value());
            &&& squared <= 625real * (1real - 16real * grain()) ==> active is Finite && size(
                active.value() - factor.value() / 10real,
            ) <= grain()
            &&& squared >= 625real * (1real + 16real * grain()) ==> active == factor
            &&& active == factor || (active is Finite && size(
                active.value() - factor.value() / 10real,
            ) <= grain())
        }),
{
    value::lemma_wide();
    lemma_tenth(factor);
    let g = grain();
    let (dx, dy) = (tx.value() - x.value(), ty.value() - y.value());
    let (a, b) = (tx.minus(x), ty.minus(y));
    let squared = apart_squared(x.value(), y.value(), tx.value(), ty.value());
    assert(squared == dx * dx + dy * dy) by {
        reveal(apart_squared);
    }
    lemma_leg(tx, x);
    lemma_leg(ty, y);
    let (p, q) = (a.magnitude(), b.magnitude());
    steering::lemma_squares(p, q, dx, dy);
    assert(p.times(p) == a.times(a) && q.times(q) == b.times(b)) by {
        reveal(Number::times);
    }
    let s = p.times(p).plus(q.times(q));
    order::lemma_times_single(p, p);
    order::lemma_times_single(q, q);
    order::lemma_square_mono(p, p);
    order::lemma_square_mono(q, q);
    order::lemma_sum_sign(p.times(p), q.times(q));
    order::lemma_plus_single(p.times(p), q.times(q));
    value::root_is_near(s);
    let r = s.root();
    let (rv, sv) = (r.value(), s.value());
    let r2 = rv * rv;
    value::lemma_whole_value(25);
    value::lemma_value_order(Number::whole(25), r);
    value::lemma_value_order(r, Number::whole(25));
    assert(r == pointer::distance(a, b));
    lemma_against_25(squared, sv, r2, rv);
}

proof fn lemma_against_25(squared: real, sv: real, r2: real, rv: real)
    requires
        squared >= 0real,
        -(9real / 2real * grain() * squared + 3real * speck()) <= sv - squared,
        sv - squared <= 9real / 2real * grain() * squared + 3real * speck(),
        r2 == rv * rv,
        rv >= 0real,
        size(r2 - sv) <= 5real * grain() * sv,
        0real < speck(),
        speck() <= grain() * grain(),
    ensures
        squared <= 625real * (1real - 16real * grain()) ==> rv < 25real,
        squared >= 625real * (1real + 16real * grain()) ==> rv >= 25real,
{
    let g = grain();
    if squared <= 625real * (1real - 16real * g) {
        assert(r2 < 625real) by (nonlinear_arith)
            requires
                0real <= squared <= 625real * (1real - 16real * g),
                sv - squared <= 9real / 2real * g * squared + 3real * speck(),
                r2 - sv <= 5real * g * sv,
                speck() <= g * g,
                g == 1real / 0x100_0000real,
        ;
        assert(rv < 25real) by (nonlinear_arith)
            requires
                r2 == rv * rv,
                r2 < 625real,
                rv >= 0real,
        ;
    }
    if squared >= 625real * (1real + 16real * g) {
        assert(r2 >= 625real) by (nonlinear_arith)
            requires
                squared >= 625real * (1real + 16real * g),
                -(9real / 2real * g * squared + 3real * speck()) <= sv - squared,
                -(5real * g * sv) <= r2 - sv,
                speck() <= g * g,
                g == 1real / 0x100_0000real,
        ;
        assert(rv >= 25real) by (nonlinear_arith)
            requires
                r2 == rv * rv,
                r2 >= 625real,
                rv >= 0real,
        ;
    }
}

/// One leg of the distance to a target.
proof fn lemma_leg(t: Number, x: Number)
    requires
        t.is_single() && x.is_single(),
        t is Finite && size(t.value()) <= far(),
        x is Finite && size(x.value()) <= far(),
    ensures
        t.minus(x) is Finite,
        t.minus(x).magnitude() is Finite,
        t.minus(x).magnitude().is_single(),
        t.minus(x).magnitude().place() >= 0,
        0real <= t.minus(x).magnitude().value() <= 0x100_0000_0000real,
        ({
            let d = t.value() - x.value();
            size(t.minus(x).magnitude().value() - size(d)) <= size(d) * grain()
        }),
{
    lemma_pow2_strictly_increases(39, 100);
    lemma2_to64();
    lemma2_to64_rest();
    assert(moderate(t) && moderate(x));
    steering::lemma_apart(t, x);
    let d = t.value() - x.value();
    let m = t.minus(x).magnitude();
    value::lemma_grain(size(m.value() - size(d)), size(d));
    value::lemma_magnitude(t.minus(x));
}

/// A tenth of the smoothing.
proof fn lemma_tenth(factor: Number)
    requires
        factor is Finite,
        0real <= factor.value() <= 1real,
    ensures
        factor.times(Number::ratio(1, 10)) is Finite,
        size(factor.times(Number::ratio(1, 10)).value() - factor.value() / 10real) <= grain(),
{
    value::lemma_wide();
    value::ratio_is_near(1, 10);
    let t = Number::ratio(1, 10);
    let (f, tv, g, tenth) = (factor.value(), t.value(), grain(), 1real / 10real);
    value::lemma_grain(size(tv - tenth), tenth);
    let exact = f * tv;
    assert(0real <= exact <= 1real / 5real) by (nonlinear_arith)
        requires
            exact == f * tv,
            0real <= f <= 1real,
            0real <= tv,
            0x100_0000real * (tv - tenth) <= tenth,
            tenth == 1real / 10real,
    ;
    value::times_within(factor, t, exact, 1real / 5real);
    let r = factor.times(t).value();
    let want = f / 10real;
    assert(-g <= r - want <= g) by (nonlinear_arith)
        requires
            want == f / 10real,
            exact == f * tv,
            0real <= f <= 1real,
            -tenth <= 0x100_0000real * (tv - tenth) <= tenth,
            tenth == 1real / 10real,
            -(1real / 5real) <= 0x100_0000real * (r - exact + speck()),
            0x100_0000real * (r - exact - speck()) <= 1real / 5real,
            speck() <= g * g,
            g == 1real / 0x100_0000real,
    ;
    value::lemma_size(r - want, g);
}

/// The point a given part of the way from `x` to `t`.
#[verifier::opaque]
pub open spec fn toward(x: real, t: real, part: real) -> real {
    x + (t - x) * part
}

pub proof fn lemma_toward_bounds(x: real, t: real, part: real, most: real)
    requires
        -most <= x <= most,
        -most <= t <= most,
        0real <= part <= 1real,
    ensures
        -most <= toward(x, t, part) <= most,
{
    reveal(toward);
    let (d, p) = (t - x, (t - x) * part);
    if d >= 0real {
        assert(0real <= p <= d) by (nonlinear_arith)
            requires
                p == d * part,
                d >= 0real,
                0real <= part <= 1real,
        ;
    } else {
        assert(d <= p <= 0real) by (nonlinear_arith)
            requires
                p == d * part,
                d <= 0real,
                0real <= part <= 1real,
        ;
    }
}

/// How far the way shifts with target and part.
pub proof fn lemma_toward_shift(x: real, t: real, a: real, t0: real, a0: real, shift: real, span: real)
    requires
        0real <= a0 <= 1real,
        -shift <= t - t0 <= shift,
        -grain() <= a - a0 <= grain(),
        -span <= t - x <= span,
    ensures
        -(shift + span * grain()) <= toward(x, t, a) - toward(x, t0, a0) <= shift + span * grain(),
{
    let g = grain();
    let (d, d0) = (t - x, t0 - x);
    let (p, p0) = (d * a, d0 * a0);
    let (u, v) = (d * (a - a0), (t - t0) * a0);
    assert(toward(x, t, a) - toward(x, t0, a0) == p - p0) by {
        reveal(toward);
    }
    assert(u == p - d * a0) by (nonlinear_arith)
        requires
            u == d * (a - a0),
            p == d * a,
    ;
    assert(v == d * a0 - p0) by (nonlinear_arith)
        requires
            v == (t - t0) * a0,
            p0 == d0 * a0,
            d - d0 == t - t0,
    ;
    lemma_bounded_product(d, a - a0, u, span, g);
    lemma_bounded_product(t - t0, a0, v, shift, 1real);
}

/// A product of two bounded reals.
pub proof fn lemma_bounded_product(x: real, y: real, p: real, a: real, b: real)
    requires
        p == x * y,
        -a <= x <= a,
        -b <= y <= b,
    ensures
        -(a * b) <= p <= a * b,
{
    assert(a >= 0real && b >= 0real);
    value::lemma_size_product(x, y);
    let (s, t) = (size(x), size(y));
    assert(s * t <= a * b) by (nonlinear_arith)
        requires
            0real <= s <= a,
            0real <= t <= b,
    ;
}

/// A step leads the given part of the way to its target, but for eight grains
/// of the largest coordinate.
pub proof fn step_is_near(x: Number, t: Number, active: Number, part: real, most: real)
    requires
        x is Finite && size(x.value()) <= most,
        t is Finite && size(t.value()) <= most,
        1real <= most <= far(),
        active is Finite && 0real <= active.value() <= 1real,
        0real <= part <= 1real,
        size(active.value() - part) <= grain(),
    ensures
        pointer::advanced(x, t, active) is Finite,
        size(pointer::advanced(x, t, active).value() - toward(x.value(), t.value(), part)) <= 8real
            * grain() * most,
{
    value::lemma_wide();
    let (g, m) = (grain(), most);
    let (xv, tv, av) = (x.value(), t.value(), active.value());
    value::minus_within(t, x, 2real * m);
    let d = t.minus(x);
    let dv = d.value();
    let p = dv * av;
    let span = 2real * m + 2real * (m * g);
    assert(-span <= dv <= span) by (nonlinear_arith)
        requires
            -(2real * m) <= 0x100_0000real * (dv - (tv - xv)) <= 2real * m,
            -m <= xv <= m,
            -m <= tv <= m,
            span == 2real * m + 2real * (m * g),
            g == 1real / 0x100_0000real,
    ;
    assert(m * g <= m && m * g > 0real && m * g >= 0x100real * speck()) by (nonlinear_arith)
        requires
            m >= 1real,
            g == 1real / 0x100_0000real,
            speck() <= g * g,
    ;
    lemma_bounded_product(dv, av, p, span, 1real);
    value::times_within(d, active, p, span);
    let q = d.times(active);
    let qv = q.value();
    let exact = toward(xv, tv, part);
    // The computed way, taken by the exact part of it.
    let tv2 = xv + dv;
    lemma_toward_shift(xv, tv2, av, tv, part, 2real * (m * g), span);
    lemma_toward_bounds(xv, tv, part, m);
    assert(toward(xv, tv2, av) == xv + p) by {
        reveal(toward);
    }
    assert(-(2real * (m * g)) <= tv2 - tv <= 2real * (m * g)) by (nonlinear_arith)
        requires
            -(2real * m) <= 0x100_0000real * (dv - (tv - xv)) <= 2real * m,
            tv2 == xv + dv,
            g == 1real / 0x100_0000real,
    ;
    let mg = m * g;
    assert(span * g <= 21real / 10real * mg) by (nonlinear_arith)
        requires
            span == 2real * m + 2real * mg,
            mg == m * g,
            m >= 0real,
            g == 1real / 0x100_0000real,
    ;
    let sum = xv + qv;
    lemma_step_sum(xv, p, qv, exact, m, mg, span, span * g);
    value::plus_within(x, q, 11real / 10real * m);
    let r = pointer::advanced(x, t, active).value();
    lemma_step_total(r, sum, exact, m, mg);
    value::lemma_size(r - exact, 8real * g * m);
}

proof fn lemma_step_sum(
    x: real,
    p: real,
    q: real,
    exact: real,
    m: real,
    mg: real,
    span: real,
    spang: real,
)
    requires
        -m <= exact <= m,
        m >= 1real,
        mg == m * grain(),
        mg >= 0x100real * speck(),
        speck() > 0real,
        span == 2real * m + 2real * mg,
        spang <= 21real / 10real * mg,
        -(2real * mg + spang) <= x + p - exact <= 2real * mg + spang,
        -span <= 0x100_0000real * (q - p + speck()),
        0x100_0000real * (q - p - speck()) <= span,
    ensures
        -(62real / 10real * mg) <= x + q - exact <= 62real / 10real * mg,
        -(11real / 10real * m) <= x + q <= 11real / 10real * m,
{
    let g = grain();
    assert(-(62real / 10real * mg) <= x + q - exact <= 62real / 10real * mg && -(11real / 10real
        * m) <= x + q <= 11real / 10real * m) by (nonlinear_arith)
        requires
            -m <= exact <= m,
            m >= 1real,
            mg == m * g,
            g == 1real / 0x100_0000real,
            mg >= 0x100real * speck(),
            speck() > 0real,
            span == 2real * m + 2real * mg,
            spang <= 21real / 10real * mg,
            -(2real * mg + spang) <= x + p - exact <= 2real * mg + spang,
            -span <= 0x100_0000real * (q - p + speck()),
            0x100_0000real * (q - p - speck()) <= span,
    ;
}

proof fn lemma_step_total(r: real, sum: real, exact: real, m: real, mg: real)
    requires
        m >= 1real,
        mg == m * grain(),
        -(62real / 10real * mg) <= sum - exact <= 62real / 10real * mg,
        -(11real / 10real * m) <= 0x100_0000real * (r - sum) <= 11real / 10real * m,
    ensures
        -(8real * grain() * m) <= r - exact <= 8real * grain() * m,
{
    let g = grain();
    assert(-(8real * g * m) <= r - exact <= 8real * g * m) by (nonlinear_arith)
        requires
            m >= 1real,
            mg == m * g,
            g == 1real / 0x100_0000real,
            -(62real / 10real * mg) <= sum - exact <= 62real / 10real * mg,
            -(11real / 10real * m) <= 0x100_0000real * (r - sum) <= 11real / 10real * m,
    ;
}

/// A step leads, across and down alike, the same part of the way to its
/// target: the smoothing beyond 25 pixels, a tenth of it within them.
pub proof fn step_goes_part_of_way(
    x: Number,
    y: Number,
    tx: Number,
    ty: Number,
    factor: Number,
    most: real,
)
    requires
        x.is_single() && y.is_single() && tx.is_single() && ty.is_single(),
        x is Finite && size(x.value()) <= most,
        y is Finite && size(y.value()) <= most,
        tx is Finite && size(tx.value()) <= most,
        ty is Finite && size(ty.value()) <= most,
        1real <= most <= far(),
        factor.is_single() && factor is Finite && 0real <= factor.value() <= 1real,
    ensures
        ({
            let end = pointer::step(x, y, tx, ty, factor);
            let f = factor.value();
            let squared = apart_squared(x.value(), y.value(), tx.value(), ty.value());
            let whole = ends_near(end, x, y, tx, ty, f, most);
            let tenth = ends_near(end, x, y, tx, ty, f / 10real, most);
            &&& whole || tenth
            &&& squared <= 625real * (1real - 16real * grain()) ==> tenth
            &&& squared >= 625real * (1real + 16real * grain()) ==> whole
        }),
{
    let f = factor.value();
    smoothing_drops_near_target(x, y, tx, ty, factor);
    let active = pointer::active_factor(tx.minus(x), ty.minus(y), factor);
    aiming::lemma_unit_value(factor);
    laws::active_in_range(tx.minus(x), ty.minus(y), factor);
    laws::lemma_unit_places();
    aiming::lemma_unit_value(active);
    assert(0real <= f / 10real <= 1real) by (nonlinear_arith)
        requires
            0real <= f <= 1real,
    ;
    if active == factor {
        step_is_near(x, tx, active, f, most);
        step_is_near(y, ty, active, f, most);
    }
    if size(active.value() - f / 10real) <= grain() {
        step_is_near(x, tx, active, f / 10real, most);
        step_is_near(y, ty, active, f / 10real, most);
    }
}

/// Whether a position lies a given part of the way to a target, but for eight
/// grains of the largest coordinate.
pub open spec fn ends_near(
    end: (Number, Number),
    x: Number,
    y: Number,
    tx: Number,
    ty: Number,
    part: real,
    most: real,
) -> bool {
    &&& end.0 is Finite && end.1 is Finite
    &&& size(end.0.value() - toward(x.value(), tx.value(), part)) <= 8real * grain() * most
    &&& size(end.1.value() - toward(y.value(), ty.value(), part)) <= 8real * grain() * most
}

/// From 25 pixels on, across or down, the smoothing is in force as it is.
pub proof fn full_smoothing_from_25_pixels(dx: Number, dy: Number, factor: Number)
    requires
        dx.is_single(),
        dy.is_single(),
        Number::whole(25).at_most(dx.magnitude()) || Number::whole(25).at_most(dy.magnitude()),
    ensures
        pointer::active_factor(dx, dy, factor) == factor,
{
    lemma_pow2_pos(277);
    order::lemma_plus_commutes(dx.times(dx), dy.times(dy));
    if dx is Nan || dy is Nan {
        assert(pointer::distance(dx, dy) is Nan) by {
            reveal(Number::times);
            reveal(Number::plus);
            reveal(Number::root);
        }
    } else if Number::whole(25).at_most(dx.magnitude()) {
        lemma_25_away(dx, dy);
    } else {
        lemma_25_away(dy, dx);
    }
}

proof fn lemma_25_away(a: Number, b: Number)
    requires
        a.is_single() && b.is_single(),
        a !is Nan && b !is Nan,
        Number::whole(25).at_most(a.magnitude()),
    ensures
        Number::whole(25).at_most(pointer::distance(a, b)),
{
    let (w, s) = (Number::whole(25), Number::whole(625));
    let (p, q) = (a.magnitude(), b.magnitude());
    let one = pow2(149);
    lemma_pow2_pos(149);
    lemma_pow2_pos(277);
    order::lemma_whole(25);
    order::lemma_whole(625);
    assert(a.times(a) == p.times(p) && b.times(b) == q.times(q)) by {
        reveal(Number::times);
    }
    order::lemma_times_single(w, w);
    order::lemma_times_single(p, p);
    order::lemma_times_single(q, q);
    order::lemma_square_mono(w, p);
    order::lemma_square_mono(q, q);
    // The square of 25 is held exactly.
    order::lemma_times_place(w, w);
    assert((25 * one) * (25 * one) * 1 == (625 * one) * one) by (nonlinear_arith);
    order::lemma_rounded_place_same((25 * one) * (25 * one) as int, one, 625 * one as int, 1);
    order::lemma_rounded_place_exact(s);
    assert(w.times(w).place() == s.place());
    order::lemma_sum_sign(p.times(p), q.times(q));
    order::lemma_plus_single(p.times(p), q.times(q));
    assert(s.at_most(p.times(p).plus(q.times(q))));
    order::lemma_root_mono(s, p.times(p).plus(q.times(q)));
    order::lemma_root_at_least(w, s);
}

}
