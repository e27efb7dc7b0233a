//! What holds of the way from a reading to the pointer, against the exact
//! arithmetic of real numbers.

use vstd::arithmetic::power2::*;
use vstd::prelude::*;

use crate::laws;
use crate::measures;
use crate::measures::moderate;
use crate::number::Number;
use crate::order;
use crate::pointer;
use crate::value;
use crate::value::{grain, size, speck, vast, wide};

verus! {

/// A real brought into the range from zero to one.
pub open spec fn into_unit(t: real) -> real {
    if t < 0real {
        0real
    } else if t > 1real {
        1real
    } else {
        t
    }
}

/// Whether two bounds are told apart: more than `2^-23`, and a hair more for
/// the rounding of their distance.
pub open spec fn told_apart(low: Number, high: Number) -> bool {
    0x80_0000real * size(high.value() - low.value()) > 1real + 2real * grain()
}

/// Whether two bounds count as coinciding: `2^-23` or less.
pub open spec fn coincide(low: Number, high: Number) -> bool {
    0x80_0000real * size(high.value() - low.value()) <= 1real
}

/// The length by which one half of an axis is measured.
pub open spec fn length(low: Number, high: Number) -> real {
    if told_apart(low, high) {
        high.value() - low.value()
    } else {
        1real / 10000real
    }
}

proof fn lemma_epsilon()
    ensures
        Number::ratio(1, 0x80_0000).is_single(),
        Number::ratio(1, 0x80_0000) is Finite,
        Number::ratio(1, 0x80_0000).value() * 0x80_0000real == 1real,
        Number::ratio(1, 0x80_0000).place() == pow2(126),
{
    order::lemma_ratio_bounds(1, 0x80_0000);
    lemma2_to64();
    lemma2_to64_rest();
    order::lemma_ratio_is(1, 0x80_0000, 0x80_0000, 46);
    lemma_pow2_adds(23, 103);
    lemma_pow2_adds(23, 126);
    lemma_pow2_pos(126);
    let (p, one) = (pow2(126) as real, pow2(149) as real);
    assert(p / one * 0x80_0000real == 1real) by (nonlinear_arith)
        requires
            one == 0x80_0000real * p,
            p > 0real,
    ;
}

/// The computed length is within a grain of the exact one.
proof fn lemma_length(low: Number, high: Number)
    requires
        low.is_single() && high.is_single(),
        moderate(low) && moderate(high),
        told_apart(low, high) || coincide(low, high),
    ensures
        ({
            let p = pointer::span(low, high);
            let s = length(low, high);
            &&& p is Finite
            &&& size(p.value() - s) <= size(s) * grain()
            &&& 0x100_0000real * size(s) >= 1real
        }),
{
    measures::lemma_moderate();
    value::lemma_wide();
    lemma_epsilon();
    let least = Number::ratio(1, 0x80_0000);
    let apart = high.minus(low);
    let exact = high.value() - low.value();
    value::difference_is_near(high, low);
    value::lemma_magnitude(apart);
    value::lemma_value_order(apart.magnitude(), least);
    value::lemma_value_order(least, apart.magnitude());
    value::lemma_grain(size(apart.value() - exact), size(exact));
    if told_apart(low, high) {
        let (m, x, e, g) = (apart.magnitude().value(), size(exact), least.value(), grain());
        assert(m > e) by (nonlinear_arith)
            requires
                0x100_0000real * (x - m) <= x,
                0x80_0000real * x > 1real + 2real * g,
                g == 1real / 0x100_0000real,
                e * 0x80_0000real == 1real,
        ;
        assert(0x100_0000real * x >= 1real) by (nonlinear_arith)
            requires
                0x80_0000real * x > 1real + 2real * g,
                g == 1real / 0x100_0000real,
        ;
    } else {
        order::lemma_plus_place(high, low.negated());
        let v = high.place() - low.place();
        value::lemma_value(high);
        value::lemma_value(low);
        let one = pow2(149) as real;
        lemma_pow2_adds(23, 126);
        lemma2_to64();
        let p = pow2(126) as real;
        assert(v as real == exact * one) by (nonlinear_arith)
            requires
                v as real == high.value() * one - low.value() * one,
                exact == high.value() - low.value(),
        ;
        assert(-p <= v as real <= p) by (nonlinear_arith)
            requires
                one == 0x80_0000real * p,
                p > 0real,
                -1real <= 0x80_0000real * exact <= 1real,
                v as real == exact * one,
        ;
        order::lemma_rounded_place_mono(v, 1, pow2(126) as int, 1);
        order::lemma_rounded_place_mono(-pow2(126), 1, v, 1);
        order::lemma_rounded_place_exact(least);
        order::lemma_rounded_place_exact(least.negated());
        assert(!least.less(apart.magnitude()));
        value::ratio_is_near(1, 10000);
    }
}

/// One half of the way along one half of an axis.
proof fn lemma_half_way(current: Number, from: Number, low: Number, high: Number)
    requires
        current.is_single() && from.is_single() && low.is_single() && high.is_single(),
        moderate(current) && moderate(from) && moderate(low) && moderate(high),
        told_apart(low, high) || coincide(low, high),
    ensures
        ({
            let h = current.minus(from).over(pointer::span(low, high)).times(Number::ratio(1, 2));
            let q = (current.value() - from.value()) / length(low, high);
            &&& h is Finite
            &&& size(h.value() - q / 2real) <= 13real / 5real * grain() * size(q) + 2real * speck()
            &&& size(q) <= wide()
        }),
{
    measures::lemma_moderate();
    value::lemma_wide();
    lemma_length(low, high);
    order::lemma_half();
    let m = pow2(100) as real;
    let p = pointer::span(low, high);
    let s = length(low, high);
    let d = current.value() - from.value();
    let n = current.minus(from);
    let half = Number::ratio(1, 2);
    value::difference_is_near(current, from);
    let q = d / s;
    lemma_pow2_adds(100, 26);
    lemma2_to64();
    assert(wide() == 0x400_0000real * m) by (nonlinear_arith)
        requires
            wide() == pow2(126) as real,
            m == pow2(100) as real,
            pow2(126) == pow2(100) * 0x400_0000,
    ;
    value::lemma_size_product(q, s);
    assert(q * s == d) by (nonlinear_arith)
        requires
            s != 0real,
            q == d / s,
    ;
    assert(size(q) <= wide()) by (nonlinear_arith)
        requires
            size(q) * size(s) <= 2real * m,
            0x100_0000real * size(s) >= 1real,
            wide() == 0x400_0000real * m,
            size(q) >= 0real,
    ;
    value::quotient_of_differences_is_near(n, p, d, s);
    let part = n.over(p);
    value::lemma_value(half);
    let (hv, one) = (half.value(), pow2(149) as real);
    assert(hv == 1real / 2real) by (nonlinear_arith)
        requires
            one > 0real,
            2real * (hv * one) == one,
    ;
    let (pv, g, sq) = (part.value(), grain(), size(q));
    let exact = pv * hv;
    let most = 8real / 15real * sq + speck();
    assert(-most <= exact <= most && most <= vast()) by (nonlinear_arith)
        requires
            exact == pv * hv,
            hv == 1real / 2real,
            -(4real * g * sq + speck()) <= pv - q <= 4real * g * sq + speck(),
            -sq <= q <= sq,
            sq <= wide(),
            vast() == 2real * wide(),
            wide() >= 1real,
            speck() <= g * g,
            speck() > 0real,
            g == 1real / 0x100_0000real,
            most == 8real / 15real * sq + speck(),
    ;
    value::times_within(part, half, exact, most);
    let h = part.times(half).value();
    let bound = 13real / 5real * g * sq + 2real * speck();
    let middle = q / 2real;
    assert(-bound <= h - middle <= bound) by (nonlinear_arith)
        requires
            exact == pv * hv,
            hv == 1real / 2real,
            middle == q / 2real,
            sq >= 0real,
            speck() > 0real,
            -(4real * g * sq + speck()) <= pv - q <= 4real * g * sq + speck(),
            -most <= 0x100_0000real * (h - exact + speck()),
            0x100_0000real * (h - exact - speck()) <= most,
            g == 1real / 0x100_0000real,
            most == 8real / 15real * sq + speck(),
            bound == 13real / 5real * g * sq + 2real * speck(),
    ;
    value::lemma_size(h - middle, bound);
}

/// Where a reading lies on its axis, exactly: half of the way from `low` to
/// `center` up to the centre, and half of the way from there to `high` beyond
/// it, brought into the range from zero to one.
pub open spec fn along_axis(current: Number, low: Number, center: Number, high: Number) -> real {
    if current.value() <= center.value() {
        into_unit((current.value() - low.value()) / length(low, center) / 2real)
    } else {
        into_unit(
            1real / 2real + (current.value() - center.value()) / length(center, high) / 2real,
        )
    }
}

/// A scaled reading lies where exact arithmetic has it, but for six grains.
pub proof fn axis_is_piecewise_linear(current: Number, low: Number, center: Number, high: Number)
    requires
        current.is_single() && low.is_single() && center.is_single() && high.is_single(),
        moderate(current) && moderate(low) && moderate(center) && moderate(high),
        told_apart(low, center) || coincide(low, center),
        told_apart(center, high) || coincide(center, high),
    ensures
        ({
            let scaled = pointer::axis_scaled(current, low, center, high);
            &&& scaled is Finite
            &&& size(scaled.value() - along_axis(current, low, center, high)) <= 6real * grain()
        }),
{
    value::lemma_wide();
    value::lemma_value_order(current, center);
    let g = grain();
    if current.at_most(center) {
        lemma_half_way(current, low, low, center);
        let raw = pointer::axis_raw(current, low, center, high);
        let q = (current.value() - low.value()) / length(low, center);
        let (r, t) = (raw.value(), q / 2real);
        let bound = 13real / 5real * g * size(q) + 2real * speck();
        lemma_clamp_lower(r, t, size(t), bound, q);
        lemma_clamped(raw);
    } else {
        lemma_half_way(current, center, center, high);
        order::lemma_half();
        let half = Number::ratio(1, 2);
        let h = current.minus(center).over(pointer::span(center, high)).times(half);
        let q = (current.value() - center.value()) / length(center, high);
        value::lemma_value(half);
        let (hv, one) = (half.value(), pow2(149) as real);
        assert(hv == 1real / 2real) by (nonlinear_arith)
            requires
                one > 0real,
                2real * (hv * one) == one,
        ;
        let (x, sq) = (h.value(), size(q));
        let bound = 13real / 5real * g * sq + 2real * speck();
        let most = 1real + sq;
        assert(-most <= hv + x <= most && most <= vast()) by (nonlinear_arith)
            requires
                hv == 1real / 2real,
                -bound <= x - q / 2real <= bound,
                bound == 13real / 5real * g * sq + 2real * speck(),
                -sq <= q <= sq,
                sq <= wide(),
                vast() == 2real * wide(),
                wide() >= 1real,
                speck() <= g * g,
                g == 1real / 0x100_0000real,
                most == 1real + sq,
        ;
        value::sum_is_near(half, h);
        let raw = half.plus(h);
        value::lemma_grain(size(raw.value() - (hv + x)), size(hv + x));
        lemma_clamp_upper(raw.value(), x, q, sq, bound);
        lemma_clamped(raw);
    }
}

/// Bringing a number into range, in reals.
proof fn lemma_clamped(raw: Number)
    requires
        raw is Finite,
    ensures
        raw.clamped(Number::zero(), Number::whole(1)) is Finite,
        raw.clamped(Number::zero(), Number::whole(1)).value() == into_unit(raw.value()),
{
    let (zero, one) = (Number::zero(), Number::whole(1));
    value::lemma_whole_value(1);
    value::lemma_value_order(raw, zero);
    value::lemma_value_order(zero, raw);
    value::lemma_value_order(raw, one);
    value::lemma_value_order(one, raw);
    value::lemma_value_order(zero, zero);
}

proof fn lemma_clamp_lower(r: real, t: real, st: real, bound: real, q: real)
    requires
        st == size(t),
        t == q / 2real,
        size(r - t) <= bound,
        bound == 13real / 5real * grain() * size(q) + 2real * speck(),
        0real < speck(),
        speck() <= grain() * grain(),
    ensures
        size(into_unit(r) - into_unit(t)) <= 6real * grain(),
{
    let g = grain();
    let sq = size(q);
    if t < 0real {
        assert(r <= 6real * g) by (nonlinear_arith)
            requires
                t == q / 2real,
                t < 0real,
                sq == -q,
                r - t <= bound,
                bound == 13real / 5real * g * sq + 2real * speck(),
                speck() <= g * g,
                g == 1real / 0x100_0000real,
        ;
    } else if t > 1real {
        assert(r >= 1real - 6real * g) by (nonlinear_arith)
            requires
                t == q / 2real,
                t > 1real,
                sq == q,
                -bound <= r - t,
                bound == 13real / 5real * g * sq + 2real * speck(),
                speck() <= g * g,
                g == 1real / 0x100_0000real,
        ;
    } else {
        assert(bound <= 6real * g) by (nonlinear_arith)
            requires
                t == q / 2real,
                0real <= t <= 1real,
                sq == q,
                bound == 13real / 5real * g * sq + 2real * speck(),
                speck() <= g * g,
                g == 1real / 0x100_0000real,
        ;
    }
}

proof fn lemma_clamp_upper(raw: real, x: real, q: real, sq: real, bound: real)
    requires
        sq == size(q),
        size(x - q / 2real) <= bound,
        bound == 13real / 5real * grain() * sq + 2real * speck(),
        0x100_0000real * size(raw - (1real / 2real + x)) <= size(1real / 2real + x),
        0real < speck(),
        speck() <= grain() * grain(),
    ensures
        size(into_unit(raw) - into_unit(1real / 2real + q / 2real)) <= 6real * grain(),
{
    let g = grain();
    let t = 1real / 2real + q / 2real;
    let y = 1real / 2real + x;
    let (half, mid) = (1real / 2real, q / 2real);
    assert(2real * half == 1real && 2real * mid == q) by (nonlinear_arith)
        requires
            half == 1real / 2real,
            mid == q / 2real,
    ;
    if t < 0real {
        assert(raw <= 6real * g) by (nonlinear_arith)
            requires
                2real * half == 1real,
                2real * mid == q,
                t == half + mid,
                t < 0real,
                sq == -q,
                y == half + x,
                x - mid <= bound,
                bound == 13real / 5real * g * sq + 2real * speck(),
                speck() <= g * g,
                g == 1real / 0x100_0000real,
                y >= 0real ==> 0x100_0000real * (raw - y) <= y,
                y < 0real ==> 0x100_0000real * (raw - y) <= -y,
        ;
    } else if t > 1real {
        assert(raw >= 1real - 6real * g) by (nonlinear_arith)
            requires
                2real * half == 1real,
                2real * mid == q,
                t == half + mid,
                t > 1real,
                sq == q,
                y == half + x,
                -bound <= x - mid,
                bound == 13real / 5real * g * sq + 2real * speck(),
                speck() <= g * g,
                g == 1real / 0x100_0000real,
                y >= 0real ==> 0x100_0000real * (y - raw) <= y,
                y < 0real ==> 0x100_0000real * (y - raw) <= -y,
        ;
    } else {
        assert(-6real * g <= raw - t <= 6real * g) by (nonlinear_arith)
            requires
                2real * half == 1real,
                2real * mid == q,
                t == half + mid,
                0real <= t <= 1real,
                0real <= sq <= 1real,
                y == half + x,
                -bound <= x - mid <= bound,
                bound == 13real / 5real * g * sq + 2real * speck(),
                speck() <= g * g,
                g == 1real / 0x100_0000real,
                y >= 0real ==> 0x100_0000real * (y - raw) <= y && 0x100_0000real * (raw - y) <= y,
                y < 0real ==> 0x100_0000real * (y - raw) <= -y && 0x100_0000real * (raw - y) <= -y,
        ;
    }
}

/// The share of the head, exactly, for a head turned by `across` and `down`:
/// from 0.1 it grows with the square of the turn to 0.85 at eight hundredths.
pub open spec fn exact_share(across: real, down: real) -> real {
    1real / 10real + 3real / 4real * into_unit(
        (across * across + down * down) / (64real / 10000real),
    )
}

proof fn lemma_square_of_near(a: real, d: real)
    requires
        a >= 0real,
        size(a - size(d)) <= size(d) * grain(),
    ensures
        -(21real / 10real * grain() * (d * d)) <= a * a - d * d <= 21real / 10real * grain() * (d
            * d),
{
    let (g, x) = (grain(), size(d));
    assert(x * x == d * d) by (nonlinear_arith)
        requires
            x == d || x == -d,
    ;
    assert(-(21real / 10real * g * (x * x)) <= a * a - x * x <= 21real / 10real * g * (x * x))
        by (nonlinear_arith)
        requires
            x >= 0real,
            a >= 0real,
            x * (1real - g) <= a <= x * (1real + g),
            g == 1real / 0x100_0000real,
    ;
}

/// A sum of two squares, each rounded.
pub proof fn lemma_squares(a: Number, b: Number, dx: real, dy: real)
    requires
        a is Finite && b is Finite,
        0real <= a.value() <= 0x100_0000_0000real,
        0real <= b.value() <= 0x100_0000_0000real,
        size(a.value() - size(dx)) <= size(dx) * grain(),
        size(b.value() - size(dy)) <= size(dy) * grain(),
    ensures
        ({
            let s = a.times(a).plus(b.times(b));
            let d = dx * dx + dy * dy;
            &&& s is Finite
            &&& d >= 0real
            &&& -(9real / 2real * grain() * d + 3real * speck()) <= s.value() - d
            &&& s.value() - d <= 9real / 2real * grain() * d + 3real * speck()
        }),
{
    value::lemma_wide();
    lemma_square_of_near(a.value(), dx);
    lemma_square_of_near(b.value(), dy);
    let (g, x, y) = (grain(), dx * dx, dy * dy);
    let top = 0x100_0000_0000real * 0x100_0000_0000real;
    let (p, q) = (a.value() * a.value(), b.value() * b.value());
    assert(0real <= p <= top && 0real <= q <= top && x >= 0real && y >= 0real)
        by (nonlinear_arith)
        requires
            p == a.value() * a.value(),
            q == b.value() * b.value(),
            0real <= a.value() <= 0x100_0000_0000real,
            0real <= b.value() <= 0x100_0000_0000real,
            x == dx * dx,
            y == dy * dy,
            top == 0x100_0000_0000real * 0x100_0000_0000real,
    ;
    value::times_within(a, a, p, p);
    value::times_within(b, b, q, q);
    let (u, v) = (a.times(a), b.times(b));
    let (uv, vv) = (u.value(), v.value());
    let e = 16real / 5real * g * x + speck();
    let f = 16real / 5real * g * y + speck();
    assert(-e <= uv - x <= e) by (nonlinear_arith)
        requires
            x >= 0real,
            -(21real / 10real * g * x) <= p - x <= 21real / 10real * g * x,
            -p <= 0x100_0000real * (uv - p + speck()),
            0x100_0000real * (uv - p - speck()) <= p,
            e == 16real / 5real * g * x + speck(),
            g == 1real / 0x100_0000real,
    ;
    assert(-f <= vv - y <= f) by (nonlinear_arith)
        requires
            y >= 0real,
            -(21real / 10real * g * y) <= q - y <= 21real / 10real * g * y,
            -q <= 0x100_0000real * (vv - q + speck()),
            0x100_0000real * (vv - q - speck()) <= q,
            f == 16real / 5real * g * y + speck(),
            g == 1real / 0x100_0000real,
    ;
    let d = x + y;
    let most = 11real / 10real * d + 2real * speck();
    assert(-most <= uv + vv <= most && most <= vast()) by (nonlinear_arith)
        requires
            x >= 0real,
            y >= 0real,
            d == x + y,
            -(21real / 10real * g * x) <= p - x <= 21real / 10real * g * x,
            -(21real / 10real * g * y) <= q - y <= 21real / 10real * g * y,
            p <= top,
            q <= top,
            -e <= uv - x <= e,
            -f <= vv - y <= f,
            e == 16real / 5real * g * x + speck(),
            f == 16real / 5real * g * y + speck(),
            g == 1real / 0x100_0000real,
            speck() > 0real,
            speck() <= g * g,
            most == 11real / 10real * d + 2real * speck(),
            vast() >= 10real * top,
            top >= 1real,
    ;
    value::plus_within(u, v, most);
    let s = u.plus(v).value();
    let bound = 9real / 2real * g * d + 3real * speck();
    assert(-bound <= s - d <= bound) by (nonlinear_arith)
        requires
            d == x + y,
            x >= 0real,
            y >= 0real,
            -e <= uv - x <= e,
            -f <= vv - y <= f,
            e == 16real / 5real * g * x + speck(),
            f == 16real / 5real * g * y + speck(),
            -most <= 0x100_0000real * (s - (uv + vv)) <= most,
            most == 11real / 10real * d + 2real * speck(),
            g == 1real / 0x100_0000real,
            speck() > 0real,
            bound == 9real / 2real * g * d + 3real * speck(),
    ;
}

/// A quotient of two reals that err by known amounts.
proof fn lemma_root_quotient(r2: real, d: real, e2: real, ee: real)
    requires
        ee == 64real / 10000real,
        d >= 0real,
        d <= 21real / 10real * ee,
        -(48real / 5real * grain() * d + 4real * speck()) <= r2 - d <= 48real / 5real * grain() * d
            + 4real * speck(),
        -(21real / 10real * grain() * ee) <= e2 - ee <= 21real / 10real * grain() * ee,
        0real < speck(),
        speck() <= grain() * grain(),
    ensures
        e2 > 0real,
        -(27real * grain()) <= r2 / e2 - d / ee <= 27real * grain(),
{
    let g = grain();
    let (y, u) = (r2 / e2, d / ee);
    assert(e2 > 0real) by (nonlinear_arith)
        requires
            -(21real / 10real * g * ee) <= e2 - ee,
            ee == 64real / 10000real,
            g == 1real / 0x100_0000real,
    ;
    assert(y * e2 == r2 && u * ee == d && 0real <= u <= 21real / 10real) by (nonlinear_arith)
        requires
            e2 > 0real,
            ee == 64real / 10000real,
            y == r2 / e2,
            u == d / ee,
            0real <= d <= 21real / 10real * ee,
    ;
    let x = y - u;
    assert(x * e2 == (r2 - d) - u * (e2 - ee)) by (nonlinear_arith)
        requires
            x == y - u,
            y * e2 == r2,
            u * ee == d,
    ;
    let z = u * (e2 - ee);
    assert(-(5real * g * ee) <= z <= 5real * g * ee) by (nonlinear_arith)
        requires
            z == u * (e2 - ee),
            0real <= u <= 21real / 10real,
            -(21real / 10real * g * ee) <= e2 - ee <= 21real / 10real * g * ee,
            ee == 64real / 10000real,
            g == 1real / 0x100_0000real,
    ;
    assert(-(26real * g * ee) <= x * e2 <= 26real * g * ee) by (nonlinear_arith)
        requires
            x * e2 == (r2 - d) - z,
            -(5real * g * ee) <= z <= 5real * g * ee,
            -(48real / 5real * g * d + 4real * speck()) <= r2 - d <= 48real / 5real * g * d + 4real
                * speck(),
            0real <= d <= 21real / 10real * ee,
            ee == 64real / 10000real,
            speck() <= g * g,
            g == 1real / 0x100_0000real,
    ;
    assert(-(27real * g) <= x <= 27real * g) by (nonlinear_arith)
        requires
            -(26real * g * ee) <= x * e2 <= 26real * g * ee,
            -(21real / 10real * g * ee) <= e2 - ee <= 21real / 10real * g * ee,
            e2 > 0real,
            ee == 64real / 10000real,
            g == 1real / 0x100_0000real,
    ;
}

/// The square of the turn, up to one.
proof fn lemma_turn_square(a: Number, b: Number, dx: real, dy: real)
    requires
        a.is_single() && b.is_single(),
        a is Finite && b is Finite,
        a.place() >= 0 && b.place() >= 0,
        a.value() <= 81real / 1000real,
        b.value() <= 81real / 1000real,
        size(a.value() - size(dx)) <= size(dx) * grain(),
        size(b.value() - size(dy)) <= size(dy) * grain(),
        dx * dx + dy * dy <= 21real / 10real * (64real / 10000real),
    ensures
        ({
            let t = pointer::distance(a, b).over(Number::ratio(8, 100)).lesser(Number::whole(1));
            let u = into_unit((dx * dx + dy * dy) / (64real / 10000real));
            &&& t is Finite && t.is_single() && 0real <= t.value() <= 1real
            &&& -(33real * grain()) <= t.value() * t.value() - u <= 33real * grain()
        }),
{
    value::lemma_wide();
    let g = grain();
    let (e, one) = (Number::ratio(8, 100), Number::whole(1));
    value::ratio_is_near(8, 100);
    value::lemma_whole_value(1);
    value::lemma_value_order(a, a);
    value::lemma_value_order(b, b);
    lemma_squares(a, b, dx, dy);
    let d = dx * dx + dy * dy;
    let s = a.times(a).plus(b.times(b));
    order::lemma_times_single(a, a);
    order::lemma_times_single(b, b);
    order::lemma_square_mono(a, a);
    order::lemma_square_mono(b, b);
    order::lemma_sum_sign(a.times(a), b.times(b));
    order::lemma_plus_single(a.times(a), b.times(b));
    value::root_is_near(s);
    order::lemma_root_single(s);
    let r = s.root();
    let (sv, rv, ev) = (s.value(), r.value(), e.value());
    let (r2, e2, ee) = (rv * rv, ev * ev, 64real / 10000real);
    let exact_e = 8real / 100real;
    assert(-(g * exact_e) <= ev - exact_e <= g * exact_e) by (nonlinear_arith)
        requires
            -(exact_e * g) <= ev - exact_e <= exact_e * g,
    ;
    assert(-(21real / 10real * g * ee) <= e2 - ee <= 21real / 10real * g * ee) by (nonlinear_arith)
        requires
            e2 == ev * ev,
            ee == 64real / 10000real,
            exact_e == 8real / 100real,
            -(g * exact_e) <= ev - exact_e <= g * exact_e,
            g == 1real / 0x100_0000real,
    ;
    let bound = 48real / 5real * g * d + 4real * speck();
    assert(-bound <= r2 - d <= bound) by (nonlinear_arith)
        requires
            d >= 0real,
            -(9real / 2real * g * d + 3real * speck()) <= sv - d <= 9real / 2real * g * d + 3real
                * speck(),
            -(5real * g * sv) <= r2 - sv <= 5real * g * sv,
            bound == 48real / 5real * g * d + 4real * speck(),
            speck() > 0real,
            g == 1real / 0x100_0000real,
            d <= 1real,
    ;
    lemma_root_quotient(r2, d, e2, ee);
    let q = rv / ev;
    let y = r2 / e2;
    assert(q >= 0real && q * q == y && q * ev == rv) by (nonlinear_arith)
        requires
            rv >= 0real,
            ev > 0real,
            e2 == ev * ev,
            e2 > 0real,
            r2 == rv * rv,
            q == rv / ev,
            y == r2 / e2,
    ;
    let u = d / ee;
    assert(u <= 21real / 10real) by (nonlinear_arith)
        requires
            u == d / ee,
            d <= 21real / 10real * ee,
            ee == 64real / 10000real,
    ;
    assert(q <= 3real / 2real) by (nonlinear_arith)
        requires
            q >= 0real,
            q * q == y,
            y - u <= 27real * g,
            u <= 21real / 10real,
            g == 1real / 0x100_0000real,
    ;
    value::over_within(r, e, q, q);
    let n = r.over(e);
    order::lemma_over_single(r, e);
    let nv = n.value();
    value::lemma_value_order(n, one);
    value::lemma_value_order(one, n);
    value::lemma_value_order(r, r);
    value::lemma_value_order(e, e);
    order::lemma_over_sign(r, e);
    value::lemma_value_order(n, n);
    let t = n.lesser(one);
    let n2 = nv * nv;
    assert(-(6real * g) <= n2 - y <= 6real * g) by (nonlinear_arith)
        requires
            n2 == nv * nv,
            q * q == y,
            0real <= q <= 3real / 2real,
            nv >= 0real,
            -q <= 0x100_0000real * (nv - q + speck()),
            0x100_0000real * (nv - q - speck()) <= q,
            speck() > 0real,
            speck() <= g * g,
            g == 1real / 0x100_0000real,
    ;
    let tv = t.value();
    assert(tv * tv == into_unit(n2)) by (nonlinear_arith)
        requires
            nv >= 0real,
            n2 == nv * nv,
            nv <= 1real ==> tv == nv,
            nv > 1real ==> tv == 1real,
            into_unit(n2) == if n2 < 0real { 0real } else if n2 > 1real { 1real } else { n2 },
    ;
}

/// The share that belongs to a turn whose square is known.
proof fn lemma_share_of_turn(t: Number, u: real)
    requires
        t is Finite,
        0real <= t.value() <= 1real,
        0real <= u <= 1real,
        -(33real * grain()) <= t.value() * t.value() - u <= 33real * grain(),
    ensures
        pointer::weight_of_turn(t) is Finite,
        size(pointer::weight_of_turn(t).value() - (1real / 10real + 3real / 4real * u)) <= 32real
            * grain(),
{
    value::lemma_wide();
    let g = grain();
    let (low, high) = (Number::ratio(1, 10), Number::ratio(85, 100));
    value::ratio_is_near(1, 10);
    value::ratio_is_near(85, 100);
    let (lv, hv, tv) = (low.value(), high.value(), t.value());
    let (tenth, most) = (1real / 10real, 85real / 100real);
    value::lemma_grain(size(lv - tenth), tenth);
    value::lemma_grain(size(hv - most), most);
    value::minus_within(high, low, 1real);
    let c = high.minus(low);
    let cv = c.value();
    assert(-(2real * g) <= cv - 3real / 4real <= 2real * g) by (nonlinear_arith)
        requires
            -tenth <= 0x100_0000real * (lv - tenth) <= tenth,
            -most <= 0x100_0000real * (hv - most) <= most,
            -1real <= 0x100_0000real * (cv - (hv - lv)) <= 1real,
            tenth == 1real / 10real,
            most == 85real / 100real,
            g == 1real / 0x100_0000real,
    ;
    let t2 = tv * tv;
    assert(0real <= t2 <= 1real) by (nonlinear_arith)
        requires
            t2 == tv * tv,
            0real <= tv <= 1real,
    ;
    value::times_within(t, t, t2, 1real);
    let sq = t.times(t);
    let sv = sq.value();
    assert(-(35real * g) <= sv - u <= 35real * g && -(2real * g) <= sv <= 1real + 2real * g)
        by (nonlinear_arith)
        requires
            -1real <= 0x100_0000real * (sv - t2 + speck()),
            0x100_0000real * (sv - t2 - speck()) <= 1real,
            -(33real * g) <= t2 - u <= 33real * g,
            0real <= t2 <= 1real,
            speck() <= g * g,
            g == 1real / 0x100_0000real,
    ;
    let p = cv * sv;
    let exact = 3real / 4real * u;
    assert(-(57real / 2real * g) <= p - exact <= 57real / 2real * g && -1real <= p <= 1real)
        by (nonlinear_arith)
        requires
            p == cv * sv,
            exact == 3real / 4real * u,
            -(2real * g) <= cv - 3real / 4real <= 2real * g,
            -(35real * g) <= sv - u <= 35real * g,
            -(2real * g) <= sv <= 1real + 2real * g,
            0real <= u <= 1real,
            g == 1real / 0x100_0000real,
    ;
    value::times_within(c, sq, p, 1real);
    let part = c.times(sq);
    let pv = part.value();
    value::plus_within(low, part, 3real / 2real);
    let w = pointer::weight_of_turn(t).value();
    let want = 1real / 10real + 3real / 4real * u;
    assert(-(32real * g) <= w - want <= 32real * g) by (nonlinear_arith)
        requires
            want == tenth + exact,
            -tenth <= 0x100_0000real * (lv - tenth) <= tenth,
            tenth == 1real / 10real,
            -1real <= 0x100_0000real * (pv - p + speck()),
            0x100_0000real * (pv - p - speck()) <= 1real,
            -(57real / 2real * g) <= p - exact <= 57real / 2real * g,
            -(3real / 2real) <= 0x100_0000real * (w - (lv + pv)) <= 3real / 2real,
            speck() <= g * g,
            g == 1real / 0x100_0000real,
    ;
    value::lemma_size(w - want, 32real * g);
}

/// The share of the head is what exact arithmetic gives for the head's
/// distance from its centre, but for 32 grains.
pub proof fn face_weight_is_quadratic(
    yaw: Number,
    pitch: Number,
    center_yaw: Number,
    center_pitch: Number,
)
    requires
        yaw.is_single() && pitch.is_single() && center_yaw.is_single() && center_pitch.is_single(),
        moderate(yaw) && moderate(pitch) && moderate(center_yaw) && moderate(center_pitch),
    ensures
        ({
            let weight = pointer::face_weight(yaw, pitch, center_yaw, center_pitch);
            let exact = exact_share(
                yaw.value() - center_yaw.value(),
                pitch.value() - center_pitch.value(),
            );
            weight is Finite && size(weight.value() - exact) <= 32real * grain()
        }),
{
    measures::lemma_moderate();
    value::lemma_wide();
    let g = grain();
    let (dx, dy) = (yaw.value() - center_yaw.value(), pitch.value() - center_pitch.value());
    let (a, b) = (yaw.minus(center_yaw).magnitude(), pitch.minus(center_pitch).magnitude());
    lemma_apart(yaw, center_yaw);
    lemma_apart(pitch, center_pitch);
    let e = Number::ratio(8, 100);
    value::ratio_is_near(8, 100);
    value::lemma_value_order(e, a);
    value::lemma_value_order(e, b);
    value::lemma_value_order(a, e);
    value::lemma_value_order(b, e);
    value::lemma_value_order(a, a);
    value::lemma_value_order(b, b);
    let eighth = 8real / 100real;
    value::lemma_grain(size(e.value() - eighth), eighth);
    value::lemma_grain(size(a.value() - size(dx)), size(dx));
    value::lemma_grain(size(b.value() - size(dy)), size(dy));
    let (x2, y2) = (dx * dx, dy * dy);
    let ee = 64real / 10000real;
    let u = (x2 + y2) / ee;
    assert(x2 >= 0real && y2 >= 0real) by (nonlinear_arith)
        requires
            x2 == dx * dx,
            y2 == dy * dy,
    ;
    if e.at_most(a) || e.at_most(b) {
        laws::face_weight_at_full_turn(yaw, pitch, center_yaw, center_pitch);
        value::ratio_is_near(85, 100);
        if e.at_most(a) {
            lemma_full_square(dx, a.value(), e.value());
        } else {
            lemma_full_square(dy, b.value(), e.value());
        }
        assert(u >= 1real - 5real * g) by (nonlinear_arith)
            requires
                u == (x2 + y2) / ee,
                x2 >= 0real,
                y2 >= 0real,
                x2 >= ee * (1real - 5real * g) || y2 >= ee * (1real - 5real * g),
                ee == 64real / 10000real,
        ;
        let (w, most) = (Number::ratio(85, 100).value(), 85real / 100real);
        value::lemma_grain(size(w - most), most);
        let (c, exact) = (into_unit(u), exact_share(dx, dy));
        assert(-(32real * g) <= w - exact <= 32real * g) by (nonlinear_arith)
            requires
                exact == 1real / 10real + 3real / 4real * c,
                1real - 5real * g <= c <= 1real,
                -most <= 0x100_0000real * (w - most) <= most,
                most == 85real / 100real,
                g == 1real / 0x100_0000real,
        ;
        value::lemma_size(w - exact, 32real * g);
    } else {
        assert(a.value() <= 81real / 1000real && b.value() <= 81real / 1000real)
            by (nonlinear_arith)
            requires
                a.value() <= e.value(),
                b.value() <= e.value(),
                0x100_0000real * (e.value() - eighth) <= eighth,
                eighth == 8real / 100real,
        ;
        lemma_small_square(dx, a.value(), e.value());
        lemma_small_square(dy, b.value(), e.value());
        assert(x2 + y2 <= 21real / 10real * ee);
        lemma_turn_square(a, b, dx, dy);
        lemma_share_of_turn(
            pointer::turn(yaw, pitch, center_yaw, center_pitch),
            into_unit(u),
        );
    }
}

/// The distance of two numbers, computed and exact.
pub proof fn lemma_apart(a: Number, b: Number)
    requires
        a.is_single() && b.is_single(),
        moderate(a) && moderate(b),
    ensures
        a.minus(b).magnitude() is Finite,
        a.minus(b).magnitude().is_single(),
        a.minus(b).magnitude().place() >= 0,
        ({
            let d = a.value() - b.value();
            size(a.minus(b).magnitude().value() - size(d)) <= size(d) * grain()
        }),
{
    measures::lemma_moderate();
    value::lemma_wide();
    value::difference_is_near(a, b);
    value::lemma_magnitude(a.minus(b));
    order::lemma_minus_single(a, b);
    let (x, y) = (a.value() - b.value(), a.minus(b).value());
    value::lemma_grain(size(y - x), size(x));
    value::lemma_grain(size(size(y) - size(x)), size(x));
}

proof fn lemma_full_square(d: real, a: real, e: real)
    requires
        0x100_0000real * size(a - size(d)) <= size(d),
        0x100_0000real * size(e - 8real / 100real) <= 8real / 100real,
        a >= e,
    ensures
        d * d >= 64real / 10000real * (1real - 5real * grain()),
{
    let (x, eighth, g) = (size(d), 8real / 100real, grain());
    assert(x * x == d * d) by (nonlinear_arith)
        requires
            x == d || x == -d,
    ;
    assert(x >= eighth * (1real - 11real / 5real * g)) by (nonlinear_arith)
        requires
            0x100_0000real * (a - x) <= x,
            -eighth <= 0x100_0000real * (e - eighth),
            a >= e,
            eighth == 8real / 100real,
            g == 1real / 0x100_0000real,
    ;
    assert(x * x >= 64real / 10000real * (1real - 5real * g)) by (nonlinear_arith)
        requires
            x >= eighth * (1real - 11real / 5real * g),
            eighth == 8real / 100real,
            g == 1real / 0x100_0000real,
    ;
}

proof fn lemma_small_square(d: real, a: real, e: real)
    requires
        0x100_0000real * size(a - size(d)) <= size(d),
        0x100_0000real * size(e - 8real / 100real) <= 8real / 100real,
        0real <= a <= e,
    ensures
        2real * (d * d) <= 21real / 10real * (64real / 10000real),
{
    let (x, eighth, g) = (size(d), 8real / 100real, grain());
    assert(x * x == d * d) by (nonlinear_arith)
        requires
            x == d || x == -d,
    ;
    assert(0real <= x <= eighth * (1real + 3real * g)) by (nonlinear_arith)
        requires
            x >= 0real,
            0x100_0000real * (x - a) <= x,
            0x100_0000real * (e - eighth) <= eighth,
            a <= e,
            eighth == 8real / 100real,
            g == 1real / 0x100_0000real,
    ;
    assert(2real * (x * x) <= 21real / 10real * (64real / 10000real)) by (nonlinear_arith)
        requires
            0real <= x <= eighth * (1real + 3real * g),
            eighth == 8real / 100real,
            g == 1real / 0x100_0000real,
    ;
}

/// Whether the three bounds of an axis are moderate and either told apart or
/// coinciding.
pub open spec fn clear_axis(low: Number, center: Number, high: Number) -> bool {
    &&& moderate(low) && moderate(center) && moderate(high)
    &&& told_apart(low, center) || coincide(low, center)
    &&& told_apart(center, high) || coincide(center, high)
}

}
