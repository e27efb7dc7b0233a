//! Numbers as reals, and how far each operation can stray from the exact result.

use vstd::arithmetic::power2::*;
use vstd::prelude::*;

use crate::number::Number;
use crate::order;
use crate::rounding;

verus! {

/// Half the gap between neighbouring numbers, relative to their size: `2^-24`.
pub open spec fn grain() -> real {
    1real / 0x100_0000real
}

/// Half the least positive number: `2^-150`.
pub open spec fn speck() -> real {
    1real / (2 * pow2(149)) as real
}

/// The size of a real.
pub open spec fn size(x: real) -> real {
    if x < 0real {
        -x
    } else {
        x
    }
}

impl Number {
    /// The real that a finite number stands for.
    pub open spec fn value(self) -> real {
        self.place() as real / pow2(149) as real
    }
}

/// Rounding `n / d` units errs by `2^-24` of it, or by half a unit where the
/// units themselves are the gap.
proof fn lemma_round_near(n: nat, d: nat)
    requires
        d > 0,
    ensures
        0x100_0000 * vstd::math::abs(rounding::round(n, d) * d - n) <= n + 0x80_0000 * d,
        d == 1 || rounding::spacing(n, d) > 0 ==> 0x100_0000 * vstd::math::abs(
            rounding::round(n, d) * d - n,
        ) <= n,
{
    let t = rounding::spacing(n, d);
    let gap = pow2(t);
    let step = d * gap;
    let q = rounding::nearest_even(n, step);
    rounding::lemma_spacing_bounds(n, d);
    rounding::lemma_round_gaps(n, d);
    rounding::lemma_pow2_0();
    rounding::lemma_pow2_24();
    vstd::arithmetic::div_mod::lemma_fundamental_div_mod(n as int, step as int);
    vstd::arithmetic::div_mod::lemma_mod_bound(n as int, step as int);
    let (w, r) = (n / step, n % step);
    assert((w + 1) * step == w * step + step) by (nonlinear_arith);
    assert(step * w == w * step) by (nonlinear_arith);
    assert(-step <= 2 * (q * step - n) <= step);
    assert(rounding::round(n, d) * d == q * step) by (nonlinear_arith)
        requires
            rounding::round(n, d) == q * gap,
            step == d * gap,
    ;
    if t > 0 {
        lemma_pow2_adds(23, t);
        assert(n >= 0x80_0000 * step) by (nonlinear_arith)
            requires
                n >= (0x80_0000 * gap) * d,
                step == d * gap,
        ;
    } else {
        assert(d * 1 == d);
        if d == 1 {
            assert(n == 1 * w);
        }
    }
}

/// The same of a place, in reals.
proof fn lemma_place_near(v: int, d: nat)
    requires
        d > 0,
        vstd::math::abs(order::rounded_place(v, d)) < pow2(277),
    ensures
        ({
            let exact = v as real / d as real;
            let err = size(order::rounded_place(v, d) as real - exact);
            &&& err <= size(exact) * grain() + 1real / 2real
            &&& d == 1 ==> err <= size(exact) * grain()
        }),
{
    let n = vstd::math::abs(v);
    let r = order::rounded_place(v, d);
    let exact = v as real / d as real;
    lemma_round_near(n, d);
    let u = rounding::round(n, d);
    assert(vstd::math::abs(r * d - v) == vstd::math::abs(u * d - n)) by (nonlinear_arith)
        requires
            v < 0 ==> r == -u && v == -n,
            v >= 0 ==> r == u && v == n,
    ;
    let e = vstd::math::abs(r * d - v);
    let (rr, dr, vr, er) = (r as real, d as real, v as real, e as real);
    assert((r * d) as real == rr * dr) by (nonlinear_arith)
        requires
            rr == r as real,
            dr == d as real,
    ;
    assert(size(rr - exact) * dr == er) by (nonlinear_arith)
        requires
            dr > 0real,
            exact == vr / dr,
            size(rr - exact) == if rr - exact < 0real { -(rr - exact) } else { rr - exact },
            er == if rr * dr - vr < 0real { -(rr * dr - vr) } else { rr * dr - vr },
    ;
    assert(size(exact) * dr == size(vr)) by (nonlinear_arith)
        requires
            dr > 0real,
            exact == vr / dr,
            size(exact) == if exact < 0real { -exact } else { exact },
            size(vr) == if vr < 0real { -vr } else { vr },
    ;
    let (x, y) = (size(rr - exact), size(exact));
    assert(x <= y * grain() + 1real / 2real) by (nonlinear_arith)
        requires
            dr > 0real,
            0x100_0000real * (x * dr) <= y * dr + 0x80_0000real * dr,
            grain() == 1real / 0x100_0000real,
    ;
    if d == 1 {
        assert(x <= y * grain()) by (nonlinear_arith)
            requires
                dr > 0real,
                0x100_0000real * (x * dr) <= y * dr,
                grain() == 1real / 0x100_0000real,
        ;
    }
}

/// The size up to which sums, products and quotients stay finite: `2^127`.
pub open spec fn vast() -> real {
    pow2(127) as real
}

/// What does not exceed `2^276` units stays below the infinities.
proof fn lemma_place_fits(v: int, d: nat)
    requires
        d > 0,
        size(v as real / d as real) <= pow2(276) as real,
    ensures
        vstd::math::abs(order::rounded_place(v, d)) < pow2(277),
{
    let n = vstd::math::abs(v);
    let top = pow2(276);
    let (vr, dr, tr) = (v as real, d as real, top as real);
    let exact = vr / dr;
    assert(size(vr) <= tr * dr) by (nonlinear_arith)
        requires
            dr > 0real,
            exact == vr / dr,
            size(exact) <= tr,
            size(exact) == if exact < 0real { -exact } else { exact },
            size(vr) == if vr < 0real { -vr } else { vr },
    ;
    assert((top * d) as real == tr * dr) by (nonlinear_arith)
        requires
            tr == top as real,
            dr == d as real,
    ;
    assert(n * 1 <= top * d);
    rounding::lemma_round_mono(n, d, top, 1);
    assert(1 * top == top);
    assert(rounding::representable(top));
    rounding::lemma_round_exact(top);
    lemma_pow2_strictly_increases(276, 277);
}

/// Places as multiples of values.
pub proof fn lemma_value(a: Number)
    ensures
        a.place() as real == a.value() * pow2(149) as real,
        pow2(149) as real > 0real,
        pow2(276) as real == vast() * pow2(149) as real,
{
    lemma_pow2_pos(149);
    lemma_pow2_adds(127, 149);
    let (p, one) = (a.place() as real, pow2(149) as real);
    assert((p / one) * one == p) by (nonlinear_arith)
        requires
            one > 0real,
    ;
    let (x, y) = (pow2(127), pow2(149));
    assert((x * y) as real == x as real * y as real) by (nonlinear_arith);
}

/// From a rounded place to the value.
proof fn lemma_result(r: Number, v: int, d: nat, exact: real)
    requires
        d > 0,
        r !is Nan,
        r.place() == order::rounded_place(v, d),
        v as real == exact * pow2(149) as real * d as real,
        size(exact) <= vast(),
    ensures
        r is Finite,
        size(r.value() - exact) <= size(exact) * grain() + speck(),
        d == 1 ==> size(r.value() - exact) <= size(exact) * grain(),
{
    let one = pow2(149) as real;
    let (vr, dr) = (v as real, d as real);
    let units = vr / dr;
    lemma_value(r);
    assert(units == exact * one) by (nonlinear_arith)
        requires
            dr > 0real,
            units == vr / dr,
            vr == exact * one * dr,
    ;
    assert(size(units) == size(exact) * one && size(units) <= pow2(276) as real) by (nonlinear_arith)
        requires
            one > 0real,
            units == exact * one,
            size(exact) <= vast(),
            pow2(276) as real == vast() * one,
            size(exact) == if exact < 0real { -exact } else { exact },
            size(units) == if units < 0real { -units } else { units },
    ;
    lemma_place_fits(v, d);
    lemma_place_near(v, d);
    lemma_pow2_pos(277);
    let p = r.place() as real;
    let (x, y) = (size(r.value() - exact), size(p - units));
    assert(x * one == y) by (nonlinear_arith)
        requires
            one > 0real,
            p == r.value() * one,
            units == exact * one,
            x == if r.value() - exact < 0real { -(r.value() - exact) } else { r.value() - exact },
            y == if p - units < 0real { -(p - units) } else { p - units },
    ;
    let (g, e) = (grain(), size(exact));
    assert(x <= e * g + speck()) by (nonlinear_arith)
        requires
            one > 0real,
            x * one <= (e * one) * g + 1real / 2real,
            speck() == 1real / (2real * one),
    ;
    if d == 1 {
        assert(x <= e * g) by (nonlinear_arith)
            requires
                one > 0real,
                x * one <= (e * one) * g,
        ;
    }
}

/// A sum errs by one grain of itself at most, and never where it is tiny.
pub proof fn sum_is_near(a: Number, b: Number)
    requires
        a is Finite,
        b is Finite,
        size(a.value() + b.value()) <= vast(),
    ensures
        a.plus(b) is Finite,
        size(a.plus(b).value() - (a.value() + b.value())) <= size(a.value() + b.value()) * grain(),
{
    lemma_value(a);
    lemma_value(b);
    order::lemma_plus_place(a, b);
    let (x, y, one) = (a.value(), b.value(), pow2(149) as real);
    let v = a.place() + b.place();
    assert(v as real == (x + y) * one * 1real) by (nonlinear_arith)
        requires
            v as real == x * one + y * one,
    ;
    lemma_result(a.plus(b), v, 1, x + y);
}

/// The same of a difference.
pub proof fn difference_is_near(a: Number, b: Number)
    requires
        a is Finite,
        b is Finite,
        size(a.value() - b.value()) <= vast(),
    ensures
        a.minus(b) is Finite,
        size(a.minus(b).value() - (a.value() - b.value())) <= size(a.value() - b.value()) * grain(),
{
    lemma_negated(b);
    sum_is_near(a, b.negated());
}

proof fn lemma_negated(b: Number)
    ensures
        b is Finite ==> b.negated() is Finite,
        b.negated().value() == -b.value(),
{
    lemma_value(b);
    lemma_value(b.negated());
    let (x, y, one) = (b.value(), b.negated().value(), pow2(149) as real);
    assert(b.negated().place() == -b.place());
    assert(y == -x) by (nonlinear_arith)
        requires
            one > 0real,
            y * one == -(x * one),
    ;
}

/// A product errs by one grain of itself and one speck at most.
pub proof fn product_is_near(a: Number, b: Number)
    requires
        a is Finite,
        b is Finite,
        size(a.value() * b.value()) <= vast(),
    ensures
        a.times(b) is Finite,
        size(a.times(b).value() - a.value() * b.value()) <= size(a.value() * b.value()) * grain()
            + speck(),
{
    lemma_value(a);
    lemma_value(b);
    order::lemma_times_place(a, b);
    let (x, y, one) = (a.value(), b.value(), pow2(149) as real);
    let (p, q) = (a.place(), b.place());
    let v = p * q;
    assert(v as real == p as real * q as real) by (nonlinear_arith)
        requires
            v == p * q,
    ;
    assert(v as real == (x * y) * one * one) by (nonlinear_arith)
        requires
            v as real == (x * one) * (y * one),
    ;
    lemma_result(a.times(b), v, pow2(149), x * y);
}

/// The place of a quotient, whatever the sign of the divisor.
proof fn lemma_over_any_place(a: Number, b: Number)
    requires
        a is Finite,
        b is Finite,
        b.place() != 0,
    ensures
        a.over(b) !is Nan,
        b.place() > 0 ==> a.over(b).place() == order::rounded_place(
            a.place() * pow2(149),
            b.place() as nat,
        ),
        b.place() < 0 ==> a.over(b).place() == order::rounded_place(
            -a.place() * pow2(149),
            (-b.place()) as nat,
        ),
{
    if b.place() > 0 {
        order::lemma_over_place(a, b);
    } else {
        let c = a.negated();
        let d = b.negated();
        order::lemma_over_place(c, d);
        assert(a.over(b) == c.over(d)) by {
            reveal(Number::over);
        }
    }
}

/// A quotient errs by one grain of itself and one speck at most.
pub proof fn quotient_is_near(a: Number, b: Number)
    requires
        a is Finite,
        b is Finite,
        b.value() != 0real,
        size(a.value() / b.value()) <= vast(),
    ensures
        a.over(b) is Finite,
        size(a.over(b).value() - a.value() / b.value()) <= size(a.value() / b.value()) * grain()
            + speck(),
{
    lemma_value(a);
    lemma_value(b);
    let (x, y, one) = (a.value(), b.value(), pow2(149) as real);
    let (p, q) = (a.place(), b.place());
    assert(q as real != 0real) by (nonlinear_arith)
        requires
            one > 0real,
            y != 0real,
            q as real == y * one,
    ;
    lemma_over_any_place(a, b);
    let v = if q > 0 { p * pow2(149) } else { -p * pow2(149) };
    let d = if q > 0 { q as nat } else { (-q) as nat };
    let sp: int = if q > 0 { p } else { -p };
    assert(v as real == sp as real * one) by (nonlinear_arith)
        requires
            v == sp * pow2(149),
            one == pow2(149) as real,
    ;
    let (spr, dr) = (sp as real, d as real);
    let exact = x / y;
    assert(spr * one == exact * one * dr) by (nonlinear_arith)
        requires
            y != 0real,
            exact == x / y,
            (spr == x * one && dr == y * one) || (spr == -(x * one) && dr == -(y * one)),
    ;
    lemma_result(a.over(b), v, d, exact);
}

/// A root between two neighbouring whole numbers, once rounded, has a square
/// near the number under the root.
proof fn lemma_square_near(w: real, u: real, s: real, half: real)
    requires
        w >= 0x1_0000_0000_0000real,
        w * w <= s,
        s < (w + 1real) * (w + 1real),
        w <= half <= w + 1real / 2real,
        size(u - half) <= half * grain() + 1real / 2real,
    ensures
        u >= 0real,
        size(u * u - s) <= 5real * grain() * s,
{
    let g = grain();
    let (lo, hi) = (w * (1real - 3real * g / 2real), w * (1real + 2real * g));
    assert(w * g >= 0x100_0000real) by (nonlinear_arith)
        requires
            w >= 0x1_0000_0000_0000real,
            g == 1real / 0x100_0000real,
    ;
    assert(half * g <= w * g + g) by (nonlinear_arith)
        requires
            half <= w + 1real / 2real,
            g == 1real / 0x100_0000real,
    ;
    assert(lo == w - 3real * (w * g) / 2real && hi == w + 2real * (w * g)) by (nonlinear_arith)
        requires
            lo == w * (1real - 3real * g / 2real),
            hi == w * (1real + 2real * g),
    ;
    assert(0real <= lo <= u <= hi) by (nonlinear_arith)
        requires
            lo == w - 3real * (w * g) / 2real,
            hi == w + 2real * (w * g),
            w * g >= 0x100_0000real,
            w >= 0real,
            g == 1real / 0x100_0000real,
            half * g <= w * g + g,
            w <= half <= w + 1real / 2real,
            u <= half + half * g + 1real / 2real,
            u >= half - half * g - 1real / 2real,
    ;
    let ww = w * w;
    assert(lo * lo <= u * u <= hi * hi) by (nonlinear_arith)
        requires
            0real <= lo <= u <= hi,
    ;
    assert(hi * hi == ww * ((1real + 2real * g) * (1real + 2real * g))) by (nonlinear_arith)
        requires
            hi == w * (1real + 2real * g),
            ww == w * w,
    ;
    assert(lo * lo == ww * ((1real - 3real * g / 2real) * (1real - 3real * g / 2real)))
        by (nonlinear_arith)
        requires
            lo == w * (1real - 3real * g / 2real),
            ww == w * w,
    ;
    assert(s <= ww * (1real + g)) by (nonlinear_arith)
        requires
            s < (w + 1real) * (w + 1real),
            ww == w * w,
            w * g >= 0x100_0000real,
            w >= 0x1_0000_0000_0000real,
    ;
    assert(ww >= 0real) by (nonlinear_arith)
        requires
            ww == w * w,
    ;
    assert(hi * hi <= ww * (1real + 5real * g)) by (nonlinear_arith)
        requires
            ww >= 0real,
            g == 1real / 0x100_0000real,
            hi * hi == ww * ((1real + 2real * g) * (1real + 2real * g)),
    ;
    assert(hi * hi <= s * (1real + 5real * g)) by (nonlinear_arith)
        requires
            hi * hi <= ww * (1real + 5real * g),
            ww <= s,
            g == 1real / 0x100_0000real,
    ;
    assert(s * (1real - 5real * g) <= lo * lo) by (nonlinear_arith)
        requires
            ww >= 0real,
            s <= ww * (1real + g),
            g == 1real / 0x100_0000real,
            lo * lo == ww * ((1real - 3real * g / 2real) * (1real - 3real * g / 2real)),
    ;
    assert(size(u * u - s) <= 5real * g * s) by (nonlinear_arith)
        requires
            s * (1real - 5real * g) <= u * u <= s * (1real + 5real * g),
            size(u * u - s) == if u * u - s < 0real { -(u * u - s) } else { u * u - s },
    ;
}

/// The square of a root is within five grains of the number under the root.
pub proof fn root_is_near(a: Number)
    requires
        a.is_single(),
        a is Finite,
        a.place() >= 0,
    ensures
        a.root() is Finite,
        a.root().value() >= 0real,
        size(a.root().value() * a.root().value() - a.value()) <= 5real * grain() * a.value(),
{
    lemma_value(a);
    lemma_value(a.root());
    let one = pow2(149) as real;
    if a.place() == 0 {
        assert(a.root() == a) by {
            reveal(Number::root);
        }
        assert(a.value() == 0real) by (nonlinear_arith)
            requires
                one > 0real,
                0real == a.value() * one,
        ;
        assert(0real * 0real == 0real);
    } else {
        let units = a->Finite_units;
        let square = units * pow2(149);
        let (whole, n) = order::lemma_root_parts(units);
        order::lemma_rounded(false, n, 2);
        lemma_round_near(n, 2);
        let u = rounding::round(n, 2);
        lemma_pow2_adds(48, 48);
        lemma_pow2_strictly_increases(96, 149);
        lemma2_to64_rest();
        lemma2_to64();
        assert(0x1_0000_0000_0000 * 0x1_0000_0000_0000 <= square) by (nonlinear_arith)
            requires
                square == units * pow2(149),
                units > 0,
                pow2(149) > pow2(96),
                pow2(96) == 0x1_0000_0000_0000 * 0x1_0000_0000_0000,
        ;
        rounding::lemma_floor_root_above(0x1_0000_0000_0000, square);
        let (wr, ur, sr) = (whole as real, u as real, square as real);
        let half = n as real / 2real;
        assert((whole * whole) as real == wr * wr && ((whole + 1) * (whole + 1)) as real == (wr
            + 1real) * (wr + 1real)) by (nonlinear_arith)
            requires
                wr == whole as real,
        ;
        assert(size(ur - half) <= half * grain() + 1real / 2real) by (nonlinear_arith)
            requires
                0x100_0000real * size(2real * ur - 2real * half) <= 2real * half + 0x100_0000real,
                size(2real * ur - 2real * half) == 2real * size(ur - half),
                grain() == 1real / 0x100_0000real,
        ;
        lemma_square_near(wr, ur, sr, half);
        assert(sr == a.value() * one * one) by (nonlinear_arith)
            requires
                square == units * pow2(149),
                sr == square as real,
                one == pow2(149) as real,
                units as real == a.value() * one,
        ;
        if u >= pow2(277) {
            lemma_pow2_adds(277, 149);
            lemma_pow2_adds(277, 277);
            lemma_pow2_adds(277, 276);
            lemma_pow2_unfold(277);
            lemma_pow2_strictly_increases(149, 276);
            lemma_pow2_pos(277);
            let (top, low) = (pow2(277) as real, pow2(276) as real);
            assert(sr <= top * low) by (nonlinear_arith)
                requires
                    square == units * pow2(149),
                    units < pow2(277),
                    pow2(149) < pow2(276),
                    sr == square as real,
                    top == pow2(277) as real,
                    low == pow2(276) as real,
            ;
            assert(false) by (nonlinear_arith)
                requires
                    top > 0real,
                    ur >= top,
                    top == 2real * low,
                    sr <= top * low,
                    ur * ur - sr <= 5real * grain() * sr,
                    grain() == 1real / 0x100_0000real,
            ;
        }
        let r = a.root().value();
        assert(ur == r * one);
        let (x, y) = (size(r * r - a.value()), size(ur * ur - sr));
        assert(x * (one * one) == y) by (nonlinear_arith)
            requires
                one > 0real,
                ur == r * one,
                sr == a.value() * one * one,
                x == if r * r - a.value() < 0real { -(r * r - a.value()) } else { r * r
                    - a.value() },
                y == if ur * ur - sr < 0real { -(ur * ur - sr) } else { ur * ur - sr },
        ;
        assert(x <= 5real * grain() * a.value() && r >= 0real) by (nonlinear_arith)
            requires
                one > 0real,
                x * (one * one) <= 5real * grain() * (a.value() * one * one),
                ur == r * one,
                ur >= 0real,
        ;
    }
}

/// Up to here twice a size still stays finite: `2^126`.
pub open spec fn wide() -> real {
    pow2(126) as real
}

pub proof fn lemma_wide()
    ensures
        vast() == 2real * wide(),
        wide() >= 0x1_0000_0000_0000real * 0x1_0000_0000_0000real,
        wide() >= 0x1_0000_0000real,
        speck() > 0real,
        speck() <= grain() * grain(),
{
    lemma_pow2_unfold(127);
    lemma_pow2_strictly_increases(32, 126);
    lemma_pow2_strictly_increases(96, 126);
    lemma_pow2_adds(48, 48);
    lemma_pow2_strictly_increases(48, 149);
    lemma2_to64_rest();
    lemma2_to64();
    let one = pow2(149) as real;
    assert(1real / (2real * one) > 0real && 1real / (2real * one) <= grain() * grain())
        by (nonlinear_arith)
        requires
            one >= 0x1_0000_0000_0000real,
            grain() == 1real / 0x100_0000real,
    ;
}

/// A quotient of two reals that each err by a grain.
proof fn lemma_quotient(dh: real, d: real, wh: real, w: real)
    requires
        w != 0real,
        size(dh - d) <= size(d) * grain(),
        size(wh - w) <= size(w) * grain(),
    ensures
        wh != 0real,
        size(dh / wh - d / w) <= 5real / 2real * grain() * size(d / w),
{
    let g = grain();
    let q = d / w;
    let (al, be) = (dh - d, wh - w);
    let (sq, sw, swh) = (size(q), size(w), size(wh));
    assert(d == q * w) by (nonlinear_arith)
        requires
            w != 0real,
            q == d / w,
    ;
    lemma_size_product(q, w);
    lemma_size_product(q, be);
    assert(swh >= sw - sw * g);
    assert(sw > 0real && swh >= sw * (1real - g) && swh > 0real) by (nonlinear_arith)
        requires
            sw > 0real,
            swh >= sw - sw * g,
            g == 1real / 0x100_0000real,
    ;
    let x = dh / wh - q;
    assert(x * wh == al - q * be) by (nonlinear_arith)
        requires
            wh != 0real,
            d == q * w,
            x == dh / wh - q,
            al == dh - d,
            be == wh - w,
    ;
    lemma_size_product(x, wh);
    assert(size(x) * swh <= 2real * g * sq * sw) by (nonlinear_arith)
        requires
            size(x) * swh <= size(al) + sq * size(be),
            size(al) <= (sq * sw) * g,
            size(be) <= sw * g,
            sq >= 0real,
    ;
    assert(size(x) <= 5real / 2real * g * sq) by (nonlinear_arith)
        requires
            size(x) * swh <= 2real * g * sq * sw,
            swh >= sw * (1real - g),
            sw > 0real,
            sq >= 0real,
            g == 1real / 0x100_0000real,
    ;
}

/// The size of a product.
pub proof fn lemma_size_product(a: real, b: real)
    ensures
        size(a * b) == size(a) * size(b),
{
    assert(size(a * b) == size(a) * size(b)) by (nonlinear_arith)
        requires
            size(a) == if a < 0real { -a } else { a },
            size(b) == if b < 0real { -b } else { b },
            size(a * b) == if a * b < 0real { -(a * b) } else { a * b },
    ;
}

/// A quotient of two differences errs by four grains of itself and a speck.
pub proof fn quotient_of_differences_is_near(n: Number, w: Number, d: real, e: real)
    requires
        n is Finite,
        w is Finite,
        e != 0real,
        size(n.value() - d) <= size(d) * grain(),
        size(w.value() - e) <= size(e) * grain(),
        size(d / e) <= wide(),
    ensures
        n.over(w) is Finite,
        size(n.over(w).value() - d / e) <= 4real * grain() * size(d / e) + speck(),
{
    lemma_wide();
    lemma_quotient(n.value(), d, w.value(), e);
    let (q, p) = (d / e, n.value() / w.value());
    let g = grain();
    assert(5real / 2real * g * size(q) <= size(q)) by (nonlinear_arith)
        requires
            size(q) >= 0real,
            g == 1real / 0x100_0000real,
    ;
    quotient_is_near(n, w);
    assert(size(p) * g + 5real / 2real * g * size(q) <= 4real * g * size(q)) by (nonlinear_arith)
        requires
            size(p) <= size(q) + 5real / 2real * g * size(q),
            size(q) >= 0real,
            g == 1real / 0x100_0000real,
    ;
}

/// Magnitudes as sizes.
pub proof fn lemma_magnitude(a: Number)
    ensures
        a is Finite ==> a.magnitude() is Finite,
        a.magnitude().value() == size(a.value()),
{
    lemma_value(a);
    lemma_value(a.magnitude());
    lemma_pow2_pos(277);
    let (x, y, one) = (a.value(), a.magnitude().value(), pow2(149) as real);
    assert(y == size(x)) by (nonlinear_arith)
        requires
            one > 0real,
            x * one >= 0real ==> y * one == x * one,
            x * one < 0real ==> y * one == -(x * one),
            size(x) == if x < 0real { -x } else { x },
    ;
}

/// Order by value is order by place.
pub proof fn lemma_value_order(a: Number, b: Number)
    ensures
        a.value() <= b.value() <==> a.place() <= b.place(),
        a.value() == b.value() <==> a.place() == b.place(),
        a.value() == 0real <==> a.place() == 0,
        a.value() >= 0real <==> a.place() >= 0,
{
    lemma_value(a);
    lemma_value(b);
    let (x, y, one) = (a.value(), b.value(), pow2(149) as real);
    assert((x <= y <==> x * one <= y * one) && (x == y <==> x * one == y * one) && (x == 0real <==> x
        * one == 0real) && (x >= 0real <==> x * one >= 0real)) by (nonlinear_arith)
        requires
            one > 0real,
    ;
}

/// Small whole numbers have the value that they say.
pub proof fn lemma_whole_value(i: int)
    requires
        -0x100_0000 <= i <= 0x100_0000,
    ensures
        Number::whole(i) is Finite,
        Number::whole(i).is_single(),
        Number::whole(i).value() == i as real,
{
    order::lemma_whole(i);
    lemma_pow2_pos(149);
    let (x, one) = (Number::whole(i).value(), pow2(149));
    assert((i * one) as real == i as real * one as real) by (nonlinear_arith);
    assert(i as real * one as real / one as real == i as real) by (nonlinear_arith)
        requires
            one as real > 0real,
    ;
}

/// Decimal fractions err by a grain at most.
pub proof fn ratio_is_near(n: nat, d: nat)
    requires
        0 < n <= 0x100_0000,
        0 < d <= 0x1_0000_0000,
    ensures
        Number::ratio(n, d) is Finite,
        Number::ratio(n, d).is_single(),
        Number::ratio(n, d).value() > 0real,
        size(Number::ratio(n, d).value() - n as real / d as real) <= n as real / d as real * grain(),
{
    let r = Number::ratio(n, d);
    let one = pow2(149);
    let exact = n as real / d as real;
    order::lemma_ratio_bounds(n, d);
    lemma_value(r);
    lemma_wide();
    let v = n * one;
    assert(r.place() == order::rounded_place(v as int, d)) by {
        reveal(Number::ratio);
        reveal(Number::rounded);
    }
    let (nr, dr, or) = (n as real, d as real, one as real);
    assert(v as real == nr * or) by (nonlinear_arith)
        requires
            v == n * one,
            nr == n as real,
            or == one as real,
    ;
    assert(v as real == exact * or * dr && exact > 0real) by (nonlinear_arith)
        requires
            v as real == nr * or,
            exact == nr / dr,
            dr > 0real,
            nr > 0real,
    ;
    assert(exact <= nr) by (nonlinear_arith)
        requires
            exact == nr / dr,
            dr >= 1real,
            nr > 0real,
    ;
    lemma_value_order(r, r);
    // The fraction is far from the smallest numbers, so its gap is wider than a unit.
    rounding::lemma_spacing_bounds(v, d);
    lemma_ratio_gap(n, d);
    let err = vstd::math::abs(r.place() * d - v);
    let er = err as real;
    assert((r.place() * d) as real == r.place() as real * dr) by (nonlinear_arith)
        requires
            dr == d as real,
    ;
    let diff = r.place() as real * dr - v as real;
    let x = size(r.value() - exact);
    assert(x * or * dr == er) by (nonlinear_arith)
        requires
            or > 0real,
            dr > 0real,
            r.place() as real == r.value() * or,
            v as real == exact * or * dr,
            er == if diff < 0real { -diff } else { diff },
            diff == r.place() as real * dr - v as real,
            x == if r.value() - exact < 0real { -(r.value() - exact) } else { r.value() - exact },
    ;
    assert(x <= exact * grain()) by (nonlinear_arith)
        requires
            or > 0real,
            dr > 0real,
            x * or * dr == er,
            0x100_0000real * er <= exact * or * dr,
            grain() == 1real / 0x100_0000real,
    ;
}

proof fn lemma_ratio_gap(n: nat, d: nat)
    requires
        0 < n <= 0x100_0000,
        0 < d <= 0x1_0000_0000,
    ensures
        0x100_0000 * vstd::math::abs(Number::ratio(n, d).place() * d - n * pow2(149)) <= n * pow2(149),
{
    let v = n * pow2(149);
    let t = rounding::spacing(v, d);
    order::lemma_ratio_bounds(n, d);
    rounding::lemma_spacing_bounds(v, d);
    lemma_pow2_adds(60, 24);
    lemma_pow2_strictly_increases(84, 149);
    lemma2_to64_rest();
    lemma2_to64();
    assert(v >= pow2(84)) by (nonlinear_arith)
        requires
            v == n * pow2(149),
            n >= 1,
            pow2(149) > pow2(84),
    ;
    if t == 0 {
        assert(pow2(24) * d <= pow2(84)) by (nonlinear_arith)
            requires
                pow2(24) == 0x100_0000,
                d <= 0x1_0000_0000,
                pow2(84) == 0x1000_0000_0000_0000 * 0x100_0000,
        ;
    }
    lemma_round_near(v, d);
    assert(Number::ratio(n, d).place() == rounding::round(v, d)) by {
        reveal(Number::ratio);
        reveal(Number::rounded);
        lemma_pow2_pos(277);
    }
}

/// One grain of a size, without the division.
pub proof fn lemma_grain(err: real, exact: real)
    ensures
        err <= exact * grain() <==> 0x100_0000real * err <= exact,
{
    assert(err <= exact * grain() <==> 0x100_0000real * err <= exact) by (nonlinear_arith)
        requires
            grain() == 1real / 0x100_0000real,
    ;
}

/// The error of a sum, by a bound on the exact sum.
pub proof fn plus_within(a: Number, b: Number, most: real)
    requires
        a is Finite,
        b is Finite,
        -most <= a.value() + b.value() <= most,
        most <= vast(),
    ensures
        a.plus(b) is Finite,
        -most <= 0x100_0000real * (a.plus(b).value() - (a.value() + b.value())) <= most,
{
    let x = a.value() + b.value();
    sum_is_near(a, b);
    lemma_grain(size(a.plus(b).value() - x), size(x));
}

/// The error of a difference, by a bound on the exact difference.
pub proof fn minus_within(a: Number, b: Number, most: real)
    requires
        a is Finite,
        b is Finite,
        -most <= a.value() - b.value() <= most,
        most <= vast(),
    ensures
        a.minus(b) is Finite,
        -most <= 0x100_0000real * (a.minus(b).value() - (a.value() - b.value())) <= most,
{
    let x = a.value() - b.value();
    difference_is_near(a, b);
    lemma_grain(size(a.minus(b).value() - x), size(x));
}

/// The error of a product, by a bound on the exact product.
pub proof fn times_within(a: Number, b: Number, exact: real, most: real)
    requires
        a is Finite,
        b is Finite,
        exact == a.value() * b.value(),
        -most <= exact <= most,
        most <= vast(),
    ensures
        a.times(b) is Finite,
        -most <= 0x100_0000real * (a.times(b).value() - exact + speck()),
        0x100_0000real * (a.times(b).value() - exact - speck()) <= most,
{
    product_is_near(a, b);
    lemma_grain(size(a.times(b).value() - exact) - speck(), size(exact));
}

/// The error of a quotient, by a bound on the exact quotient.
pub proof fn over_within(a: Number, b: Number, exact: real, most: real)
    requires
        a is Finite,
        b is Finite,
        b.value() != 0real,
        a.value() == exact * b.value(),
        -most <= exact <= most,
        most <= vast(),
    ensures
        a.over(b) is Finite,
        -most <= 0x100_0000real * (a.over(b).value() - exact + speck()),
        0x100_0000real * (a.over(b).value() - exact - speck()) <= most,
{
    let (x, y) = (a.value(), b.value());
    assert(x / y == exact) by (nonlinear_arith)
        requires
            y != 0real,
            x == exact * y,
    ;
    quotient_is_near(a, b);
    lemma_grain(size(a.over(b).value() - exact) - speck(), size(exact));
}

/// A size within a bound, on both sides.
pub proof fn lemma_size(x: real, most: real)
    ensures
        size(x) <= most <==> -most <= x <= most,
{
}

/// Whole numbers err by a grain at most.
pub proof fn whole_is_near(i: int)
    requires
        -0x1_0000_0000 <= i <= 0x1_0000_0000,
    ensures
        Number::whole(i) is Finite,
        size(Number::whole(i).value() - i as real) <= size(i as real) * grain(),
{
    lemma_wide();
    let r = Number::whole(i);
    let one = pow2(149);
    let n = vstd::math::abs(i) * one;
    let v = i * one;
    lemma_pow2_pos(149);
    assert(vstd::math::abs(v) == n && (v < 0 <==> i < 0)) by (nonlinear_arith)
        requires
            v == i * one,
            n == vstd::math::abs(i) * one,
            one > 0,
            vstd::math::abs(i) == if i < 0 { -i } else { i },
            vstd::math::abs(v) == if v < 0 { -v } else { v },
    ;
    order::lemma_rounded(i < 0, n, 1);
    assert(r == Number::rounded(i < 0, n, 1)) by {
        reveal(Number::whole);
    }
    let exact = i as real;
    assert(v as real == exact * one as real * 1real) by (nonlinear_arith)
        requires
            v == i * one,
            exact == i as real,
    ;
    lemma_result(r, v, 1, exact);
}

/// Numbers are ordered as the reals that they stand for.
pub proof fn order_is_of_values(a: Number, b: Number)
    requires
        a is Finite,
        b is Finite,
    ensures
        a.less(b) <==> a.value() < b.value(),
        a.at_most(b) <==> a.value() <= b.value(),
        a.lesser(b).value() <= a.value() && a.lesser(b).value() <= b.value(),
        a.lesser(b) == a || a.lesser(b) == b,
        a.value() <= a.greater(b).value() && b.value() <= a.greater(b).value(),
        a.greater(b) == a || a.greater(b) == b,
{
    lemma_value_order(a, b);
    lemma_value_order(b, a);
}

/// One half of a whole number of at most 24 bits is held exactly.
pub proof fn half_of_whole_is_exact(n: int)
    requires
        0 <= n <= 0x100_0000,
    ensures
        Number::whole(n).over(Number::whole(2)) is Finite,
        Number::whole(n).over(Number::whole(2)).is_single(),
        2real * Number::whole(n).over(Number::whole(2)).value() == n as real,
{
    let one = pow2(149);
    lemma_pow2_pos(149);
    lemma_pow2_unfold(149);
    let (w, two) = (Number::whole(n), Number::whole(2));
    order::lemma_whole(n);
    order::lemma_whole(2);
    order::lemma_over_place(w, two);
    let half = pow2(148);
    let u = n as nat * half;
    assert((n * one) * one * 1 == u * (2 * one)) by (nonlinear_arith)
        requires
            one == 2 * half,
            u == n * half,
    ;
    order::lemma_rounded_place_same((n * one) * one, 2 * one, u as int, 1);
    assert(rounding::representable(u));
    rounding::lemma_round_exact(u);
    lemma_pow2_adds(24, 148);
    lemma_pow2_strictly_increases(172, 277);
    lemma2_to64();
    assert(u <= pow2(172)) by (nonlinear_arith)
        requires
            u == n * half,
            n <= 0x100_0000,
            pow2(172) == 0x100_0000 * half,
    ;
    let r = w.over(two);
    order::lemma_over_single(w, two);
    order::lemma_place_bounds(r);
    assert(r.place() == u);
    lemma_value(r);
    let (x, o, nr) = (r.value(), one as real, n as real);
    assert(2 * u == n * one) by (nonlinear_arith)
        requires
            u == n * half,
            one == 2 * half,
    ;
    assert((n * one) as real == nr * o) by (nonlinear_arith)
        requires
            nr == n as real,
            o == one as real,
    ;
    assert(2real * x == nr) by (nonlinear_arith)
        requires
            o > 0real,
            2real * (x * o) == nr * o,
    ;
}

}
