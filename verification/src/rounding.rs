//! Rounding of exact magnitudes to binary single precision.
//!
//! Every finite single precision number is a whole multiple of the smallest
//! positive one, `2^-149`. Magnitudes are therefore counted in *units* of
//! `2^-149`, and an exact result is a fraction `n / d` of units.

use vstd::arithmetic::power2::*;
use vstd::prelude::*;

verus! {

/// `n / d` rounded to the nearest whole number, ties to the even one.
pub open spec fn nearest_even(n: nat, d: nat) -> nat {
    let q = n / d;
    let r = n % d;
    if 2 * r > d || (2 * r == d && q % 2 == 1) {
        q + 1
    } else {
        q
    }
}

/// The exponent of the gap between neighbouring representable magnitudes
/// around `n / d`: the least `t` for which `n / d < 2^(24 + t)`.
pub open spec fn spacing(n: nat, d: nat) -> nat
    decreases n - d,
{
    if d == 0 || n < 0x100_0000 * d {
        0
    } else {
        1 + spacing(n, 2 * d)
    }
}

/// The representable magnitude nearest to `n / d`, ties to the even
/// significand, with no bound on the exponent.
pub open spec fn round(n: nat, d: nat) -> nat {
    let gap = pow2(spacing(n, d));
    nearest_even(n, d * gap) * gap
}

/// Magnitudes that a significand of 24 bits can hold.
pub open spec fn representable(u: nat) -> bool {
    exists|q: nat, t: nat| #![trigger q * pow2(t)] u == q * pow2(t) && q <= 0x100_0000
}

pub proof fn lemma_pow2_0()
    ensures
        pow2(0) == 1,
{
    lemma2_to64();
}

pub proof fn lemma_pow2_24()
    ensures
        pow2(24) == 0x100_0000,
        pow2(23) == 0x80_0000,
{
    lemma2_to64();
}

/// The two bounds that single out `spacing`.
pub proof fn lemma_spacing_is(n: nat, d: nat, t: nat)
    requires
        d > 0,
        n < pow2(24 + t) * d,
        t == 0 || n >= pow2((23 + t) as nat) * d,
    ensures
        spacing(n, d) == t,
    decreases t,
{
    lemma_pow2_24();
    if t > 0 {
        let below = (t - 1) as nat;
        lemma_pow2_unfold(24 + t);
        lemma_pow2_unfold(23 + t);
        assert(pow2(24 + t) * d == pow2(24 + below) * (2 * d)) by (nonlinear_arith)
            requires
                pow2(24 + t) == 2 * pow2(24 + below),
        ;
        if below > 0 {
            assert(pow2(23 + t) * d == pow2(23 + below) * (2 * d)) by (nonlinear_arith)
                requires
                    pow2(23 + t) == 2 * pow2(23 + below),
            ;
        }
        if n < 0x100_0000 * d {
            if below > 0 {
                lemma_pow2_strictly_increases(24, 23 + t);
            }
            assert(pow2(24) * d <= pow2(23 + t) * d) by (nonlinear_arith)
                requires
                    pow2(24) <= pow2(23 + t),
            ;
            assert(false);
        }
        if below == 0 {
            assert(n < pow2(24) * (2 * d));
        }
        lemma_spacing_is(n, 2 * d, below);
    }
}

/// `spacing` meets the two bounds.
pub proof fn lemma_spacing_bounds(n: nat, d: nat)
    requires
        d > 0,
    ensures
        n < pow2(24 + spacing(n, d)) * d,
        spacing(n, d) == 0 || n >= pow2((23 + spacing(n, d)) as nat) * d,
    decreases n - d,
{
    lemma_pow2_24();
    if n >= 0x100_0000 * d {
        lemma_spacing_bounds(n, 2 * d);
        let below = spacing(n, 2 * d);
        let t = spacing(n, d);
        lemma_pow2_unfold(24 + t);
        lemma_pow2_unfold(23 + t);
        assert(pow2(24 + t) * d == pow2(24 + below) * (2 * d)) by (nonlinear_arith)
            requires
                pow2(24 + t) == 2 * pow2(24 + below),
        ;
        assert(pow2(23 + t) * d == pow2(23 + below) * (2 * d)) by (nonlinear_arith)
            requires
                pow2(23 + t) == 2 * pow2(23 + below),
        ;
    }
}

/// `m` is the whole part of `n / d`, and `inexact` tells whether anything was cut off.
pub open spec fn framed(n: nat, d: nat, m: nat, inexact: bool) -> bool {
    &&& m * d <= n < (m + 1) * d
    &&& inexact <==> n != m * d
}

pub proof fn lemma_framed_halve(n: nat, d: nat, m: nat, inexact: bool)
    requires
        d > 0,
        framed(n, d, m, inexact),
    ensures
        framed(n, 2 * d, m / 2, inexact || m % 2 == 1),
{
    let k = m / 2;
    if m % 2 == 0 {
        assert(k * (2 * d) == m * d) by (nonlinear_arith)
            requires
                m == 2 * k,
        ;
        assert((k + 1) * (2 * d) == (m + 1) * d + d) by (nonlinear_arith)
            requires
                m == 2 * k,
        ;
    } else {
        assert(k * (2 * d) == m * d - d) by (nonlinear_arith)
            requires
                m == 2 * k + 1,
        ;
        assert((k + 1) * (2 * d) == (m + 1) * d) by (nonlinear_arith)
            requires
                m == 2 * k + 1,
        ;
    }
}

pub proof fn lemma_framed_double(n: nat, d: nat, m: nat)
    requires
        d > 0,
        framed(n, 2 * d, m, false),
    ensures
        framed(n, d, 2 * m, false),
{
    assert((2 * m) * d == m * (2 * d)) by (nonlinear_arith);
    assert((2 * m + 1) * d == (2 * m) * d + d) by (nonlinear_arith);
}

/// A common factor of numerator and denominator does not change the frame.
pub proof fn lemma_framed_scale(n: nat, d: nat, m: nat, inexact: bool, c: nat)
    requires
        c > 0,
    ensures
        framed(n * c, d * c, m, inexact) <==> framed(n, d, m, inexact),
{
    assert(m * (d * c) == (m * d) * c) by (nonlinear_arith);
    assert((m + 1) * (d * c) == ((m + 1) * d) * c) by (nonlinear_arith);
    let (a, b) = (m * d, (m + 1) * d);
    assert(a * c <= n * c <==> a <= n) by (nonlinear_arith)
        requires
            c > 0,
    ;
    assert(n * c < b * c <==> n < b) by (nonlinear_arith)
        requires
            c > 0,
    ;
    assert(n * c == a * c <==> n == a) by (nonlinear_arith)
        requires
            c > 0,
    ;
}

/// The whole part of `2 * n / d` and whether it was exact decide the rounding.
pub proof fn lemma_framed_nearest(n: nat, d: nat, m: nat, inexact: bool)
    requires
        d > 0,
        framed(2 * n, d, m, inexact),
    ensures
        nearest_even(n, d) == if m % 2 == 1 && (inexact || (m / 2) % 2 == 1) {
            m / 2 + 1
        } else {
            m / 2
        },
{
    let k = m / 2;
    assert(m * d == 2 * (k * d) + (m % 2) * d) by (nonlinear_arith)
        requires
            m == 2 * k + m % 2,
    ;
    assert((m + 1) * d == m * d + d) by (nonlinear_arith);
    assert((m % 2) * d == if m % 2 == 1 { d } else { 0 }) by (nonlinear_arith)
        requires
            m % 2 == 0 || m % 2 == 1,
    ;
    let r = n - k * d;
    assert(0 <= r < d);
    assert(n == d * k + r) by (nonlinear_arith)
        requires
            r == n - k * d,
    ;
    vstd::arithmetic::div_mod::lemma_fundamental_div_mod_converse(n as int, d as int, k as int, r);
}

/// Twice the magnitude counted in gaps decides how it rounds, once it is
/// known to lie where the gap is `2^t`.
pub proof fn lemma_rounded(n: nat, d: nat, t: nat, m: nat, inexact: bool)
    requires
        d > 0,
        framed(n * pow2(200), d * pow2(t + 199), m, inexact),
        m < 0x200_0000,
        t == 0 || m >= 0x100_0000,
    ensures
        round(n, d) == (if m % 2 == 1 && (inexact || (m / 2) % 2 == 1) {
            m / 2 + 1
        } else {
            m / 2
        }) * pow2(t),
{
    let gap = pow2(t);
    let c = pow2(199);
    lemma_pow2_pos(t);
    lemma_pow2_pos(199);
    lemma_pow2_unfold(200);
    lemma_pow2_adds(t, 199);
    assert(n * pow2(200) == (2 * n) * c) by (nonlinear_arith)
        requires
            pow2(200) == 2 * c,
    ;
    assert(d * pow2(t + 199) == (d * gap) * c) by (nonlinear_arith)
        requires
            pow2(t + 199) == gap * c,
    ;
    lemma_framed_scale(2 * n, d * gap, m, inexact, c);
    assert(d * gap > 0) by (nonlinear_arith)
        requires
            d > 0,
            gap > 0,
    ;
    lemma_framed_nearest(n, d * gap, m, inexact);
    lemma_pow2_24();
    lemma_pow2_adds(24, t);
    assert((m + 1) * (d * gap) <= 2 * (pow2(24 + t) * d)) by (nonlinear_arith)
        requires
            m + 1 <= 2 * pow2(24),
            pow2(24 + t) == pow2(24) * gap,
    ;
    if t > 0 {
        lemma_pow2_adds(23, t);
        assert(m * (d * gap) >= 2 * (pow2(23 + t) * d)) by (nonlinear_arith)
            requires
                m >= 2 * pow2(23),
                pow2(23 + t) == pow2(23) * gap,
        ;
    }
    lemma_spacing_is(n, d, t);
}

/// The whole part of the square root of `n`.
pub open spec fn floor_root(n: nat) -> nat
    decreases n,
{
    if n == 0 {
        0
    } else {
        let r = 2 * floor_root(n / 4);
        if (r + 1) * (r + 1) <= n {
            r + 1
        } else {
            r
        }
    }
}

pub proof fn lemma_floor_root(n: nat)
    ensures
        floor_root(n) * floor_root(n) <= n < (floor_root(n) + 1) * (floor_root(n) + 1),
    decreases n,
{
    if n > 0 {
        lemma_floor_root(n / 4);
        let h = floor_root(n / 4);
        let r = 2 * h;
        assert(r * r == 4 * (h * h)) by (nonlinear_arith)
            requires
                r == 2 * h,
        ;
        assert((r + 2) * (r + 2) == 4 * ((h + 1) * (h + 1))) by (nonlinear_arith)
            requires
                r == 2 * h,
        ;
        assert(n < (r + 2) * (r + 2));
        let f = floor_root(n);
        if (r + 1) * (r + 1) <= n {
            assert(f * f == (r + 1) * (r + 1) && (f + 1) * (f + 1) == (r + 2) * (r + 2))
                by (nonlinear_arith)
                requires
                    f == r + 1,
            ;
        } else {
            assert(f * f == r * r && (f + 1) * (f + 1) == (r + 1) * (r + 1)) by (nonlinear_arith)
                requires
                    f == r,
            ;
        }
    } else {
        let f = floor_root(n);
        assert(f * f == 0 && (f + 1) * (f + 1) == 1) by (nonlinear_arith)
            requires
                f == 0,
        ;
    }
}

/// A square that is no greater has a root that is no greater.
pub proof fn lemma_floor_root_above(r: nat, n: nat)
    requires
        r * r <= n,
    ensures
        r <= floor_root(n),
{
    lemma_floor_root(n);
    let f = floor_root(n);
    assert(r <= f) by (nonlinear_arith)
        requires
            r * r < (f + 1) * (f + 1),
    ;
}

/// A square root found at a coarser scale frames the one in units.
pub proof fn lemma_root_frame(
    big: nat,
    r: nat,
    gap: nat,
    square: nat,
    whole: nat,
    n: nat,
    cut: bool,
)
    requires
        gap > 0,
        r * r <= big < (r + 1) * (r + 1),
        cut <==> r * r != big,
        square == big * (gap * gap),
        whole == floor_root(square),
        n == if whole * whole == square { 2 * whole } else { 2 * whole + 1 },
    ensures
        framed(n, 2 * gap, r, cut),
{
    lemma_floor_root(square);
    let low = r * gap;
    let high = (r + 1) * gap;
    let step = gap * gap;
    assert(low * low == (r * r) * step) by (nonlinear_arith)
        requires
            low == r * gap,
            step == gap * gap,
    ;
    assert(high * high == ((r + 1) * (r + 1)) * step) by (nonlinear_arith)
        requires
            high == (r + 1) * gap,
            step == gap * gap,
    ;
    assert(step > 0) by (nonlinear_arith)
        requires
            step == gap * gap,
            gap > 0,
    ;
    let rr = r * r;
    let ss = (r + 1) * (r + 1);
    assert(rr * step <= big * step && big * step < ss * step) by (nonlinear_arith)
        requires
            rr <= big < ss,
            step > 0,
    ;
    assert(rr * step == big * step <==> rr == big) by (nonlinear_arith)
        requires
            step > 0,
    ;
    // low * low <= square < high * high
    assert(low <= whole) by (nonlinear_arith)
        requires
            low * low < (whole + 1) * (whole + 1),
    ;
    assert(whole < high) by (nonlinear_arith)
        requires
            whole * whole < high * high,
    ;
    if rr == big {
        assert(whole <= low) by (nonlinear_arith)
            requires
                whole * whole <= low * low,
        ;
    }
    assert(r * (2 * gap) == 2 * low) by (nonlinear_arith)
        requires
            low == r * gap,
    ;
    assert((r + 1) * (2 * gap) == 2 * high) by (nonlinear_arith)
        requires
            high == (r + 1) * gap,
    ;
}

/// Rounding to whole numbers keeps order.
pub proof fn lemma_nearest_mono(n1: nat, d1: nat, n2: nat, d2: nat)
    requires
        d1 > 0,
        d2 > 0,
        n1 * d2 <= n2 * d1,
    ensures
        nearest_even(n1, d1) <= nearest_even(n2, d2),
{
    let (q1, r1) = (n1 / d1, n1 % d1);
    let (q2, r2) = (n2 / d2, n2 % d2);
    vstd::arithmetic::div_mod::lemma_fundamental_div_mod(n1 as int, d1 as int);
    vstd::arithmetic::div_mod::lemma_fundamental_div_mod(n2 as int, d2 as int);
    if q1 > q2 {
        assert(n1 * d2 > n2 * d1) by (nonlinear_arith)
            requires
                n1 == d1 * q1 + r1,
                n2 == d2 * q2 + r2,
                q1 >= q2 + 1,
                r2 < d2,
                r1 >= 0,
                d1 > 0,
                d2 > 0,
        ;
    } else if q1 == q2 {
        assert(r1 * d2 <= r2 * d1) by (nonlinear_arith)
            requires
                n1 == d1 * q1 + r1,
                n2 == d2 * q2 + r2,
                q1 == q2,
                n1 * d2 <= n2 * d1,
        ;
        if 2 * r1 > d1 {
            assert(2 * r2 > d2) by (nonlinear_arith)
                requires
                    2 * r1 > d1,
                    r1 * d2 <= r2 * d1,
                    d1 > 0,
                    d2 > 0,
            ;
        } else if 2 * r1 == d1 {
            assert(2 * r2 >= d2) by (nonlinear_arith)
                requires
                    2 * r1 == d1,
                    r1 * d2 <= r2 * d1,
                    d1 > 0,
                    d2 > 0,
            ;
        }
    }
}

/// A whole number less than half away is the nearest one.
pub proof fn lemma_nearest_is(n: nat, d: nat, m: nat)
    requires
        d > 0,
        -d < 2 * (n - m * d) < d,
    ensures
        nearest_even(n, d) == m,
{
    let r = n - m * d;
    assert(n == d * m + r) by (nonlinear_arith)
        requires
            r == n - m * d,
    ;
    if r >= 0 {
        vstd::arithmetic::div_mod::lemma_fundamental_div_mod_converse(
            n as int,
            d as int,
            m as int,
            r,
        );
    } else {
        assert(m > 0) by (nonlinear_arith)
            requires
                n >= 0,
                n < m * d,
        ;
        assert(n == d * (m - 1) + (r + d)) by (nonlinear_arith)
            requires
                n == d * m + r,
        ;
        vstd::arithmetic::div_mod::lemma_fundamental_div_mod_converse(
            n as int,
            d as int,
            m - 1,
            r + d,
        );
    }
}

/// Multiples round to themselves.
pub proof fn lemma_nearest_exact(d: nat, m: nat)
    requires
        d > 0,
    ensures
        nearest_even(m * d, d) == m,
{
    lemma_nearest_is(m * d, d, m);
}

/// What is rounded to, as a number of gaps.
pub proof fn lemma_round_gaps(n: nat, d: nat)
    requires
        d > 0,
    ensures
        ({
            let t = spacing(n, d);
            let q = nearest_even(n, d * pow2(t));
            &&& d * pow2(t) > 0
            &&& round(n, d) == q * pow2(t)
            &&& q <= 0x100_0000
            &&& t > 0 ==> q >= 0x80_0000
        }),
{
    let t = spacing(n, d);
    let gap = pow2(t);
    lemma_spacing_bounds(n, d);
    lemma_pow2_24();
    lemma_pow2_pos(t);
    lemma_pow2_adds(24, t);
    assert(d * gap > 0) by (nonlinear_arith)
        requires
            d > 0,
            gap > 0,
    ;
    lemma_nearest_exact(d * gap, 0x100_0000);
    assert(n * (d * gap) <= (0x100_0000 * (d * gap)) * (d * gap)) by (nonlinear_arith)
        requires
            n <= pow2(24 + t) * d,
            pow2(24 + t) == 0x100_0000 * gap,
            d > 0,
            gap > 0,
    ;
    lemma_nearest_mono(n, d * gap, 0x100_0000 * (d * gap), d * gap);
    if t > 0 {
        lemma_pow2_adds(23, t);
        lemma_nearest_exact(d * gap, 0x80_0000);
        assert(n * (d * gap) >= (0x80_0000 * (d * gap)) * (d * gap)) by (nonlinear_arith)
            requires
                n >= pow2(23 + t) * d,
                pow2(23 + t) == 0x80_0000 * gap,
                d > 0,
                gap > 0,
        ;
        lemma_nearest_mono(0x80_0000 * (d * gap), d * gap, n, d * gap);
    }
}

/// What is rounded to is representable.
pub proof fn lemma_round_representable(n: nat, d: nat)
    requires
        d > 0,
    ensures
        representable(round(n, d)),
{
    lemma_round_gaps(n, d);
}

/// A larger fraction has no finer gap.
pub proof fn lemma_spacing_mono(n1: nat, d1: nat, n2: nat, d2: nat)
    requires
        d1 > 0,
        d2 > 0,
        n1 * d2 <= n2 * d1,
    ensures
        spacing(n1, d1) <= spacing(n2, d2),
{
    let (t1, t2) = (spacing(n1, d1), spacing(n2, d2));
    lemma_spacing_bounds(n1, d1);
    lemma_spacing_bounds(n2, d2);
    if t1 > t2 {
        let (a, b) = (pow2(23 + t1), pow2(24 + t2));
        if t1 > t2 + 1 {
            lemma_pow2_strictly_increases(24 + t2, 23 + t1);
        }
        assert(n1 * d2 > n2 * d1) by (nonlinear_arith)
            requires
                n1 >= a * d1,
                n2 < b * d2,
                a >= b,
                d1 > 0,
                d2 > 0,
        ;
    }
}

/// Rounding keeps order.
pub proof fn lemma_round_mono(n1: nat, d1: nat, n2: nat, d2: nat)
    requires
        d1 > 0,
        d2 > 0,
        n1 * d2 <= n2 * d1,
    ensures
        round(n1, d1) <= round(n2, d2),
{
    let (t1, t2) = (spacing(n1, d1), spacing(n2, d2));
    lemma_spacing_mono(n1, d1, n2, d2);
    lemma_round_gaps(n1, d1);
    lemma_round_gaps(n2, d2);
    lemma_pow2_pos(t1);
    lemma_pow2_pos(t2);
    let (q1, q2) = (nearest_even(n1, d1 * pow2(t1)), nearest_even(n2, d2 * pow2(t2)));
    if t1 == t2 {
        let gap = pow2(t1);
        assert(n1 * (d2 * gap) <= n2 * (d1 * gap)) by (nonlinear_arith)
            requires
                n1 * d2 <= n2 * d1,
                gap > 0,
        ;
        lemma_nearest_mono(n1, d1 * gap, n2, d2 * gap);
        assert(q1 * gap <= q2 * gap) by (nonlinear_arith)
            requires
                q1 <= q2,
                gap > 0,
        ;
    } else {
        lemma_pow2_unfold(t1 + 1);
        if t1 + 1 < t2 {
            lemma_pow2_strictly_increases(t1 + 1, t2);
        }
        assert(q1 * pow2(t1) <= q2 * pow2(t2)) by (nonlinear_arith)
            requires
                q1 <= 0x100_0000,
                q2 >= 0x80_0000,
                pow2(t2) >= 2 * pow2(t1),
                pow2(t1) > 0,
        ;
    }
}

/// Equal fractions round alike.
pub proof fn lemma_round_same(n1: nat, d1: nat, n2: nat, d2: nat)
    requires
        d1 > 0,
        d2 > 0,
        n1 * d2 == n2 * d1,
    ensures
        round(n1, d1) == round(n2, d2),
{
    lemma_round_mono(n1, d1, n2, d2);
    lemma_round_mono(n2, d2, n1, d1);
}

/// Representable magnitudes round to themselves.
pub proof fn lemma_round_exact(u: nat)
    requires
        representable(u),
    ensures
        round(u, 1) == u,
{
    let (q, t) = choose|q: nat, t: nat| #![trigger q * pow2(t)] u == q * pow2(t) && q <= 0x100_0000;
    lemma_round_exact_parts(q, t);
}

proof fn lemma_round_exact_parts(q: nat, t: nat)
    requires
        q <= 0x100_0000,
    ensures
        round(q * pow2(t), 1) == q * pow2(t),
{
    let u = q * pow2(t);
    let s = spacing(u, 1);
    let gap = pow2(s);
    lemma_spacing_bounds(u, 1);
    lemma_pow2_24();
    lemma_pow2_pos(s);
    lemma_pow2_pos(t);
    assert(1 * gap == gap);
    if s <= t {
        lemma_pow2_adds((t - s) as nat, s);
        let m = q * pow2((t - s) as nat);
        assert(u == m * gap) by (nonlinear_arith)
            requires
                u == q * pow2(t),
                pow2(t) == pow2((t - s) as nat) * gap,
                m == q * pow2((t - s) as nat),
        ;
        lemma_nearest_exact(gap, m);
    } else {
        // Then `u` is `2^(24 + t)`, a power of two, and `s == t + 1`.
        lemma_pow2_adds(24, t);
        assert(u <= pow2(24 + t)) by (nonlinear_arith)
            requires
                u == q * pow2(t),
                q <= 0x100_0000,
                pow2(24 + t) == 0x100_0000 * pow2(t),
        ;
        if s > t + 1 {
            lemma_pow2_strictly_increases(24 + t, 23 + s);
        }
        lemma_pow2_adds(23, s);
        assert(u == 0x80_0000 * gap);
        lemma_nearest_exact(gap, 0x80_0000);
    }
}

/// Rounding moves a magnitude by half a gap at most.
pub proof fn lemma_round_error(n: nat, t: nat)
    requires
        spacing(n, 1) <= t,
    ensures
        2 * round(n, 1) <= 2 * n + pow2(t),
        2 * n <= 2 * round(n, 1) + pow2(t),
{
    let s = spacing(n, 1);
    let gap = pow2(s);
    lemma_pow2_pos(s);
    if s < t {
        lemma_pow2_strictly_increases(s, t);
    }
    assert(1 * gap == gap);
    vstd::arithmetic::div_mod::lemma_fundamental_div_mod(n as int, gap as int);
    let (q, r) = (n / gap, n % gap);
    assert((q + 1) * gap == q * gap + gap && gap * q == q * gap) by (nonlinear_arith);
}

/// No representable magnitude is nearer to `n / d` than the one it rounds to.
pub proof fn round_is_nearest(n: nat, d: nat, u: nat)
    requires
        d > 0,
        representable(u),
    ensures
        vstd::math::abs(round(n, d) * d - n) <= vstd::math::abs(u * d - n),
{
    let t = spacing(n, d);
    let gap = pow2(t);
    let step = d * gap;
    lemma_round_gaps(n, d);
    lemma_spacing_bounds(n, d);
    lemma_pow2_pos(t);
    lemma_pow2_24();
    vstd::arithmetic::div_mod::lemma_fundamental_div_mod(n as int, step as int);
    let (q, r) = (n / step, n % step);
    let (a, b) = choose|a: nat, b: nat| #![trigger a * pow2(b)] u == a * pow2(b) && a <= 0x100_0000;
    if t > 0 {
        lemma_pow2_adds(23, t);
        assert(q >= 0x80_0000) by (nonlinear_arith)
            requires
                n >= (0x80_0000 * gap) * d,
                n < step * q + step,
                step == d * gap,
                step > 0,
        ;
    }
    lemma_no_multiple_between(q, t, a, b);
    assert((q + 1) * gap == q * gap + gap) by (nonlinear_arith);
    assert((q * gap) * d == step * q) by (nonlinear_arith)
        requires
            step == d * gap,
    ;
    assert(((q + 1) * gap) * d == step * q + step) by (nonlinear_arith)
        requires
            step == d * gap,
    ;
    if u <= q * gap {
        assert(u * d <= (q * gap) * d) by (nonlinear_arith)
            requires
                u <= q * gap,
        ;
    } else {
        assert(u * d >= ((q + 1) * gap) * d) by (nonlinear_arith)
            requires
                u >= (q + 1) * gap,
        ;
    }
}

/// Between neighbouring multiples of a gap with full significands there is
/// nothing representable.
proof fn lemma_no_multiple_between(q: nat, t: nat, a: nat, b: nat)
    requires
        t == 0 || q >= 0x80_0000,
        a <= 0x100_0000,
    ensures
        a * pow2(b) <= q * pow2(t) || a * pow2(b) >= (q + 1) * pow2(t),
{
    let gap = pow2(t);
    lemma_pow2_pos(t);
    lemma_pow2_pos(b);
    if b >= t {
        let k = (b - t) as nat;
        lemma_pow2_adds(k, t);
        let m = a * pow2(k);
        assert(a * pow2(b) == m * gap) by (nonlinear_arith)
            requires
                pow2(b) == pow2(k) * gap,
                m == a * pow2(k),
        ;
        if m <= q {
            assert(m * gap <= q * gap) by (nonlinear_arith)
                requires
                    m <= q,
            ;
        } else {
            assert(m * gap >= (q + 1) * gap) by (nonlinear_arith)
                requires
                    m >= q + 1,
            ;
        }
    } else {
        lemma_pow2_unfold(t);
        if b + 1 < t {
            lemma_pow2_strictly_increases(b, (t - 1) as nat);
        }
        assert(a * pow2(b) <= q * gap) by (nonlinear_arith)
            requires
                a <= 0x100_0000,
                q >= 0x80_0000,
                gap >= 2 * pow2(b),
        ;
    }
}

/// No representable magnitude is nearer to a square root, in units, than the
/// one it rounds to. The midpoint of two magnitudes is compared by its square.
pub proof fn root_is_nearest(units: nat, u: nat)
    requires
        units > 0,
        representable(u),
    ensures
        ({
            let square = units * pow2(149);
            let whole = floor_root(square);
            let r = if whole * whole == square {
                round(2 * whole, 2)
            } else {
                round(2 * whole + 1, 2)
            };
            &&& u < r ==> (u + r) * (u + r) <= 4 * square
            &&& u > r ==> (u + r) * (u + r) >= 4 * square
        }),
{
    let square = units * pow2(149);
    let whole = floor_root(square);
    let n: nat = if whole * whole == square { 2 * whole } else { 2 * whole + 1 };
    let r = round(n, 2);
    lemma_floor_root(square);
    lemma_large_root(units);
    round_is_nearest(n, 2, u);
    lemma_round_gaps(n, 2);
    lemma_spacing_bounds(n, 2);
    lemma_pow2_24();
    let t = spacing(n, 2);
    let gap = pow2(t);
    assert(t > 0);
    lemma_pow2_unfold(t);
    lemma_pow2_adds(23, t);
    let q = nearest_even(n, 2 * gap);
    let k = pow2((t - 1) as nat);
    assert(r == 2 * (q * k)) by (nonlinear_arith)
        requires
            r == q * gap,
            gap == 2 * k,
    ;
    // `r` is within a gap of the root, which is far above `2^24`.
    vstd::arithmetic::div_mod::lemma_fundamental_div_mod(n as int, 2 * gap as int);
    let f = n / (2 * gap);
    assert(2 * r <= n + 2 * gap && n <= 2 * r + 2 * gap) by (nonlinear_arith)
        requires
            r == q * gap,
            q == f || q == f + 1,
            2 * gap * f <= n < 2 * gap * f + 2 * gap,
    ;
    if u + r == 2 * whole + 1 {
        assert(u % 2 == 1);
        lemma_odd_is_small(u);
        assert(false);
    }
    let sum = u + r;
    if u < r {
        assert(sum <= 2 * whole);
        assert(sum * sum <= 4 * (whole * whole)) by (nonlinear_arith)
            requires
                sum <= 2 * whole,
        ;
    }
    if u > r {
        if whole * whole == square {
            assert(sum * sum >= 4 * (whole * whole)) by (nonlinear_arith)
                requires
                    sum >= 2 * whole,
            ;
        } else {
            assert(sum * sum >= 4 * ((whole + 1) * (whole + 1))) by (nonlinear_arith)
                requires
                    sum >= 2 * (whole + 1),
            ;
        }
    }
}

/// A representable magnitude that is odd has at most 24 bits.
proof fn lemma_odd_is_small(u: nat)
    requires
        representable(u),
        u % 2 == 1,
    ensures
        u <= 0x100_0000,
{
    let (a, b) = choose|a: nat, b: nat| #![trigger a * pow2(b)] u == a * pow2(b) && a <= 0x100_0000;
    if b == 0 {
        lemma_pow2_0();
    } else {
        lemma_pow2_unfold(b);
        let h = a * pow2((b - 1) as nat);
        assert(u == 2 * h) by (nonlinear_arith)
            requires
                u == a * pow2(b),
                pow2(b) == 2 * pow2((b - 1) as nat),
                h == a * pow2((b - 1) as nat),
        ;
    }
}

/// Square roots, in units, are large whole numbers.
proof fn lemma_large_root(units: nat)
    requires
        units > 0,
    ensures
        floor_root(units * pow2(149)) >= 0x1_0000_0000_0000,
{
    let square = units * pow2(149);
    let whole = floor_root(square);
    lemma_floor_root(square);
    lemma2_to64();
    lemma_pow2_adds(64, 64);
    lemma_pow2_strictly_increases(128, 149);
    assert(square >= pow2(149)) by (nonlinear_arith)
        requires
            units >= 1,
            square == units * pow2(149),
    ;
    if whole < 0x1_0000_0000_0000 {
        assert((whole + 1) * (whole + 1) <= 0x1_0000_0000_0000 * 0x1_0000_0000_0000)
            by (nonlinear_arith)
            requires
                whole + 1 <= 0x1_0000_0000_0000,
        ;
    }
}

} // verus!
