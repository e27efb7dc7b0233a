//! What holds of the measurements on a face mesh, stated on its points.

use vstd::arithmetic::power2::*;
use vstd::prelude::*;

use crate::face;
use crate::face::Landmark;
use crate::laws;
use crate::number::Number;
use crate::order;
use crate::rounding;
use crate::single;
use crate::value;
use crate::value::{grain, size, speck, wide};

verus! {

/// Whether a number is finite and of a size up to `2^100`.
pub open spec fn moderate(x: Number) -> bool {
    x is Finite && size(x.value()) <= pow2(100) as real
}

pub proof fn lemma_moderate()
    ensures
        0x1_0000_0000real <= 64real * pow2(100) as real <= wide(),
{
    lemma_pow2_strictly_increases(32, 100);
    lemma_pow2_adds(6, 100);
    lemma_pow2_strictly_increases(106, 126);
    lemma2_to64();
}

/// No number is nearer to the distance between the lids of the left eye, the
/// lower lid's place less the upper lid's, than the height that is measured.
pub proof fn left_eye_height_is_nearest(mesh: Seq<Landmark>, other: Number)
    requires
        mesh[145].y@ is Finite,
        mesh[159].y@ is Finite,
        other.is_single(),
        other !is Nan,
    ensures
        ({
            let apart = mesh[145].y@.place() - mesh[159].y@.place();
            let height = face::left_eye_height(mesh);
            &&& height !is Nan
            &&& vstd::math::abs(height.place() - apart) <= vstd::math::abs(other.place() - apart)
        }),
{
    let (a, b) = (mesh[145].y@, mesh[159].y@);
    single::lemma_single_valued(mesh[145].y);
    single::lemma_single_valued(mesh[159].y);
    sum_is_nearest(a, b.negated(), other);
}

/// No number is nearer to the exact sum of two numbers than their sum.
pub proof fn sum_is_nearest(a: Number, b: Number, other: Number)
    requires
        a is Finite,
        b is Finite,
        other.is_single(),
        other !is Nan,
    ensures
        a.plus(b) !is Nan,
        ({
            let exact = a.place() + b.place();
            vstd::math::abs(a.plus(b).place() - exact) <= vstd::math::abs(other.place() - exact)
        }),
{
    let v = a.place() + b.place();
    let n = vstd::math::abs(v);
    order::lemma_plus_place(a, b);
    order::lemma_place_bounds(other);
    let u = vstd::math::abs(other.place());
    if other is Infinite {
        assert(1 * pow2(277) == pow2(277));
        assert(rounding::representable(pow2(277)));
    }
    rounding::round_is_nearest(n, 1, u);
    order::lemma_zero_single();
    rounding::round_is_nearest(n, 1, 0);
}

/// The height of the left eye is zero exactly where its lids stand at the same
/// place, and positive exactly where the lower lid stands below the upper one.
pub proof fn left_eye_height_has_sign(mesh: Seq<Landmark>)
    requires
        mesh[145].y@ is Finite,
        mesh[159].y@ is Finite,
    ensures
        ({
            let height = face::left_eye_height(mesh);
            &&& height.place() == 0 <==> mesh[145].y@.place() == mesh[159].y@.place()
            &&& height.place() > 0 <==> mesh[145].y@.place() > mesh[159].y@.place()
        }),
{
    let apart = mesh[145].y@.place() - mesh[159].y@.place();
    order::lemma_zero_single();
    rounding::lemma_pow2_0();
    lemma_pow2_strictly_increases(0, 277);
    assert(1 * pow2(0) == 1);
    assert(rounding::representable(1));
    left_eye_height_is_nearest(mesh, Number::zero());
    left_eye_height_is_nearest(mesh, Number::Finite { negative: false, units: 1 });
    left_eye_height_is_nearest(mesh, Number::Finite { negative: true, units: 1 });
}

/// The height of the left eye depends on the two points of its lids alone, and
/// on how far down they stand.
pub proof fn left_eye_height_by_lids(first: Seq<Landmark>, second: Seq<Landmark>)
    requires
        first[145].y@ == second[145].y@,
        first[159].y@ == second[159].y@,
    ensures
        face::left_eye_height(first) == face::left_eye_height(second),
{
}

/// The mean of four numbers of at most a given size errs by four grains of
/// that size and a speck.
pub proof fn mean_of_four_is_near(a: Number, b: Number, c: Number, d: Number, most: real)
    requires
        a is Finite && size(a.value()) <= most,
        b is Finite && size(b.value()) <= most,
        c is Finite && size(c.value()) <= most,
        d is Finite && size(d.value()) <= most,
        most <= pow2(100) as real,
    ensures
        ({
            let mean = face::mean_of_four(a, b, c, d);
            let exact = (a.value() + b.value() + c.value() + d.value()) / 4real;
            mean is Finite && size(mean.value() - exact) <= 4real * grain() * most + speck()
        }),
{
    lemma_moderate();
    value::lemma_wide();
    let m = most;
    let (av, bv, cv, dv) = (a.value(), b.value(), c.value(), d.value());
    let s1 = a.plus(b);
    let s2 = s1.plus(c);
    let s3 = s2.plus(d);
    value::plus_within(a, b, 2real * m);
    value::plus_within(s1, c, 4real * m);
    value::plus_within(s2, d, 5real * m);
    let q = s3.value() / 4real;
    assert(s3.value() == q * 4real) by (nonlinear_arith)
        requires
            q == s3.value() / 4real,
    ;
    lemma_mean_error(av, bv, cv, dv, s1.value(), s2.value(), s3.value(), q, m);
    value::lemma_whole_value(4);
    value::over_within(s3, Number::whole(4), q, 2real * m);
    lemma_mean_close(s3, q, m, (av + bv + cv + dv) / 4real);
}

proof fn lemma_mean_close(s: Number, q: real, m: real, exact: real)
    requires
        s is Finite,
        s.value() == q * 4real,
        2real * m <= wide(),
        16real * q <= 17real * m && -17real * m <= 16real * q,
        -11real * m <= 4real * 0x100_0000real * (q - exact) <= 11real * m,
    ensures
        s.over(Number::whole(4)) is Finite,
        size(s.over(Number::whole(4)).value() - exact) <= 4real * grain() * m + speck(),
{
    value::lemma_wide();
    value::lemma_whole_value(4);
    let r = s.over(Number::whole(4));
    let most = 17real / 16real * m;
    assert(16real * most == 17real * m) by (nonlinear_arith)
        requires
            most == 17real / 16real * m,
    ;
    value::over_within(s, Number::whole(4), q, most);
    let x = r.value() - exact;
    let bound = 4real * grain() * m + speck();
    assert(-bound <= x <= bound) by (nonlinear_arith)
        requires
            bound == 4real * grain() * m + speck(),
            grain() == 1real / 0x100_0000real,
            x == r.value() - exact,
            16real * most == 17real * m,
            m >= 0real,
            -most <= 0x100_0000real * (r.value() - q + speck()),
            0x100_0000real * (r.value() - q - speck()) <= most,
            -11real * m <= 4real * 0x100_0000real * (q - exact) <= 11real * m,
    ;
    value::lemma_size(x, bound);
}

proof fn lemma_mean_error(
    a: real,
    b: real,
    c: real,
    d: real,
    s1: real,
    s2: real,
    s3: real,
    q: real,
    m: real,
)
    by (nonlinear_arith)
    requires
        -m <= a <= m && -m <= b <= m && -m <= c <= m && -m <= d <= m,
        -(2real * m) <= 0x100_0000real * (s1 - (a + b)) <= 2real * m,
        -(4real * m) <= 0x100_0000real * (s2 - (s1 + c)) <= 4real * m,
        -(5real * m) <= 0x100_0000real * (s3 - (s2 + d)) <= 5real * m,
        s3 == q * 4real,
    ensures
        16real * q <= 17real * m && -17real * m <= 16real * q,
        -11real * m <= 4real * 0x100_0000real * (q - (a + b + c + d) / 4real) <= 11real * m,
{
}

/// An iris stands at the mean of its four points, across and down: an error
/// of four grains of the largest coordinate and a speck at most.
pub proof fn iris_is_mean_of_points(mesh: Seq<Landmark>, iris: Seq<usize>, most: real)
    requires
        forall|k: int|
            0 <= k < 4 ==> {
                let p = mesh[(#[trigger] iris[k]) as int];
                &&& p.x@ is Finite && size(p.x@.value()) <= most
                &&& p.y@ is Finite && size(p.y@.value()) <= most
            },
        most <= pow2(100) as real,
    ensures
        ({
            let (a, b, c, d) = (
                mesh[iris[0] as int],
                mesh[iris[1] as int],
                mesh[iris[2] as int],
                mesh[iris[3] as int],
            );
            let (x, y) = (face::iris_x(mesh, iris), face::iris_y(mesh, iris));
            let mean_x = (a.x@.value() + b.x@.value() + c.x@.value() + d.x@.value()) / 4real;
            let mean_y = (a.y@.value() + b.y@.value() + c.y@.value() + d.y@.value()) / 4real;
            &&& x is Finite && size(x.value() - mean_x) <= 4real * grain() * most + speck()
            &&& y is Finite && size(y.value() - mean_y) <= 4real * grain() * most + speck()
        }),
{
    let (i, j, k, l) = (iris[0], iris[1], iris[2], iris[3]);
    let (a, b, c, d) = (mesh[i as int], mesh[j as int], mesh[k as int], mesh[l as int]);
    mean_of_four_is_near(a.x@, b.x@, c.x@, d.x@, most);
    mean_of_four_is_near(a.y@, b.y@, c.y@, d.y@, most);
}

/// The size of a difference, once rounded.
proof fn lemma_distance(a: Number, b: Number)
    requires
        a is Finite,
        b is Finite,
        size(a.value() - b.value()) <= wide(),
    ensures
        a.minus(b) is Finite,
        a.minus(b).magnitude() is Finite,
        ({
            let apart = size(a.value() - b.value());
            size(a.minus(b).magnitude().value() - apart) <= size(apart) * grain()
        }),
        face::measurable(a.minus(b).magnitude()) <==> a.value() != b.value(),
{
    value::lemma_wide();
    value::difference_is_near(a, b);
    value::lemma_magnitude(a.minus(b));
    let r = a.minus(b).magnitude();
    value::lemma_value_order(r, Number::zero());
    value::lemma_value_order(Number::zero(), r);
    value::lemma_value_order(a, b);
    let (x, y) = (a.value() - b.value(), a.minus(b).value());
    value::lemma_grain(size(y - x), size(x));
    value::lemma_grain(size(size(y) - size(x)), size(size(x)));
    value::lemma_grain(size(x), size(x));
}

/// The ratio across of an eye is the distance of its iris from its left corner,
/// divided by the distance of its corners: an error of four grains of that and
/// a speck at most.
pub proof fn eye_ratio_x_is_near(mesh: Seq<Landmark>, left: usize, right: usize, iris: Seq<usize>)
    requires
        moderate(mesh[left as int].x@),
        moderate(mesh[right as int].x@),
        moderate(face::iris_x(mesh, iris)),
        mesh[left as int].x@.value() != mesh[right as int].x@.value(),
        ({
            let corner = mesh[left as int].x@.value();
            let from = size(face::iris_x(mesh, iris).value() - corner);
            from / size(mesh[right as int].x@.value() - corner) <= wide()
        }),
    ensures
        ({
            let corner = mesh[left as int].x@.value();
            let from = size(face::iris_x(mesh, iris).value() - corner);
            let exact = from / size(mesh[right as int].x@.value() - corner);
            let ratio = face::eye_ratio_x(mesh, left, right, iris);
            ratio is Finite && size(ratio.value() - exact) <= 4real * grain() * exact + speck()
        }),
{
    let (l, r, i) = (mesh[left as int].x@, mesh[right as int].x@, face::iris_x(mesh, iris));
    let (from, width) = (size(i.value() - l.value()), size(r.value() - l.value()));
    lemma_moderate();
    lemma_distance(i, l);
    lemma_distance(r, l);
    lemma_quotient_sign(from, width);
    value::quotient_of_differences_is_near(
        i.minus(l).magnitude(),
        r.minus(l).magnitude(),
        from,
        width,
    );
}

proof fn lemma_quotient_sign(a: real, b: real)
    requires
        a >= 0real,
        b > 0real,
    ensures
        a / b >= 0real,
{
    assert(a / b >= 0real) by (nonlinear_arith)
        requires
            a >= 0real,
            b > 0real,
    ;
}

/// The midpoint of two numbers errs by three grains of itself and a speck.
pub proof fn midpoint_is_near(a: Number, b: Number)
    requires
        a is Finite && size(a.value()) <= wide(),
        b is Finite && size(b.value()) <= wide(),
    ensures
        ({
            let exact = (a.value() + b.value()) / 2real;
            let mid = face::midpoint(a, b);
            mid is Finite && size(mid.value() - exact) <= 3real * grain() * size(exact) + speck()
        }),
{
    value::lemma_wide();
    let s = a.plus(b);
    let x = a.value() + b.value();
    let exact = x / 2real;
    let m = size(exact);
    assert(x == 2real * exact) by (nonlinear_arith)
        requires
            exact == x / 2real,
    ;
    value::plus_within(a, b, 2real * m);
    let q = s.value() / 2real;
    assert(s.value() == q * 2real) by (nonlinear_arith)
        requires
            q == s.value() / 2real,
    ;
    value::lemma_whole_value(2);
    let most = 3real / 2real * m;
    assert(2real * most == 3real * m) by (nonlinear_arith)
        requires
            most == 3real / 2real * m,
    ;
    value::over_within(s, Number::whole(2), q, most);
    let mid = face::midpoint(a, b).value();
    let bound = 3real * grain() * m + speck();
    assert(-bound <= mid - exact <= bound) by (nonlinear_arith)
        requires
            bound == 3real * grain() * m + speck(),
            grain() == 1real / 0x100_0000real,
            2real * most == 3real * m,
            m >= 0real,
            x == 2real * exact,
            s.value() == q * 2real,
            -(2real * m) <= 0x100_0000real * (s.value() - x) <= 2real * m,
            -most <= 0x100_0000real * (mid - q + speck()),
            0x100_0000real * (mid - q - speck()) <= most,
    ;
    value::lemma_size(mid - exact, bound);
}

/// Twice a number, halved, is the number.
pub proof fn lemma_doubled_and_halved(a: Number)
    requires
        a.is_single(),
        a is Finite,
        size(a.value()) <= wide(),
    ensures
        a.plus(a) is Finite,
        face::midpoint(a, a) is Finite,
        face::midpoint(a, a).place() == a.place(),
{
    value::lemma_wide();
    value::plus_within(a, a, value::vast());
    order::lemma_plus_place(a, a);
    order::lemma_whole(2);
    let u = vstd::math::abs(a.place());
    assert(rounding::representable(2 * u)) by {
        let (q, t) = choose|q: nat, t: nat|
            #![trigger q * pow2(t)]
            a->Finite_units == q * pow2(t) && q <= 0x100_0000;
        lemma_pow2_unfold(t + 1);
        assert(2 * (q * pow2(t)) == q * pow2(t + 1)) by (nonlinear_arith)
            requires
                pow2(t + 1) == 2 * pow2(t),
        ;
    }
    rounding::lemma_round_exact(2 * u);
    order::lemma_plus_single(a, a);
    order::lemma_place_bounds(a.plus(a));
    lemma_pow2_pos(149);
    assert(a.plus(a).place() == 2 * a.place());
    order::lemma_over_place(a.plus(a), Number::whole(2));
    let one = pow2(149);
    assert((2 * a.place()) * one * 1 == a.place() * (2 * one)) by (nonlinear_arith);
    order::lemma_rounded_place_same((2 * a.place()) * one, 2 * one, a.place(), 1);
    order::lemma_rounded_place_exact(a);
    order::lemma_place_bounds(a);
}

/// Midpoints keep order.
proof fn lemma_midpoint_mono(a: Number, b: Number, c: Number, d: Number)
    requires
        a.is_single() && b.is_single() && c.is_single() && d.is_single(),
        a.at_most(c),
        b.at_most(d),
        a.plus(b) !is Nan,
        c.plus(b) !is Nan,
        c.plus(d) !is Nan,
    ensures
        face::midpoint(a, b).at_most(face::midpoint(c, d)),
{
    order::lemma_plus_mono(a, c, b);
    order::lemma_plus_commutes(c, b);
    order::lemma_plus_commutes(c, d);
    order::lemma_plus_mono(b, d, c);
    order::lemma_plus_single(a, b);
    order::lemma_plus_single(c, d);
    order::lemma_whole(2);
    lemma_pow2_pos(149);
    let (s, t, two) = (a.plus(b), c.plus(d), Number::whole(2));
    assert(s.over(two) !is Nan && t.over(two) !is Nan) by {
        if s is Finite {
            order::lemma_over_place(s, two);
        }
        if t is Finite {
            order::lemma_over_place(t, two);
        }
        reveal(Number::over);
    }
    order::lemma_over_mono(s, t, two);
}

/// A midpoint lies between the two: it is no less than the lesser and no more
/// than the greater.
pub proof fn midpoint_lies_between(a: Number, b: Number)
    requires
        a.is_single(),
        b.is_single(),
        a is Finite && size(a.value()) <= wide(),
        b is Finite && size(b.value()) <= wide(),
    ensures
        face::midpoint(a, b) == face::midpoint(b, a),
        a.at_most(b) ==> a.at_most(face::midpoint(a, b)) && face::midpoint(a, b).at_most(b),
        b.at_most(a) ==> b.at_most(face::midpoint(a, b)) && face::midpoint(a, b).at_most(a),
{
    order::lemma_plus_commutes(a, b);
    lemma_doubled_and_halved(a);
    lemma_doubled_and_halved(b);
    order::lemma_plus_place(a, b);
    if a.at_most(b) {
        lemma_midpoint_mono(a, a, a, b);
        lemma_midpoint_mono(a, b, b, b);
    }
    if b.at_most(a) {
        lemma_midpoint_mono(b, b, b, a);
        lemma_midpoint_mono(b, a, a, a);
    }
}

/// The gaze, across and down, lies between the ratios of the two eyes, half
/// way from one to the other but for three grains and a speck.
pub proof fn gaze_lies_between_eyes(mesh: Seq<Landmark>)
    ensures
        ({
            let right = face::eye_ratio_x(mesh, 362, 263, seq![474, 475, 476, 477]);
            let left = face::eye_ratio_x(mesh, 33, 133, seq![469, 470, 471, 472]);
            lies_half_way(face::gaze_x(mesh), left, right)
        }),
        ({
            let right = face::eye_ratio_y(mesh, 362, 263, seq![474, 475, 476, 477]);
            let left = face::eye_ratio_y(mesh, 33, 133, seq![469, 470, 471, 472]);
            lies_half_way(face::gaze_y(mesh), left, right)
        }),
{
    lemma_irises();
    let right = face::eye_ratio_x(mesh, 362, 263, face::RIGHT_IRIS@);
    let left = face::eye_ratio_x(mesh, 33, 133, face::LEFT_IRIS@);
    laws::lemma_eye_single(mesh, 362, 263, face::RIGHT_IRIS@);
    laws::lemma_eye_single(mesh, 33, 133, face::LEFT_IRIS@);
    if right is Finite && left is Finite && size(left.value()) <= wide() && size(right.value())
        <= wide() {
        midpoint_is_near(right, left);
        midpoint_lies_between(right, left);
    }
    let right = face::eye_ratio_y(mesh, 362, 263, face::RIGHT_IRIS@);
    let left = face::eye_ratio_y(mesh, 33, 133, face::LEFT_IRIS@);
    if right is Finite && left is Finite && size(left.value()) <= wide() && size(right.value())
        <= wide() {
        midpoint_is_near(right, left);
        midpoint_lies_between(right, left);
    }
}

/// Whether a number lies half way between two others, unless one of these is
/// not finite or too large to add them.
pub open spec fn lies_half_way(mid: Number, a: Number, b: Number) -> bool {
    a is Finite && b is Finite && size(a.value()) <= wide() && size(b.value()) <= wide() ==> {
        let exact = (a.value() + b.value()) / 2real;
        &&& mid is Finite
        &&& a.at_most(b) ==> a.at_most(mid) && mid.at_most(b)
        &&& b.at_most(a) ==> b.at_most(mid) && mid.at_most(a)
        &&& size(mid.value() - exact) <= 3real * grain() * size(exact) + speck()
    }
}

proof fn lemma_irises()
    ensures
        face::RIGHT_IRIS@ == seq![474usize, 475, 476, 477],
        face::LEFT_IRIS@ == seq![469usize, 470, 471, 472],
{
    assert(face::RIGHT_IRIS@ =~= seq![474usize, 475, 476, 477]);
    assert(face::LEFT_IRIS@ =~= seq![469usize, 470, 471, 472]);
}

/// The ratio down of an eye is how far its iris stands below the middle of its
/// corners, divided by the distance of the corners across. The error is
/// relative to the coordinates, as the two heights may cancel out.
pub proof fn eye_ratio_y_is_near(
    mesh: Seq<Landmark>,
    left: usize,
    right: usize,
    iris: Seq<usize>,
    most: real,
)
    requires
        moderate(mesh[left as int].x@),
        moderate(mesh[right as int].x@),
        mesh[left as int].x@.value() != mesh[right as int].x@.value(),
        mesh[left as int].y@ is Finite && size(mesh[left as int].y@.value()) <= most,
        mesh[right as int].y@ is Finite && size(mesh[right as int].y@.value()) <= most,
        face::iris_y(mesh, iris) is Finite && size(face::iris_y(mesh, iris).value()) <= most,
        0x1_0000real * speck() <= most <= pow2(100) as real,
        3real * most / size(mesh[right as int].x@.value() - mesh[left as int].x@.value()) <= wide(),
    ensures
        ({
            let (a, b) = (mesh[left as int].y@.value(), mesh[right as int].y@.value());
            let width = size(mesh[right as int].x@.value() - mesh[left as int].x@.value());
            let exact = (face::iris_y(mesh, iris).value() - (a + b) / 2real) / width;
            let ratio = face::eye_ratio_y(mesh, left, right, iris);
            &&& ratio is Finite
            &&& size(ratio.value() - exact) <= (20real * grain() * most + 2real * speck()) / width
                + speck()
        }),
{
    let (l, r, i) = (mesh[left as int], mesh[right as int], face::iris_y(mesh, iris));
    let (a, b) = (l.y@, r.y@);
    let width = size(r.x@.value() - l.x@.value());
    let m = most;
    let g = grain();
    lemma_moderate();
    value::lemma_wide();
    lemma_distance(r.x@, l.x@);
    midpoint_is_near(a, b);
    let mid = face::midpoint(a, b);
    let half = (a.value() + b.value()) / 2real;
    assert(-m <= half <= m) by (nonlinear_arith)
        requires
            half == (a.value() + b.value()) / 2real,
            -m <= a.value() <= m,
            -m <= b.value() <= m,
    ;
    let slack = 3real * g * m + speck();
    assert(3real * g * size(half) + speck() <= slack && slack <= m) by (nonlinear_arith)
        requires
            0real <= size(half) <= m,
            slack == 3real * g * m + speck(),
            0x1_0000real * speck() <= m,
            g == 1real / 0x100_0000real,
    ;
    let n = i.minus(mid);
    value::minus_within(i, mid, 3real * m);
    let (nv, exact_n) = (n.value(), i.value() - half);
    assert(-(4real * m) <= nv <= 4real * m && -(6real * g * m + speck()) <= nv - exact_n <= 6real
        * g * m + speck()) by (nonlinear_arith)
        requires
            -m <= i.value() <= m,
            -m <= half <= m,
            -(3real * m) <= 0x100_0000real * (nv - (i.value() - mid.value())) <= 3real * m,
            -slack <= mid.value() - half <= slack,
            slack <= m,
            slack == 3real * g * m + speck(),
            exact_n == i.value() - half,
            g == 1real / 0x100_0000real,
    ;
    assert(-(3real * m) <= nv <= 3real * m) by (nonlinear_arith)
        requires
            -m <= i.value() <= m,
            -m <= half <= m,
            -(6real * g * m + speck()) <= nv - (i.value() - half) <= 6real * g * m + speck(),
            0x1_0000real * speck() <= m,
            g == 1real / 0x100_0000real,
    ;
    let q = nv / width;
    value::lemma_size_product(q, width);
    assert(q * width == nv && size(q) * width <= 3real * m && size(q) <= 3real * m / width)
        by (nonlinear_arith)
        requires
            width > 0real,
            q == nv / width,
            size(q * width) == size(q) * size(width),
            size(width) == width,
            size(nv) <= 3real * m,
            q * width == nv ==> size(q * width) == size(nv),
    ;
    assert(size(nv - nv) <= size(nv) * grain()) by {
        value::lemma_grain(size(nv - nv), size(nv));
    }
    value::quotient_of_differences_is_near(n, r.x@.minus(l.x@).magnitude(), nv, width);
    let ratio = face::eye_ratio_y(mesh, left, right, iris).value();
    let exact = exact_n / width;
    let (x, y) = (ratio - q, q - exact);
    assert(y * width == nv - exact_n) by (nonlinear_arith)
        requires
            width > 0real,
            y == q - exact,
            q * width == nv,
            exact == exact_n / width,
    ;
    let bound = (20real * g * m + 2real * speck()) / width + speck();
    assert(-bound <= x + y <= bound) by (nonlinear_arith)
        requires
            width > 0real,
            m >= 0real,
            speck() > 0real,
            bound == (20real * g * m + 2real * speck()) / width + speck(),
            g == 1real / 0x100_0000real,
            -(4real * g * size(q) + speck()) <= x <= 4real * g * size(q) + speck(),
            size(q) * width <= 3real * m,
            -(6real * g * m + speck()) <= y * width <= 6real * g * m + speck(),
    ;
    value::lemma_size(ratio - exact, bound);
}

/// How the head is turned across is how far the nose stands right of the left
/// cheek, and how it is turned down is how far the nose stands below the
/// forehead, each divided by the distance of the cheeks: an error of four
/// grains of that and a speck at most.
pub proof fn head_pose_is_near(mesh: Seq<Landmark>)
    requires
        moderate(mesh[1].x@) && moderate(mesh[1].y@),
        moderate(mesh[234].x@),
        moderate(mesh[454].x@),
        moderate(mesh[10].y@),
        mesh[234].x@.value() != mesh[454].x@.value(),
    ensures
        ({
            let width = size(mesh[454].x@.value() - mesh[234].x@.value());
            let exact = (mesh[1].x@.value() - mesh[234].x@.value()) / width;
            let yaw = face::head_yaw(mesh);
            size(exact) <= wide() ==> yaw is Finite && size(yaw.value() - exact) <= 4real * grain()
                * size(exact) + speck()
        }),
        ({
            let width = size(mesh[454].x@.value() - mesh[234].x@.value());
            let exact = (mesh[1].y@.value() - mesh[10].y@.value()) / width;
            let pitch = face::head_pitch(mesh);
            size(exact) <= wide() ==> pitch is Finite && size(pitch.value() - exact) <= 4real
                * grain() * size(exact) + speck()
        }),
{
    let (nose, left, right, top) = (mesh[1], mesh[234], mesh[454], mesh[10]);
    let width = size(right.x@.value() - left.x@.value());
    lemma_moderate();
    value::lemma_wide();
    lemma_distance(right.x@, left.x@);
    let w = right.x@.minus(left.x@).magnitude();
    let (across, down) = (nose.x@.value() - left.x@.value(), nose.y@.value() - top.y@.value());
    value::difference_is_near(nose.x@, left.x@);
    value::difference_is_near(nose.y@, top.y@);
    if size(across / width) <= wide() {
        value::quotient_of_differences_is_near(nose.x@.minus(left.x@), w, across, width);
    }
    if size(down / width) <= wide() {
        value::quotient_of_differences_is_near(nose.y@.minus(top.y@), w, down, width);
    }
}

/// A face whose cheeks do not stand at different places across counts as
/// turned by one half both ways.
pub proof fn head_pose_without_width(mesh: Seq<Landmark>)
    requires
        !differ(mesh[234].x@, mesh[454].x@),
    ensures
        face::head_yaw(mesh) == Number::ratio(1, 2),
        face::head_pitch(mesh) == Number::ratio(1, 2),
{
    lemma_measurable(mesh[454].x, mesh[234].x);
}

/// How the head is turned depends on nose, cheeks and forehead alone: across,
/// on where nose and cheeks stand across; down, on where nose and forehead
/// stand down, and on the width of the face.
pub proof fn head_pose_by_points(first: Seq<Landmark>, second: Seq<Landmark>)
    requires
        first[234].x@ == second[234].x@,
        first[454].x@ == second[454].x@,
    ensures
        first[1].x@ == second[1].x@ ==> face::head_yaw(first) == face::head_yaw(second),
        first[1].y@ == second[1].y@ && first[10].y@ == second[10].y@ ==> face::head_pitch(first)
            == face::head_pitch(second),
{
}

/// Whether two meshes have some points at the same place across.
pub open spec fn same_across(first: Seq<Landmark>, second: Seq<Landmark>, points: Seq<usize>) -> bool {
    forall|k: int|
        0 <= k < points.len() ==> first[(#[trigger] points[k]) as int].x@
            == second[points[k] as int].x@
}

/// Whether two meshes have some points at the same place down.
pub open spec fn same_down(first: Seq<Landmark>, second: Seq<Landmark>, points: Seq<usize>) -> bool {
    forall|k: int|
        0 <= k < points.len() ==> first[(#[trigger] points[k]) as int].y@
            == second[points[k] as int].y@
}

/// The ratios of an eye depend on its corners and its iris alone.
pub proof fn eye_ratio_by_points(
    first: Seq<Landmark>,
    second: Seq<Landmark>,
    left: usize,
    right: usize,
    iris: Seq<usize>,
)
    requires
        iris.len() >= 4,
        same_across(first, second, seq![left, right]),
    ensures
        same_across(first, second, iris) ==> face::eye_ratio_x(first, left, right, iris)
            == face::eye_ratio_x(second, left, right, iris),
        same_down(first, second, seq![left, right]) && same_down(first, second, iris)
            ==> face::eye_ratio_y(first, left, right, iris) == face::eye_ratio_y(
            second,
            left,
            right,
            iris,
        ),
{
    let ends = seq![left, right];
    assert(ends[0] == left && ends[1] == right);
    assert(first[ends[0] as int].x@ == second[ends[0] as int].x@);
    assert(first[ends[1] as int].x@ == second[ends[1] as int].x@);
    let (i, j, k, l) = (iris[0], iris[1], iris[2], iris[3]);
    if same_down(first, second, ends) {
        assert(first[ends[0] as int].y@ == second[ends[0] as int].y@);
        assert(first[ends[1] as int].y@ == second[ends[1] as int].y@);
    }
}

/// The gaze across, and whether there is one, depends on where the corners and
/// the irises of the eyes stand across, and on nothing else.
pub proof fn gaze_across_by_points(first: Seq<Landmark>, second: Seq<Landmark>)
    requires
        same_across(first, second, seq![33, 133, 362, 263]),
    ensures
        face::eyes_measurable(first) == face::eyes_measurable(second),
        same_across(first, second, seq![469, 470, 471, 472]) && same_across(
            first,
            second,
            seq![474, 475, 476, 477],
        ) ==> face::gaze_x(first) == face::gaze_x(second),
{
    lemma_irises();
    lemma_ends(first, second);
    if same_across(first, second, seq![469, 470, 471, 472]) && same_across(
        first,
        second,
        seq![474, 475, 476, 477],
    ) {
        eye_ratio_by_points(first, second, 33, 133, face::LEFT_IRIS@);
        eye_ratio_by_points(first, second, 362, 263, face::RIGHT_IRIS@);
    }
}

proof fn lemma_ends(first: Seq<Landmark>, second: Seq<Landmark>)
    requires
        same_across(first, second, seq![33, 133, 362, 263]),
    ensures
        same_across(first, second, seq![33, 133]),
        same_across(first, second, seq![362, 263]),
        first[33].x@ == second[33].x@ && first[133].x@ == second[133].x@,
        first[362].x@ == second[362].x@ && first[263].x@ == second[263].x@,
{
    let ends = seq![33usize, 133, 362, 263];
    assert(first[ends[0] as int].x@ == second[ends[0] as int].x@);
    assert(first[ends[1] as int].x@ == second[ends[1] as int].x@);
    assert(first[ends[2] as int].x@ == second[ends[2] as int].x@);
    assert(first[ends[3] as int].x@ == second[ends[3] as int].x@);
}

/// The gaze down depends on where the irises and the corners of the eyes
/// stand down, and on the widths of the eyes.
pub proof fn gaze_down_by_points(first: Seq<Landmark>, second: Seq<Landmark>)
    requires
        same_across(first, second, seq![33, 133, 362, 263]),
        same_down(first, second, seq![33, 133, 362, 263]),
        same_down(first, second, seq![469, 470, 471, 472]),
        same_down(first, second, seq![474, 475, 476, 477]),
    ensures
        face::gaze_y(first) == face::gaze_y(second),
{
    lemma_irises();
    lemma_ends(first, second);
    let ends = seq![33usize, 133, 362, 263];
    assert(first[ends[0] as int].y@ == second[ends[0] as int].y@);
    assert(first[ends[1] as int].y@ == second[ends[1] as int].y@);
    assert(first[ends[2] as int].y@ == second[ends[2] as int].y@);
    assert(first[ends[3] as int].y@ == second[ends[3] as int].y@);
    eye_ratio_by_points(first, second, 33, 133, face::LEFT_IRIS@);
    eye_ratio_by_points(first, second, 362, 263, face::RIGHT_IRIS@);
}

/// Whether two numbers are numbers at all and stand at different places.
pub open spec fn differ(a: Number, b: Number) -> bool {
    a !is Nan && b !is Nan && a.place() != b.place()
}

proof fn lemma_measurable(a: single::Single, b: single::Single)
    ensures
        face::measurable(a@.minus(b@).magnitude()) <==> differ(a@, b@),
{
    single::lemma_single_valued(a);
    single::lemma_single_valued(b);
    order::lemma_place_bounds(a@);
    order::lemma_place_bounds(b@);
    if a@ is Finite && b@ is Finite {
        let mesh = seq![Landmark { x: b, y: b }, Landmark { x: a, y: a }];
        laws::measurable_where_corners_differ(mesh, 0, 1);
    } else {
        reveal(Number::plus);
    }
}

/// Eyes can be measured exactly where the corners of each stand at different
/// places across.
pub proof fn eyes_measurable_where_corners_differ(mesh: Seq<Landmark>)
    ensures
        face::eyes_measurable(mesh) <==> differ(mesh[33].x@, mesh[133].x@) && differ(
            mesh[362].x@,
            mesh[263].x@,
        ),
{
    lemma_measurable(mesh[133].x, mesh[33].x);
    lemma_measurable(mesh[263].x, mesh[362].x);
}

/// The height of the left eye is `Nan` exactly where a lid has no place, or
/// where both are infinitely far off to the same side.
pub proof fn left_eye_height_is_nan(mesh: Seq<Landmark>)
    ensures
        ({
            let (low, high) = (mesh[145].y@, mesh[159].y@);
            &&& face::left_eye_height(mesh) is Nan <==> {
                ||| low is Nan
                ||| high is Nan
                ||| low is Infinite && low == high
            }
            &&& low is Infinite && high is Finite ==> face::left_eye_height(mesh) == low
            &&& low is Finite && high is Infinite ==> face::left_eye_height(mesh)
                == high.negated()
        }),
{
    let (low, high) = (mesh[145].y@, mesh[159].y@);
    reveal(Number::plus);
    if low is Finite && high is Finite {
        order::lemma_plus_place(low, high.negated());
    }
}

/// Whether every point of an iris stands, in one mesh, no further left and no
/// higher than in another, all of moderate size.
pub open spec fn moved_on(first: Seq<Landmark>, second: Seq<Landmark>, iris: Seq<usize>) -> bool {
    forall|k: int|
        0 <= k < 4 ==> {
            let (p, q) = (first[(#[trigger] iris[k]) as int], second[iris[k] as int]);
            &&& moderate(p.x@) && moderate(p.y@) && moderate(q.x@) && moderate(q.y@)
            &&& p.x@.at_most(q.x@)
            &&& p.y@.at_most(q.y@)
        }
}

proof fn lemma_mean_mono(
    a: Number,
    b: Number,
    c: Number,
    d: Number,
    e: Number,
    f: Number,
    g: Number,
    h: Number,
)
    requires
        a.is_single() && b.is_single() && c.is_single() && d.is_single(),
        e.is_single() && f.is_single() && g.is_single() && h.is_single(),
        moderate(a) && moderate(b) && moderate(c) && moderate(d),
        moderate(e) && moderate(f) && moderate(g) && moderate(h),
        a.at_most(e),
        b.at_most(f),
        c.at_most(g),
        d.at_most(h),
    ensures
        face::mean_of_four(a, b, c, d).at_most(face::mean_of_four(e, f, g, h)),
        face::mean_of_four(a, b, c, d) is Finite,
        face::mean_of_four(e, f, g, h) is Finite,
        size(face::mean_of_four(a, b, c, d).value()) <= 2real * pow2(100) as real,
        size(face::mean_of_four(e, f, g, h).value()) <= 2real * pow2(100) as real,
{
    lemma_moderate();
    value::lemma_wide();
    lemma_added_mono(a, b, e, f, 2real * pow2(100) as real);
    lemma_added_mono(a.plus(b), c, e.plus(f), g, 4real * pow2(100) as real);
    lemma_added_mono(a.plus(b).plus(c), d, e.plus(f).plus(g), h, 5real * pow2(100) as real);
    let (s, t, four) = (a.plus(b).plus(c).plus(d), e.plus(f).plus(g).plus(h), Number::whole(4));
    order::lemma_whole(4);
    lemma_pow2_pos(149);
    order::lemma_over_place(s, four);
    order::lemma_over_place(t, four);
    order::lemma_over_mono(s, t, four);
    lemma_mean_size(a, b, c, d);
    lemma_mean_size(e, f, g, h);
}

proof fn lemma_mean_size(a: Number, b: Number, c: Number, d: Number)
    requires
        moderate(a) && moderate(b) && moderate(c) && moderate(d),
    ensures
        face::mean_of_four(a, b, c, d) is Finite,
        size(face::mean_of_four(a, b, c, d).value()) <= 2real * pow2(100) as real,
{
    let m = pow2(100) as real;
    lemma_moderate();
    value::lemma_wide();
    mean_of_four_is_near(a, b, c, d, m);
    let exact = (a.value() + b.value() + c.value() + d.value()) / 4real;
    let (av, bv, cv, dv) = (a.value(), b.value(), c.value(), d.value());
    assert(-m <= exact <= m) by (nonlinear_arith)
        requires
            exact == (av + bv + cv + dv) / 4real,
            -m <= av <= m,
            -m <= bv <= m,
            -m <= cv <= m,
            -m <= dv <= m,
    ;
    assert(4real * grain() * m + speck() <= m) by (nonlinear_arith)
        requires
            m >= 1real,
            speck() <= grain() * grain(),
            grain() == 1real / 0x100_0000real,
    ;
}

/// Finite sums keep order and size.
proof fn lemma_added_mono(a: Number, b: Number, c: Number, d: Number, most: real)
    requires
        a.is_single() && b.is_single() && c.is_single() && d.is_single(),
        a is Finite && b is Finite && c is Finite && d is Finite,
        a.at_most(c),
        b.at_most(d),
        -most <= a.value() + b.value() <= most,
        -most <= c.value() + d.value() <= most,
        most <= wide(),
    ensures
        a.plus(b).at_most(c.plus(d)),
        a.plus(b).is_single() && c.plus(d).is_single(),
        a.plus(b) is Finite && c.plus(d) is Finite,
        -most <= 0x100_0000real * (a.plus(b).value() - (a.value() + b.value())) <= most,
        -most <= 0x100_0000real * (c.plus(d).value() - (c.value() + d.value())) <= most,
{
    value::lemma_wide();
    value::plus_within(a, b, most);
    value::plus_within(c, d, most);
    order::lemma_plus_single(a, b);
    order::lemma_plus_single(c, d);
    order::lemma_plus_place(c, b);
    order::lemma_plus_mono(a, c, b);
    order::lemma_plus_commutes(c, b);
    order::lemma_plus_commutes(c, d);
    order::lemma_plus_mono(b, d, c);
}

/// An iris further right, right of the left corner, does not have a smaller
/// ratio across; one further down does not have a smaller ratio down.
pub proof fn eye_ratio_follows_iris(
    first: Seq<Landmark>,
    second: Seq<Landmark>,
    left: usize,
    right: usize,
    iris: Seq<usize>,
)
    requires
        moved_on(first, second, iris),
        same_across(first, second, seq![left, right]),
        same_down(first, second, seq![left, right]),
        moderate(first[left as int].x@) && moderate(first[right as int].x@),
        moderate(first[left as int].y@) && moderate(first[right as int].y@),
        first[left as int].x@.place() != first[right as int].x@.place(),
    ensures
        first[left as int].x@.at_most(face::iris_x(first, iris)) ==> face::eye_ratio_x(
            first,
            left,
            right,
            iris,
        ).at_most(face::eye_ratio_x(second, left, right, iris)) && face::eye_ratio_x(
            first,
            left,
            right,
            iris,
        ).place() >= 0,
        face::eye_ratio_y(first, left, right, iris).at_most(
            face::eye_ratio_y(second, left, right, iris),
        ),
{
    lemma_moderate();
    value::lemma_wide();
    let ends = seq![left, right];
    assert(ends[0] == left && ends[1] == right);
    assert(first[ends[0] as int].x@ == second[ends[0] as int].x@);
    assert(first[ends[1] as int].x@ == second[ends[1] as int].x@);
    assert(first[ends[0] as int].y@ == second[ends[0] as int].y@);
    assert(first[ends[1] as int].y@ == second[ends[1] as int].y@);
    let (i, j, k, l) = (iris[0] as int, iris[1] as int, iris[2] as int, iris[3] as int);
    lemma_points_single(first, i, j);
    lemma_points_single(first, k, l);
    lemma_points_single(second, i, j);
    lemma_points_single(second, k, l);
    lemma_points_single(first, left as int, right as int);
    lemma_mean_mono(
        first[i].x@,
        first[j].x@,
        first[k].x@,
        first[l].x@,
        second[i].x@,
        second[j].x@,
        second[k].x@,
        second[l].x@,
    );
    lemma_mean_mono(
        first[i].y@,
        first[j].y@,
        first[k].y@,
        first[l].y@,
        second[i].y@,
        second[j].y@,
        second[k].y@,
        second[l].y@,
    );
    laws::lemma_iris_single(first, iris);
    laws::lemma_iris_single(second, iris);
    let (a, b) = (first[left as int], first[right as int]);
    let w = b.x@.minus(a.x@).magnitude();
    value::lemma_value_order(a.x@, b.x@);
    lemma_distance(b.x@, a.x@);
    order::lemma_minus_single(b.x@, a.x@);
    if a.x@.at_most(face::iris_x(first, iris)) {
        lemma_shifted_quotient(face::iris_x(first, iris), face::iris_x(second, iris), a.x@, w);
    }
    let mid = face::midpoint(a.y@, b.y@);
    midpoint_is_near(a.y@, b.y@);
    midpoint_lies_between(a.y@, b.y@);
    laws::lemma_midpoint_single(a.y@, b.y@);
    value::lemma_value_order(a.y@, mid);
    value::lemma_value_order(mid, a.y@);
    value::lemma_value_order(b.y@, mid);
    value::lemma_value_order(mid, b.y@);
    lemma_shifted_quotient(face::iris_y(first, iris), face::iris_y(second, iris), mid, w);
}

proof fn lemma_points_single(mesh: Seq<Landmark>, i: int, j: int)
    ensures
        mesh[i].x@.is_single() && mesh[i].y@.is_single(),
        mesh[j].x@.is_single() && mesh[j].y@.is_single(),
{
    single::lemma_single_valued(mesh[i].x);
    single::lemma_single_valued(mesh[i].y);
    single::lemma_single_valued(mesh[j].x);
    single::lemma_single_valued(mesh[j].y);
}

/// Distances from one number, divided by a positive one, keep order.
proof fn lemma_shifted_quotient(a: Number, b: Number, c: Number, w: Number)
    requires
        a.is_single() && b.is_single() && c.is_single() && w.is_single(),
        a is Finite && b is Finite && c is Finite && w is Finite,
        size(a.value()) <= 2real * pow2(100) as real,
        size(b.value()) <= 2real * pow2(100) as real,
        size(c.value()) <= 2real * pow2(100) as real,
        w.place() > 0,
        a.at_most(b),
    ensures
        a.minus(c).over(w).at_most(b.minus(c).over(w)),
        c.at_most(a) ==> a.minus(c).magnitude().over(w).at_most(b.minus(c).magnitude().over(w)),
        c.at_most(a) ==> a.minus(c).magnitude().over(w).place() >= 0,
{
    lemma_moderate();
    value::lemma_wide();
    value::minus_within(a, c, 4real * pow2(100) as real);
    value::minus_within(b, c, 4real * pow2(100) as real);
    order::lemma_minus_single(a, c);
    order::lemma_minus_single(b, c);
    order::lemma_minus_mono(a, b, c);
    order::lemma_minus_sign(a, c);
    let (p, q) = (a.minus(c), b.minus(c));
    order::lemma_over_place(p, w);
    order::lemma_over_place(q, w);
    order::lemma_over_place(p.magnitude(), w);
    order::lemma_over_place(q.magnitude(), w);
    order::lemma_over_mono(p, q, w);
    if c.at_most(a) {
        order::lemma_over_mono(p.magnitude(), q.magnitude(), w);
        order::lemma_over_sign(p.magnitude(), w);
    }
}

/// Moving both irises right, right of the left corners, does not lower the
/// gaze across; moving them down does not lower the gaze down.
pub proof fn gaze_follows_irises(first: Seq<Landmark>, second: Seq<Landmark>)
    requires
        same_across(first, second, seq![33, 133, 362, 263]),
        same_down(first, second, seq![33, 133, 362, 263]),
        moderate(first[33].x@) && moderate(first[133].x@),
        moderate(first[362].x@) && moderate(first[263].x@),
        moderate(first[33].y@) && moderate(first[133].y@),
        moderate(first[362].y@) && moderate(first[263].y@),
        first[33].x@.place() != first[133].x@.place(),
        first[362].x@.place() != first[263].x@.place(),
        moved_on(first, second, seq![469, 470, 471, 472]),
        moved_on(first, second, seq![474, 475, 476, 477]),
    ensures
        first[33].x@.at_most(face::iris_x(first, seq![469, 470, 471, 472]))
            && first[362].x@.at_most(face::iris_x(first, seq![474, 475, 476, 477]))
            ==> face::gaze_x(first).at_most(face::gaze_x(second)),
        face::gaze_y(first) is Nan || face::gaze_y(second) is Nan || face::gaze_y(first).at_most(
            face::gaze_y(second),
        ),
{
    lemma_irises();
    lemma_ends(first, second);
    let ends = seq![33usize, 133, 362, 263];
    assert(first[ends[0] as int].y@ == second[ends[0] as int].y@);
    assert(first[ends[1] as int].y@ == second[ends[1] as int].y@);
    assert(first[ends[2] as int].y@ == second[ends[2] as int].y@);
    assert(first[ends[3] as int].y@ == second[ends[3] as int].y@);
    eye_ratio_follows_iris(first, second, 33, 133, face::LEFT_IRIS@);
    eye_ratio_follows_iris(first, second, 362, 263, face::RIGHT_IRIS@);
    laws::lemma_eye_single(first, 33, 133, face::LEFT_IRIS@);
    laws::lemma_eye_single(second, 33, 133, face::LEFT_IRIS@);
    laws::lemma_eye_single(first, 362, 263, face::RIGHT_IRIS@);
    laws::lemma_eye_single(second, 362, 263, face::RIGHT_IRIS@);
    lemma_pow2_pos(277);
    let (a, b) = (
        face::eye_ratio_x(first, 362, 263, face::RIGHT_IRIS@),
        face::eye_ratio_x(first, 33, 133, face::LEFT_IRIS@),
    );
    let (c, d) = (
        face::eye_ratio_x(second, 362, 263, face::RIGHT_IRIS@),
        face::eye_ratio_x(second, 33, 133, face::LEFT_IRIS@),
    );
    if first[33].x@.at_most(face::iris_x(first, face::LEFT_IRIS@))
        && first[362].x@.at_most(face::iris_x(first, face::RIGHT_IRIS@)) {
        order::lemma_sum_sign(a, b);
        order::lemma_sum_sign(c, b);
        order::lemma_sum_sign(c, d);
        lemma_midpoint_mono(a, b, c, d);
    }
    let (a, b) = (
        face::eye_ratio_y(first, 362, 263, face::RIGHT_IRIS@),
        face::eye_ratio_y(first, 33, 133, face::LEFT_IRIS@),
    );
    let (c, d) = (
        face::eye_ratio_y(second, 362, 263, face::RIGHT_IRIS@),
        face::eye_ratio_y(second, 33, 133, face::LEFT_IRIS@),
    );
    if face::gaze_y(first) !is Nan && face::gaze_y(second) !is Nan {
        lemma_midpoint_mono_any(a, b, c, d);
    }
}

/// Midpoints keep order, whether or not the numbers are finite.
proof fn lemma_midpoint_mono_any(a: Number, b: Number, c: Number, d: Number)
    requires
        a.is_single() && b.is_single() && c.is_single() && d.is_single(),
        a.at_most(c),
        b.at_most(d),
        face::midpoint(a, b) !is Nan,
        face::midpoint(c, d) !is Nan,
    ensures
        face::midpoint(a, b).at_most(face::midpoint(c, d)),
{
    order::lemma_place_bounds(a);
    order::lemma_place_bounds(b);
    order::lemma_place_bounds(c);
    order::lemma_place_bounds(d);
    assert(a.plus(b) !is Nan && c.plus(d) !is Nan) by {
        reveal(Number::over);
    }
    if c.plus(b) is Nan {
        // The mixed sum is `Nan` where one is infinitely large and the other
        // infinitely small; the two midpoints are then the infinities.
        reveal(Number::plus);
        reveal(Number::over);
        order::lemma_whole(2);
        lemma_pow2_pos(149);
        if c is Finite && b is Finite {
            order::lemma_plus_place(c, b);
        }
        order::lemma_plus_single(a, b);
        order::lemma_plus_single(c, d);
        order::lemma_over_single(a.plus(b), Number::whole(2));
        order::lemma_over_single(c.plus(d), Number::whole(2));
        order::lemma_place_bounds(face::midpoint(a, b));
        order::lemma_place_bounds(face::midpoint(c, d));
    } else {
        lemma_midpoint_mono(a, b, c, d);
    }
}

/// The mesh that stands in for a face has both eyes alike, looking straight
/// ahead, with lids, nose, cheeks and forehead all in the middle of the frame.
pub proof fn placeholder_looks_ahead()
    ensures
        face::placeholder_x(33) == face::placeholder_x(362),
        face::placeholder_x(133) == face::placeholder_x(263),
        face::placeholder_x(33).less(face::placeholder_x(474)),
        face::placeholder_x(474).less(face::placeholder_x(133)),
        forall|i: int|
            i != 33 && i != 133 && i != 362 && i != 263 ==> #[trigger] face::placeholder_x(i)
                == Number::ratio(1, 2),
        size(face::placeholder_x(33).value() - 2real / 5real) <= grain(),
        size(face::placeholder_x(133).value() - 3real / 5real) <= grain(),
{
    order::lemma_half();
    order::lemma_ratio_same(5, 10, 1, 2);
    value::ratio_is_near(4, 10);
    value::ratio_is_near(6, 10);
    value::ratio_is_near(1, 2);
    let (a, b, c) = (Number::ratio(4, 10), Number::ratio(6, 10), Number::ratio(1, 2));
    value::lemma_value_order(c, a);
    value::lemma_value_order(b, c);
    value::lemma_grain(size(a.value() - 4real / 10real), 4real / 10real);
    value::lemma_grain(size(b.value() - 6real / 10real), 6real / 10real);
    value::lemma_grain(size(c.value() - 1real / 2real), 1real / 2real);
    let (x, y, z, g) = (a.value(), b.value(), c.value(), grain());
    let (p, q, r) = (4real / 10real, 6real / 10real, 1real / 2real);
    assert(x < z && z < y && -g <= x - 2real / 5real <= g && -g <= y - 3real / 5real <= g)
        by (nonlinear_arith)
        requires
            -p <= 0x100_0000real * (x - p) <= p,
            -q <= 0x100_0000real * (y - q) <= q,
            -r <= 0x100_0000real * (z - r) <= r,
            p == 4real / 10real,
            q == 6real / 10real,
            r == 1real / 2real,
            g == 1real / 0x100_0000real,
    ;
    value::lemma_size(x - 2real / 5real, g);
    value::lemma_size(y - 3real / 5real, g);
}

}
