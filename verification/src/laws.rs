//! What holds of the pointer, the measurements and a session as a whole.

use vstd::arithmetic::power2::*;
use vstd::prelude::*;

use crate::face;
use crate::face::Landmark;
use crate::number::Number;
use crate::order;
use crate::pointer;
use crate::rounding;
use crate::session::{command_of, Action, Command, State, STAGES};
use crate::single;

verus! {

/// Whether a number lies in the range from zero to one.
pub open spec fn in_unit_range(x: Number) -> bool {
    Number::zero().at_most(x) && x.at_most(Number::whole(1))
}

pub proof fn lemma_unit_places()
    ensures
        Number::whole(1) == (Number::Finite { negative: false, units: pow2(149) }),
        Number::whole(1).is_single(),
        Number::whole(1).place() == pow2(149),
        Number::zero().is_single(),
        Number::ratio(1, 2) == (Number::Finite { negative: false, units: pow2(148) }),
        Number::ratio(1, 2).is_single(),
        2 * pow2(148) == pow2(149),
        pow2(148) > 0,
        pow2(149) < pow2(277),
{
    order::lemma_whole(1);
    order::lemma_half();
    order::lemma_zero_single();
    lemma_pow2_pos(148);
    lemma_pow2_strictly_increases(149, 277);
    assert(1 * pow2(149) == pow2(149));
}

/// The distance between two bounds is never zero, nor missing, and it is
/// positive where the bounds are in order.
proof fn lemma_span(low: Number, high: Number)
    requires
        low.is_single(),
        high.is_single(),
    ensures
        pointer::span(low, high) !is Nan,
        pointer::span(low, high).is_single(),
        pointer::span(low, high).place() != 0,
        low.at_most(high) ==> pointer::span(low, high).place() > 0,
{
    let apart = high.minus(low);
    let least = Number::ratio(1, 0x80_0000);
    order::lemma_minus_single(high, low);
    order::lemma_ratio_bounds(1, 0x80_0000);
    order::lemma_ratio_bounds(1, 10000);
    lemma_pow2_pos(277);
    if least.less(apart.magnitude()) {
        if low.at_most(high) {
            order::lemma_minus_sign(high, low);
        }
    }
}

/// The distance of a reading from the bound that its half of the axis starts at.
pub open spec fn reach(current: Number, low: Number, center: Number) -> Number {
    if current.at_most(center) {
        current.minus(low)
    } else {
        current.minus(center)
    }
}

/// The length of the half of the axis that a reading lies on.
pub open spec fn half_axis(current: Number, low: Number, center: Number, high: Number) -> Number {
    if current.at_most(center) {
        pointer::span(low, center)
    } else {
        pointer::span(center, high)
    }
}

/// A scaled reading lies between zero and one, unless it is `Nan`.
pub proof fn axis_in_range(current: Number, low: Number, center: Number, high: Number)
    ensures
        ({
            let scaled = pointer::axis_scaled(current, low, center, high);
            scaled is Nan || in_unit_range(scaled)
        }),
{
    lemma_unit_places();
}

/// A scaled reading is `Nan` exactly where its distance from the bound is, or
/// where that distance and the axis are both infinite.
pub proof fn axis_is_nan(current: Number, low: Number, center: Number, high: Number)
    requires
        current.is_single(),
        low.is_single(),
        center.is_single(),
        high.is_single(),
    ensures
        pointer::axis_scaled(current, low, center, high) is Nan <==> {
            ||| reach(current, low, center) is Nan
            ||| reach(current, low, center) is Infinite && half_axis(current, low, center, high) is Infinite
        },
{
    lemma_unit_places();
    lemma_span(low, center);
    lemma_span(center, high);
    let from = reach(current, low, center);
    let width = half_axis(current, low, center, high);
    reveal(Number::over);
    let part = from.over(width);
    if from is Finite && width is Finite {
        order::lemma_rounded(
            from.is_negative() != width.is_negative(),
            from->Finite_units * pow2(149),
            width->Finite_units,
        );
    }
    assert(part is Nan <==> from is Nan || (from is Infinite && width is Infinite));
    let halved = part.times(Number::ratio(1, 2));
    reveal(Number::times);
    if part is Finite {
        order::lemma_times_place(part, Number::ratio(1, 2));
    }
    if part is Infinite {
        lemma_pow2_pos(277);
    }
    assert(halved is Nan <==> part is Nan);
    reveal(Number::plus);
    if halved is Finite {
        order::lemma_plus_place(Number::ratio(1, 2), halved);
    }
}

/// A reading at the lower bound scales to zero.
pub proof fn axis_at_low(low: Number, center: Number, high: Number)
    requires
        low.is_single(),
        center.is_single(),
        low is Finite,
        low.at_most(center),
    ensures
        pointer::axis_scaled(low, low, center, high) is Finite,
        pointer::axis_scaled(low, low, center, high).place() == 0,
{
    lemma_unit_places();
    lemma_span(low, center);
    let width = pointer::span(low, center);
    let half = Number::ratio(1, 2);
    order::lemma_minus_self(low);
    let part = Number::zero().over(width);
    if width is Finite {
        order::lemma_over_place(Number::zero(), width);
        order::lemma_round_zero(width.place() as nat);
        assert(0 * pow2(149) == 0);
        order::lemma_over_single(Number::zero(), width);
        order::lemma_place_bounds(part);
    } else {
        reveal(Number::over);
    }
    assert(part is Finite && part.place() == 0);
    order::lemma_over_single(Number::zero(), width);
    order::lemma_times_shrinks(part, half);
}

/// A reading at the centre scales to one half, where centre and lower bound
/// are told apart.
pub proof fn axis_at_center(low: Number, center: Number, high: Number)
    requires
        low.is_single(),
        center.is_single(),
        center.minus(low) is Finite,
        Number::ratio(1, 0x80_0000).less(center.minus(low).magnitude()),
    ensures
        pointer::axis_scaled(center, low, center, high) == Number::ratio(1, 2),
{
    lemma_unit_places();
    order::lemma_ratio_bounds(1, 0x80_0000);
    let apart = center.minus(low);
    assert(center !is Nan) by {
        reveal(Number::plus);
    }
    order::lemma_over_self(apart);
    lemma_one_half();
}

proof fn lemma_one_half()
    ensures
        Number::whole(1).times(Number::ratio(1, 2)) == Number::ratio(1, 2),
        Number::ratio(1, 2).plus(Number::ratio(1, 2)) == Number::whole(1),
{
    lemma_unit_places();
    let (one, half) = (pow2(149), pow2(148));
    assert(1 * half == half && 1 * one == one);
    assert(rounding::representable(half) && rounding::representable(one));
    rounding::lemma_round_exact(half);
    rounding::lemma_round_exact(one);
    reveal(Number::rounded);
    reveal(Number::times);
    assert((one * half) * 1 == half * one) by (nonlinear_arith);
    rounding::lemma_round_same(one * half, one, half, 1);
    reveal(Number::plus);
}

/// A reading at the upper bound scales to one, where it is told apart from the
/// centre.
pub proof fn axis_at_high(low: Number, center: Number, high: Number)
    requires
        low.is_single(),
        center.is_single(),
        high.is_single(),
        center.less(high),
        high.minus(center) is Finite,
        Number::ratio(1, 0x80_0000).less(high.minus(center)),
    ensures
        pointer::axis_scaled(high, low, center, high) == Number::whole(1),
{
    lemma_unit_places();
    order::lemma_ratio_bounds(1, 0x80_0000);
    let apart = high.minus(center);
    assert(apart.magnitude() == apart);
    order::lemma_over_self(apart);
    lemma_one_half();
}

proof fn lemma_clamped_mono(a: Number, b: Number)
    requires
        a.at_most(b),
    ensures
        a.clamped(Number::zero(), Number::whole(1)).at_most(
            b.clamped(Number::zero(), Number::whole(1)),
        ),
{
    lemma_unit_places();
}

/// The lower half of the axis ends at one half.
proof fn lemma_lower_half(current: Number, low: Number, center: Number)
    requires
        current.is_single(),
        low.is_single(),
        center.is_single(),
        low.at_most(center),
        current.at_most(center),
        pointer::axis_raw(current, low, center, center) !is Nan,
    ensures
        pointer::axis_raw(current, low, center, center).at_most(Number::ratio(1, 2)),
{
    lemma_unit_places();
    lemma_span(low, center);
    let half = Number::ratio(1, 2);
    let from = current.minus(low);
    let apart = center.minus(low);
    let width = pointer::span(low, center);
    let least = Number::ratio(1, 0x80_0000);
    order::lemma_minus_single(current, low);
    order::lemma_minus_single(center, low);
    order::lemma_over_single(from, width);
    assert(from.over(width) !is Nan && from !is Nan) by {
        reveal(Number::over);
        reveal(Number::times);
    }
    assert(from.at_most(width)) by {
        order::lemma_place_bounds(current);
        order::lemma_place_bounds(low);
        order::lemma_place_bounds(center);
        order::lemma_place_bounds(width);
        order::lemma_ratio_mono(1, 0x80_0000, 1, 10000);
        order::lemma_ratio_bounds(1, 0x80_0000);
        order::lemma_ratio_bounds(1, 10000);
        if apart is Nan {
            if low is Finite && center is Finite {
                order::lemma_plus_place(center, low.negated());
            }
            reveal(Number::plus);
            assert(from.at_most(width));
        } else {
            order::lemma_minus_mono(current, center, low);
            order::lemma_minus_sign(center, low);
            assert(apart.magnitude().place() == apart.place());
            assert(apart.at_most(width));
        }
    }
    lemma_one_half();
    order::lemma_over_at_most_one(from, width);
    order::lemma_times_mono(from.over(width), Number::whole(1), half);
}

/// A reading further along the axis does not scale to less.
pub proof fn axis_monotone(
    first: Number,
    second: Number,
    low: Number,
    center: Number,
    high: Number,
)
    requires
        first.is_single(),
        second.is_single(),
        low.is_single(),
        center.is_single(),
        high.is_single(),
        low.at_most(center),
        center.at_most(high),
        first.at_most(second),
        pointer::axis_scaled(first, low, center, high) !is Nan,
        pointer::axis_scaled(second, low, center, high) !is Nan,
    ensures
        pointer::axis_scaled(first, low, center, high).at_most(
            pointer::axis_scaled(second, low, center, high),
        ),
{
    lemma_unit_places();
    lemma_span(low, center);
    lemma_span(center, high);
    let half = Number::ratio(1, 2);
    let raw_first = pointer::axis_raw(first, low, center, high);
    let raw_second = pointer::axis_raw(second, low, center, high);
    if second.at_most(center) {
        let width = pointer::span(low, center);
        let (a, b) = (first.minus(low), second.minus(low));
        order::lemma_minus_single(first, low);
        order::lemma_minus_single(second, low);
        order::lemma_over_single(a, width);
        order::lemma_over_single(b, width);
        assert(a.over(width) !is Nan && b.over(width) !is Nan && a !is Nan && b !is Nan) by {
            reveal(Number::over);
            reveal(Number::times);
        }
        order::lemma_minus_mono(first, second, low);
        order::lemma_over_mono(a, b, width);
        order::lemma_times_mono(a.over(width), b.over(width), half);
    } else {
        let width = pointer::span(center, high);
        let b = second.minus(center);
        let upper = b.over(width).times(half);
        order::lemma_minus_single(second, center);
        order::lemma_over_single(b, width);
        order::lemma_times_single(b.over(width), half);
        assert(upper !is Nan && b.over(width) !is Nan && b !is Nan) by {
            reveal(Number::over);
            reveal(Number::times);
            reveal(Number::plus);
        }
        if first.at_most(center) {
            lemma_lower_half(first, low, center);
            order::lemma_minus_sign(second, center);
            order::lemma_over_sign(b, width);
            order::lemma_times_sign(b.over(width), half);
            order::lemma_plus_grows(half, upper);
        } else {
            let a = first.minus(center);
            let lower = a.over(width).times(half);
            order::lemma_minus_single(first, center);
            order::lemma_over_single(a, width);
            order::lemma_times_single(a.over(width), half);
            assert(lower !is Nan && a.over(width) !is Nan && a !is Nan) by {
                reveal(Number::over);
                reveal(Number::times);
                reveal(Number::plus);
            }
            order::lemma_minus_mono(first, second, center);
            order::lemma_over_mono(a, b, width);
            order::lemma_times_mono(a.over(width), b.over(width), half);
            order::lemma_plus_commutes(half, lower);
            order::lemma_plus_commutes(half, upper);
            order::lemma_plus_mono(lower, upper, half);
        }
    }
    lemma_clamped_mono(raw_first, raw_second);
}

/// The bounds of the head's share, and that their difference leads from one to
/// the other.
proof fn lemma_weight_bounds()
    ensures
        ({
            let (low, high) = (Number::ratio(1, 10), Number::ratio(85, 100));
            &&& low.is_single() && low is Finite
            &&& high.is_single() && high is Finite
            &&& 0 < low.place() < high.place() < pow2(149)
            &&& !low.is_negative() && !high.is_negative()
            &&& high.minus(low).is_single()
            &&& high.minus(low) is Finite
            &&& 0 < high.minus(low).place() <= pow2(149)
            &&& low.plus(high.minus(low)) == high
        }),
{
    let (low, high) = (Number::ratio(1, 10), Number::ratio(85, 100));
    let step = pow2(122);
    lemma2_to64();
    order::lemma_ratio_bounds(1, 10);
    order::lemma_ratio_bounds(85, 100);
    order::lemma_ratio_is(1, 10, 13421773, 27);
    order::lemma_ratio_is(85, 100, 14260634, 24);
    lemma_pow2_pos(122);
    lemma_pow2_adds(122, 3);
    lemma_pow2_adds(122, 27);
    lemma_pow2_adds(24, 125);
    lemma_pow2_strictly_increases(149, 277);
    let gap = pow2(125);
    assert(gap == 8 * step);
    assert(pow2(149) == 0x100_0000 * gap);
    // 0.85 - 0.1 rounds to 0.75.
    order::lemma_round_to_gap(100663299, 1, 122, 3, 12582912);
    assert(high.place() - low.place() == 100663299 * step);
    let apart = high.minus(low);
    reveal(Number::plus);
    reveal(Number::rounded);
    assert(apart == (Number::Finite { negative: false, units: 12582912 * gap }));
    order::lemma_minus_single(high, low);
    // 0.1 + 0.75 rounds to 0.85.
    order::lemma_round_to_gap(114085069, 1, 122, 3, 14260634);
    assert(low.place() + apart.place() == 114085069 * step);
}

/// The turn of the head is a number from zero to one.
proof fn lemma_turn(yaw: Number, pitch: Number, center_yaw: Number, center_pitch: Number)
    requires
        yaw.is_single(),
        pitch.is_single(),
        center_yaw.is_single(),
        center_pitch.is_single(),
    ensures
        ({
            let t = pointer::turn(yaw, pitch, center_yaw, center_pitch);
            t.is_single() && t is Finite && in_unit_range(t)
        }),
{
    lemma_unit_places();
    let dx = yaw.minus(center_yaw).magnitude();
    let dy = pitch.minus(center_pitch).magnitude();
    let full = Number::ratio(8, 100);
    order::lemma_minus_single(yaw, center_yaw);
    order::lemma_minus_single(pitch, center_pitch);
    order::lemma_times_single(dx, dx);
    order::lemma_times_single(dy, dy);
    order::lemma_plus_single(dx.times(dx), dy.times(dy));
    let square = dx.times(dx).plus(dy.times(dy));
    order::lemma_root_single(square);
    order::lemma_root_sign(square);
    order::lemma_ratio_bounds(8, 100);
    let d = square.root();
    order::lemma_over_single(d, full);
    if d.over(full) !is Nan {
        reveal(Number::over);
        assert(d !is Nan);
        order::lemma_over_sign(d, full);
    }
    let t = pointer::turn(yaw, pitch, center_yaw, center_pitch);
    order::lemma_place_bounds(t);
}

/// The share of the head lies between 0.1 and 0.85, whatever the readings are.
pub proof fn face_weight_in_range(
    yaw: Number,
    pitch: Number,
    center_yaw: Number,
    center_pitch: Number,
)
    requires
        yaw.is_single(),
        pitch.is_single(),
        center_yaw.is_single(),
        center_pitch.is_single(),
    ensures
        ({
            let weight = pointer::face_weight(yaw, pitch, center_yaw, center_pitch);
            &&& weight.is_single()
            &&& Number::ratio(1, 10).at_most(weight)
            &&& weight.at_most(Number::ratio(85, 100))
        }),
{
    lemma_turn(yaw, pitch, center_yaw, center_pitch);
    lemma_weight_of_turn(pointer::turn(yaw, pitch, center_yaw, center_pitch));
}

proof fn lemma_weight_of_turn(t: Number)
    requires
        t.is_single(),
        t is Finite,
        in_unit_range(t),
    ensures
        ({
            let weight = pointer::weight_of_turn(t);
            &&& weight.is_single()
            &&& weight is Finite
            &&& Number::ratio(1, 10).at_most(weight)
            &&& weight.at_most(Number::ratio(85, 100))
        }),
{
    lemma_unit_places();
    lemma_weight_bounds();
    let (low, high) = (Number::ratio(1, 10), Number::ratio(85, 100));
    let apart = high.minus(low);
    order::lemma_times_shrinks(t, t);
    let square = t.times(t);
    order::lemma_times_shrinks(apart, square);
    let part = apart.times(square);
    order::lemma_plus_grows(low, part);
    order::lemma_plus_single(low, part);
    order::lemma_plus_commutes(low, part);
    order::lemma_plus_commutes(low, apart);
    order::lemma_plus_mono(part, apart, low);
    order::lemma_place_bounds(low.plus(part));
}

/// A greater turn does not get a smaller share.
pub proof fn weight_of_turn_monotone(first: Number, second: Number)
    requires
        first.is_single(),
        second.is_single(),
        in_unit_range(first),
        first.at_most(second),
        in_unit_range(second),
    ensures
        pointer::weight_of_turn(first).at_most(pointer::weight_of_turn(second)),
{
    lemma_unit_places();
    lemma_weight_bounds();
    let (low, high) = (Number::ratio(1, 10), Number::ratio(85, 100));
    let apart = high.minus(low);
    order::lemma_place_bounds(first);
    order::lemma_place_bounds(second);
    order::lemma_times_shrinks(first, first);
    order::lemma_times_shrinks(second, first);
    order::lemma_times_shrinks(second, second);
    order::lemma_times_commutes(first, second);
    order::lemma_times_mono(first, second, first);
    order::lemma_times_mono(first, second, second);
    let (a, b) = (first.times(first), second.times(second));
    assert(a.at_most(b));
    order::lemma_times_shrinks(apart, a);
    order::lemma_times_shrinks(apart, b);
    order::lemma_times_commutes(apart, a);
    order::lemma_times_commutes(apart, b);
    order::lemma_times_mono(a, b, apart);
    order::lemma_plus_commutes(low, apart.times(a));
    order::lemma_plus_commutes(low, apart.times(b));
    order::lemma_plus_grows(low, apart.times(a));
    order::lemma_plus_grows(low, apart.times(b));
    order::lemma_plus_mono(apart.times(a), apart.times(b), low);
}

/// A head turned further from its centre, across and down, does not get a
/// smaller share.
pub proof fn face_weight_monotone(
    yaw1: Number,
    pitch1: Number,
    yaw2: Number,
    pitch2: Number,
    center_yaw: Number,
    center_pitch: Number,
)
    requires
        yaw1.is_single(),
        pitch1.is_single(),
        yaw2.is_single(),
        pitch2.is_single(),
        center_yaw.is_single(),
        center_pitch.is_single(),
        yaw1.minus(center_yaw).magnitude().at_most(yaw2.minus(center_yaw).magnitude()),
        pitch1.minus(center_pitch).magnitude().at_most(pitch2.minus(center_pitch).magnitude()),
    ensures
        pointer::face_weight(yaw1, pitch1, center_yaw, center_pitch).at_most(
            pointer::face_weight(yaw2, pitch2, center_yaw, center_pitch),
        ),
{
    let (dx1, dx2) = (yaw1.minus(center_yaw).magnitude(), yaw2.minus(center_yaw).magnitude());
    let (dy1, dy2) = (
        pitch1.minus(center_pitch).magnitude(),
        pitch2.minus(center_pitch).magnitude(),
    );
    let full = Number::ratio(8, 100);
    order::lemma_minus_single(yaw1, center_yaw);
    order::lemma_minus_single(yaw2, center_yaw);
    order::lemma_minus_single(pitch1, center_pitch);
    order::lemma_minus_single(pitch2, center_pitch);
    lemma_pow2_pos(277);
    lemma_distance_mono(dx1, dx2, dy1, dy2);
    order::lemma_ratio_bounds(8, 100);
    let (d1, d2) = (pointer::distance(dx1, dy1), pointer::distance(dx2, dy2));
    lemma_over_finite(d1, full);
    lemma_over_finite(d2, full);
    order::lemma_over_mono(d1, d2, full);
    lemma_unit_places();
    lemma_turn(yaw1, pitch1, center_yaw, center_pitch);
    lemma_turn(yaw2, pitch2, center_yaw, center_pitch);
    weight_of_turn_monotone(
        pointer::turn(yaw1, pitch1, center_yaw, center_pitch),
        pointer::turn(yaw2, pitch2, center_yaw, center_pitch),
    );
}

/// Distances keep order.
proof fn lemma_distance_mono(dx1: Number, dx2: Number, dy1: Number, dy2: Number)
    requires
        dx1.is_single() && dx2.is_single() && dy1.is_single() && dy2.is_single(),
        dx1.at_most(dx2),
        dy1.at_most(dy2),
        dx1.place() >= 0,
        dy1.place() >= 0,
    ensures
        pointer::distance(dx1, dy1).at_most(pointer::distance(dx2, dy2)),
        pointer::distance(dx1, dy1).is_single(),
        pointer::distance(dx2, dy2).is_single(),
{
    let (a, b) = (dx1.times(dx1), dx2.times(dx2));
    let (c, d) = (dy1.times(dy1), dy2.times(dy2));
    order::lemma_times_single(dx1, dx1);
    order::lemma_times_single(dx2, dx2);
    order::lemma_times_single(dy1, dy1);
    order::lemma_times_single(dy2, dy2);
    order::lemma_square_mono(dx1, dx2);
    order::lemma_square_mono(dy1, dy2);
    order::lemma_plus_single(a, c);
    order::lemma_plus_single(b, d);
    order::lemma_sum_mono(a, b, c, d);
    order::lemma_root_mono(a.plus(c), b.plus(d));
    order::lemma_root_single(a.plus(c));
    order::lemma_root_single(b.plus(d));
}

/// Dividing a number by a finite one that is not zero gives a number.
proof fn lemma_over_finite(a: Number, b: Number)
    requires
        a !is Nan,
        b is Finite,
        b.place() > 0,
    ensures
        a.over(b) !is Nan,
{
    if a is Finite {
        order::lemma_over_place(a, b);
    } else {
        reveal(Number::over);
    }
}

/// A head that faces its calibrated centre has a share of one tenth.
pub proof fn face_weight_at_rest(center_yaw: Number, center_pitch: Number)
    requires
        center_yaw is Finite,
        center_pitch is Finite,
    ensures
        pointer::face_weight(center_yaw, center_pitch, center_yaw, center_pitch)
            == Number::ratio(1, 10),
{
    lemma_unit_places();
    lemma_weight_bounds();
    let zero = Number::zero();
    let (low, high) = (Number::ratio(1, 10), Number::ratio(85, 100));
    order::lemma_minus_self(center_yaw);
    order::lemma_minus_self(center_pitch);
    lemma_zero_products(high.minus(low));
    order::lemma_ratio_bounds(8, 100);
    reveal(Number::root);
    assert(zero.over(Number::ratio(8, 100)) == zero) by {
        reveal(Number::over);
        reveal(Number::rounded);
        order::lemma_round_zero(Number::ratio(8, 100)->Finite_units);
        assert(0 * pow2(149) == 0);
    }
    assert(pointer::turn(center_yaw, center_pitch, center_yaw, center_pitch) == zero);
    assert(low.plus(zero) == low) by {
        reveal(Number::plus);
        reveal(Number::rounded);
        rounding::lemma_round_exact(low->Finite_units);
    }
}

proof fn lemma_zero_products(a: Number)
    requires
        a is Finite,
        !a.is_negative(),
    ensures
        Number::zero().times(Number::zero()) == Number::zero(),
        a.times(Number::zero()) == Number::zero(),
        Number::zero().plus(Number::zero()) == Number::zero(),
{
    reveal(Number::times);
    reveal(Number::plus);
    reveal(Number::rounded);
    lemma_pow2_pos(149);
    lemma_pow2_pos(277);
    order::lemma_round_zero(pow2(149));
    let u = a->Finite_units;
    assert(u * 0 == 0 && 0nat * 0nat == 0) by (nonlinear_arith);
}

/// A head whose distance from its centre comes to eight hundredths or more has
/// a share of 0.85.
pub proof fn face_weight_at_full_distance(
    yaw: Number,
    pitch: Number,
    center_yaw: Number,
    center_pitch: Number,
)
    requires
        yaw.is_single(),
        pitch.is_single(),
        center_yaw.is_single(),
        center_pitch.is_single(),
        Number::ratio(8, 100).at_most(
            pointer::distance(
                yaw.minus(center_yaw).magnitude(),
                pitch.minus(center_pitch).magnitude(),
            ),
        ),
    ensures
        pointer::face_weight(yaw, pitch, center_yaw, center_pitch) == Number::ratio(85, 100),
{
    lemma_unit_places();
    let full = Number::ratio(8, 100);
    let dx = yaw.minus(center_yaw).magnitude();
    let dy = pitch.minus(center_pitch).magnitude();
    let d = pointer::distance(dx, dy);
    order::lemma_ratio_bounds(8, 100);
    order::lemma_minus_single(yaw, center_yaw);
    order::lemma_minus_single(pitch, center_pitch);
    order::lemma_times_single(dx, dx);
    order::lemma_times_single(dy, dy);
    order::lemma_plus_single(dx.times(dx), dy.times(dy));
    order::lemma_root_single(dx.times(dx).plus(dy.times(dy)));
    order::lemma_over_self(full);
    lemma_over_finite(d, full);
    order::lemma_over_mono(full, d, full);
    assert(pointer::turn(yaw, pitch, center_yaw, center_pitch) == Number::whole(1));
    lemma_full_weight();
}

pub proof fn lemma_full_weight()
    ensures
        pointer::weight_of_turn(Number::whole(1)) == Number::ratio(85, 100),
{
    lemma_unit_places();
    lemma_weight_bounds();
    let one = Number::whole(1);
    let (low, high) = (Number::ratio(1, 10), Number::ratio(85, 100));
    order::lemma_times_one(one);
    order::lemma_times_one(high.minus(low));
    assert(one.times(one) == one);
    assert(high.minus(low).times(one) == high.minus(low));
}

/// A head turned by eight hundredths or more, across or down, has a share of
/// 0.85.
pub proof fn face_weight_at_full_turn(
    yaw: Number,
    pitch: Number,
    center_yaw: Number,
    center_pitch: Number,
)
    requires
        yaw.is_single(),
        pitch.is_single(),
        center_yaw.is_single(),
        center_pitch.is_single(),
        Number::ratio(8, 100).at_most(yaw.minus(center_yaw).magnitude())
            || Number::ratio(8, 100).at_most(pitch.minus(center_pitch).magnitude()),
    ensures
        pointer::face_weight(yaw, pitch, center_yaw, center_pitch) == Number::ratio(85, 100),
{
    let full = Number::ratio(8, 100);
    let dx = yaw.minus(center_yaw).magnitude();
    let dy = pitch.minus(center_pitch).magnitude();
    order::lemma_minus_single(yaw, center_yaw);
    order::lemma_minus_single(pitch, center_pitch);
    order::lemma_plus_commutes(dx.times(dx), dy.times(dy));
    lemma_pow2_pos(277);
    if dx is Nan || dy is Nan {
        // A distance that is not a number counts as a full turn.
        assert(pointer::turn(yaw, pitch, center_yaw, center_pitch) == Number::whole(1)) by {
            reveal(Number::times);
            reveal(Number::plus);
            reveal(Number::root);
            reveal(Number::over);
        }
        lemma_full_weight();
    } else {
        if full.at_most(dx) {
            lemma_far_distance(dx, dy);
        } else {
            lemma_far_distance(dy, dx);
        }
        face_weight_at_full_distance(yaw, pitch, center_yaw, center_pitch);
    }
}

/// A distance is eight hundredths or more where one of its parts is.
proof fn lemma_far_distance(dx: Number, dy: Number)
    requires
        dx.is_single(),
        dy.is_single(),
        dy !is Nan,
        dy.place() >= 0,
        Number::ratio(8, 100).at_most(dx),
    ensures
        Number::ratio(8, 100).at_most(pointer::distance(dx, dy)),
{
    let full = Number::ratio(8, 100);
    let (a, b) = (dx.times(dx), dy.times(dy));
    order::lemma_ratio_bounds(8, 100);
    order::lemma_times_single(full, full);
    order::lemma_times_single(dx, dx);
    order::lemma_times_single(dy, dy);
    order::lemma_square_mono(full, dx);
    order::lemma_square_mono(dy, dy);
    order::lemma_sum_sign(a, b);
    order::lemma_plus_single(a, b);
    order::lemma_root_mono(full.times(full), a.plus(b));
    lemma_full_square();
}

/// The root of the square of eight hundredths, both rounded, is no less than
/// eight hundredths: the square rounds up.
proof fn lemma_full_square()
    ensures
        Number::ratio(8, 100).at_most(
            Number::ratio(8, 100).times(Number::ratio(8, 100)).root(),
        ),
{
    let full = Number::ratio(8, 100);
    let square = full.times(full);
    let step = pow2(95);
    let one = pow2(149);
    lemma2_to64();
    order::lemma_ratio_bounds(8, 100);
    order::lemma_ratio_is(8, 100, 10737418, 27);
    let p = 10737418 * pow2(122);
    assert(full.place() == p);
    lemma_pow2_pos(95);
    lemma_pow2_pos(149);
    lemma_pow2_adds(122, 122);
    lemma_pow2_adds(95, 149);
    lemma_pow2_adds(95, 23);
    assert(p * p == (115292145306724 * step) * one) by (nonlinear_arith)
        requires
            p == 10737418 * pow2(122),
            pow2(122) * pow2(122) == step * one,
    ;
    order::lemma_round_to_gap(115292145306724, 1, 95, 23, 13743895);
    order::lemma_times_place(full, full);
    rounding::lemma_round_same((p * p) as nat, one, 115292145306724 * step, 1);
    let s = 13743895 * pow2(118);
    assert(s == 13743895 * (step * 0x80_0000));
    lemma_pow2_adds(24, 118);
    lemma_pow2_strictly_increases(142, 277);
    assert(square.place() == s);
    order::lemma_times_single(full, full);
    order::lemma_place_bounds(square);
    assert(p * p <= s * one) by (nonlinear_arith)
        requires
            p * p == (115292145306724 * step) * one,
            s == 13743895 * (step * 0x80_0000),
    ;
    order::lemma_root_at_least(full, square);
}

/// Turning an axis round keeps it in the range from zero to one.
pub proof fn oriented_in_range(x: Number, inverted: bool)
    requires
        x.is_single(),
        in_unit_range(x),
    ensures
        pointer::oriented(x, inverted).is_single(),
        in_unit_range(pointer::oriented(x, inverted)),
{
    lemma_unit_places();
    let one = Number::whole(1);
    order::lemma_place_bounds(x);
    order::lemma_minus_single(one, x);
    order::lemma_plus_place(one, x.negated());
    order::lemma_rounded_place_exact(one);
    order::lemma_round_zero(1);
    order::lemma_rounded_place_mono(0, 1, one.place() - x.place(), 1);
    order::lemma_rounded_place_mono(one.place() - x.place(), 1, one.place(), 1);
}

/// Two positions from zero to one, weighed, give one from zero to one.
pub proof fn blended_in_range(eye: Number, head: Number, weight: Number)
    requires
        eye.is_single(),
        head.is_single(),
        weight.is_single(),
        in_unit_range(eye),
        in_unit_range(head),
        in_unit_range(weight),
    ensures
        pointer::blended(eye, head, weight).is_single(),
        in_unit_range(pointer::blended(eye, head, weight)),
{
    lemma_unit_places();
    let one = Number::whole(1);
    let rest = one.minus(weight);
    order::lemma_place_bounds(eye);
    order::lemma_place_bounds(head);
    order::lemma_place_bounds(weight);
    oriented_in_range(weight, true);
    order::lemma_place_bounds(rest);
    // Each product is at most its weight.
    order::lemma_times_shrinks(rest, eye);
    order::lemma_times_shrinks(weight, head);
    order::lemma_times_commutes(rest, eye);
    order::lemma_times_commutes(weight, head);
    let a = eye.times(rest);
    let b = head.times(weight);
    order::lemma_plus_single(a, b);
    order::lemma_plus_place(a, b);
    order::lemma_round_zero(1);
    order::lemma_rounded_place_mono(0, 1, a.place() + b.place(), 1);
    // The weights add up to one, but for half a gap at most.
    let left = (one.place() - weight.place()) as nat;
    order::lemma_plus_place(one, weight.negated());
    lemma_gap_at_one();
    rounding::lemma_spacing_mono(left, 1, pow2(149), 1);
    rounding::lemma_round_error(left, 126);
    lemma_pow2_unfold(126);
    let bound = pow2(149) + pow2(125);
    assert(a.place() + b.place() <= bound);
    order::lemma_rounded_place_mono(a.place() + b.place(), 1, bound as int, 1);
    assert(1 * pow2(149) == pow2(149));
    assert(order::spares_a_bit(pow2(149)));
    order::lemma_half_gap_above(pow2(149));
}

proof fn lemma_gap_at_one()
    ensures
        rounding::spacing(pow2(149), 1) == 126,
{
    lemma_pow2_strictly_increases(149, 150);
    rounding::lemma_spacing_is(pow2(149), 1, 126);
}

/// The target of the pointer lies on the screen.
pub proof fn target_on_screen(aim: Number, extent: Number)
    requires
        aim.is_single(),
        in_unit_range(aim),
        extent.is_single(),
        extent is Finite,
        extent.place() >= 0,
    ensures
        aim.times(extent).is_single(),
        Number::zero().at_most(aim.times(extent)),
        aim.times(extent).at_most(extent),
{
    lemma_unit_places();
    order::lemma_place_bounds(aim);
    order::lemma_times_shrinks(extent, aim);
    order::lemma_times_commutes(extent, aim);
}

/// Whether a coordinate lies on a screen of that extent.
pub open spec fn on_axis(x: Number, extent: Number) -> bool {
    x is Finite && 0 <= x.place() <= extent.place()
}

/// A step from a point of the screen toward a point of the screen ends on the
/// screen.
pub proof fn step_on_screen(x: Number, target: Number, extent: Number, active: Number)
    requires
        x.is_single(),
        target.is_single(),
        extent.is_single(),
        extent is Finite,
        order::spares_a_bit(extent->units),
        on_axis(x, extent),
        on_axis(target, extent),
        active.is_single(),
        in_unit_range(active),
    ensures
        on_axis(pointer::advanced(x, target, active), extent),
        pointer::advanced(x, target, active).is_single(),
{
    lemma_unit_places();
    let dx = target.minus(x);
    let (p, q, w) = (x.place(), target.place(), extent.place());
    order::lemma_place_bounds(active);
    order::lemma_place_bounds(extent);
    order::lemma_plus_place(target, x.negated());
    order::lemma_minus_single(target, x);
    order::lemma_round_zero(1);
    order::lemma_rounded_place_exact(x);
    order::lemma_rounded_place_exact(target);
    order::lemma_rounded_place_exact(extent);
    // The distance is between that to the near edge and that to the far edge.
    order::lemma_rounded_place_exact(x.negated());
    order::lemma_rounded_place_mono(-p, 1, q - p, 1);
    order::lemma_rounded_place_mono(q - p, 1, q, 1);
    order::lemma_rounded_place_mono(q - p, 1, w - p, 1);
    order::lemma_place_bounds(dx);
    order::lemma_times_shrinks(dx, active);
    let part = dx.times(active);
    order::lemma_plus_place(x, part);
    order::lemma_plus_single(x, part);
    let end = x.plus(part);
    order::lemma_rounded_place_mono(0, 1, p + part.place(), 1);
    // Rounding the distance adds half a gap at most, which rounds away.
    let left = (w - p) as nat;
    let s = rounding::spacing(w as nat, 1);
    rounding::lemma_spacing_mono(left, 1, w as nat, 1);
    rounding::lemma_round_error(left, s);
    lemma_pow2_pos(277);
    assert(extent->units == w);
    if s == 0 {
        rounding::lemma_pow2_0();
        assert(p + part.place() <= w);
        order::lemma_rounded_place_mono(p + part.place(), 1, w, 1);
    } else {
        lemma_pow2_unfold(s);
        let bound = w + pow2((s - 1) as nat);
        assert(p + part.place() <= bound);
        order::lemma_rounded_place_mono(p + part.place(), 1, bound, 1);
        order::lemma_half_gap_above(w as nat);
    }
    order::lemma_place_bounds(end);
}

/// A step never leads away from its target.
pub proof fn step_toward_target(x: Number, target: Number, active: Number)
    requires
        x.is_single(),
        target.is_single(),
        x is Finite,
        target !is Nan,
        active.is_single(),
        active !is Nan,
        active.place() >= 0,
        pointer::advanced(x, target, active) !is Nan,
    ensures
        x.at_most(target) ==> x.at_most(pointer::advanced(x, target, active)),
        target.at_most(x) ==> pointer::advanced(x, target, active).at_most(x),
{
    let dx = target.minus(x);
    order::lemma_minus_single(target, x);
    assert(dx.times(active) !is Nan && dx !is Nan) by {
        reveal(Number::plus);
        reveal(Number::times);
    }
    order::lemma_minus_sign(target, x);
    order::lemma_times_single(dx, active);
    order::lemma_times_sign(dx, active);
    order::lemma_plus_grows(x, dx.times(active));
}

/// A pointer on its target stays there, and the mouse does not move.
pub proof fn step_at_target(x: Number, y: Number, factor: Number)
    requires
        x.is_single(),
        y.is_single(),
        x is Finite,
        y is Finite,
        factor.is_single(),
        factor is Finite,
    ensures
        ({
            let end = pointer::step(x, y, x, y, factor);
            &&& end.0.place() == x.place() && end.1.place() == y.place()
            &&& pointer::pixel_move(x, y, end.0, end.1) is None
        }),
{
    lemma_unit_places();
    order::lemma_minus_self(x);
    order::lemma_minus_self(y);
    let zero = Number::zero();
    let active = pointer::active_factor(zero, zero, factor);
    order::lemma_ratio_bounds(1, 10);
    order::lemma_times_shrinks(factor, Number::ratio(1, 10));
    let part = zero.times(active);
    order::lemma_times_single(zero, active);
    order::lemma_times_place(zero, active);
    order::lemma_round_zero(pow2(149));
    assert(0 * active.place() == 0) by (nonlinear_arith);
    order::lemma_place_bounds(part);
    order::lemma_plus_zero(x, part);
    order::lemma_plus_zero(y, part);
    lemma_same_pixel(x, x.plus(part));
    lemma_same_pixel(y, y.plus(part));
}

/// Equal places have the same pixel.
proof fn lemma_same_pixel(a: Number, b: Number)
    requires
        a is Finite,
        b is Finite,
        a.place() == b.place(),
    ensures
        a.truncated() == b.truncated(),
{
    reveal(Number::truncated);
    lemma_pow2_pos(149);
    if a.place() == 0 {
        assert(0nat / pow2(149) == 0) by (nonlinear_arith)
            requires
                pow2(149) > 0,
        ;
    }
}

/// The smoothing in force stays between zero and one.
pub proof fn active_in_range(dx: Number, dy: Number, factor: Number)
    requires
        factor.is_single(),
        in_unit_range(factor),
    ensures
        pointer::active_factor(dx, dy, factor).is_single(),
        in_unit_range(pointer::active_factor(dx, dy, factor)),
        pointer::active_factor(dx, dy, factor).at_most(factor),
{
    lemma_unit_places();
    order::lemma_place_bounds(factor);
    order::lemma_ratio_bounds(1, 10);
    order::lemma_times_shrinks(factor, Number::ratio(1, 10));
}

/// An eye or a face has a width exactly where its corners stand at different
/// places: a difference of two numbers never rounds to zero.
pub proof fn measurable_where_corners_differ(mesh: Seq<Landmark>, left: usize, right: usize)
    requires
        mesh[left as int].x@ is Finite,
        mesh[right as int].x@ is Finite,
    ensures
        face::measurable(face::width_between(mesh, left, right)) <==> mesh[left as int].x@.place()
            != mesh[right as int].x@.place(),
{
    let (a, b) = (mesh[right as int].x@, mesh[left as int].x@);
    single::lemma_single_valued(mesh[right as int].x);
    single::lemma_single_valued(mesh[left as int].x);
    order::lemma_plus_place(a, b.negated());
    order::lemma_minus_single(a, b);
    order::lemma_place_bounds(a.minus(b));
    let v = a.place() - b.place();
    order::lemma_round_zero(1);
    rounding::lemma_pow2_0();
    assert(1 * pow2(0) == 1);
    assert(rounding::representable(1));
    rounding::lemma_round_exact(1);
    if v != 0 {
        rounding::lemma_round_mono(1, 1, vstd::math::abs(v), 1);
    }
}

/// The ratio across is a distance: it is not negative, unless it is `Nan`.
pub proof fn eye_ratio_not_negative(
    mesh: Seq<Landmark>,
    left: usize,
    right: usize,
    iris: Seq<usize>,
)
    requires
        face::measurable(face::width_between(mesh, left, right)),
    ensures
        ({
            let ratio = face::eye_ratio_x(mesh, left, right, iris);
            ratio is Nan || Number::zero().at_most(ratio)
        }),
{
    let width = face::width_between(mesh, left, right);
    let away = face::iris_x(mesh, iris).minus(mesh[left as int].x@).magnitude();
    lemma_iris_single(mesh, iris);
    single::lemma_single_valued(mesh[left as int].x);
    single::lemma_single_valued(mesh[right as int].x);
    order::lemma_minus_single(face::iris_x(mesh, iris), mesh[left as int].x@);
    order::lemma_minus_single(mesh[right as int].x@, mesh[left as int].x@);
    lemma_pow2_pos(277);
    if away.over(width) !is Nan {
        order::lemma_over_sign(away, width);
    }
}

pub proof fn lemma_iris_single(mesh: Seq<Landmark>, iris: Seq<usize>)
    ensures
        face::iris_x(mesh, iris).is_single(),
        face::iris_y(mesh, iris).is_single(),
{
    let p = |i: int| mesh[iris[i] as int];
    assert forall|i: int| (#[trigger] p(i)).x@.is_single() && p(i).y@.is_single() by {
        single::lemma_single_valued(p(i).x);
        single::lemma_single_valued(p(i).y);
    }
    lemma_mean_single(p(0).x@, p(1).x@, p(2).x@, p(3).x@);
    lemma_mean_single(p(0).y@, p(1).y@, p(2).y@, p(3).y@);
}

pub proof fn lemma_mean_single(a: Number, b: Number, c: Number, d: Number)
    requires
        a.is_single(),
        b.is_single(),
        c.is_single(),
        d.is_single(),
    ensures
        face::mean_of_four(a, b, c, d).is_single(),
{
    order::lemma_whole(4);
    order::lemma_plus_single(a, b);
    order::lemma_plus_single(a.plus(b), c);
    order::lemma_plus_single(a.plus(b).plus(c), d);
    order::lemma_over_single(a.plus(b).plus(c).plus(d), Number::whole(4));
}

pub proof fn lemma_midpoint_single(a: Number, b: Number)
    requires
        a.is_single(),
        b.is_single(),
    ensures
        face::midpoint(a, b).is_single(),
{
    order::lemma_whole(2);
    order::lemma_plus_single(a, b);
    order::lemma_over_single(a.plus(b), Number::whole(2));
}

pub proof fn lemma_eye_single(mesh: Seq<Landmark>, left: usize, right: usize, iris: Seq<usize>)
    ensures
        face::eye_ratio_x(mesh, left, right, iris).is_single(),
        face::eye_ratio_y(mesh, left, right, iris).is_single(),
{
    let (l, r) = (mesh[left as int], mesh[right as int]);
    single::lemma_single_valued(l.x);
    single::lemma_single_valued(l.y);
    single::lemma_single_valued(r.x);
    single::lemma_single_valued(r.y);
    lemma_iris_single(mesh, iris);
    lemma_midpoint_single(l.y@, r.y@);
    let width = face::width_between(mesh, left, right);
    order::lemma_minus_single(r.x@, l.x@);
    order::lemma_minus_single(face::iris_x(mesh, iris), l.x@);
    order::lemma_minus_single(face::iris_y(mesh, iris), face::midpoint(l.y@, r.y@));
    order::lemma_over_single(face::iris_x(mesh, iris).minus(l.x@).magnitude(), width);
    order::lemma_over_single(
        face::iris_y(mesh, iris).minus(face::midpoint(l.y@, r.y@)),
        width,
    );
}

/// Whether a reading consists of single precision numbers.
pub open spec fn reads_singles(reading: pointer::Reading) -> bool {
    &&& reading.ratio_x.is_single()
    &&& reading.ratio_y.is_single()
    &&& reading.yaw.is_single()
    &&& reading.pitch.is_single()
}

pub proof fn lemma_reading_single(mesh: Seq<Landmark>)
    ensures
        reads_singles(State::reading(mesh)),
{
    lemma_eye_single(
        mesh,
        face::RIGHT_EYE_LEFT,
        face::RIGHT_EYE_RIGHT,
        face::RIGHT_IRIS@,
    );
    lemma_eye_single(mesh, face::LEFT_EYE_LEFT, face::LEFT_EYE_RIGHT, face::LEFT_IRIS@);
    let (a, b) = (
        face::eye_ratio_x(mesh, face::RIGHT_EYE_LEFT, face::RIGHT_EYE_RIGHT, face::RIGHT_IRIS@),
        face::eye_ratio_x(mesh, face::LEFT_EYE_LEFT, face::LEFT_EYE_RIGHT, face::LEFT_IRIS@),
    );
    let (c, d) = (
        face::eye_ratio_y(mesh, face::RIGHT_EYE_LEFT, face::RIGHT_EYE_RIGHT, face::RIGHT_IRIS@),
        face::eye_ratio_y(mesh, face::LEFT_EYE_LEFT, face::LEFT_EYE_RIGHT, face::LEFT_IRIS@),
    );
    lemma_midpoint_single(a, b);
    lemma_midpoint_single(c, d);
    let nose = mesh[face::NOSE_TIP as int];
    let cheek = mesh[face::LEFT_CHEEK as int];
    let other = mesh[face::RIGHT_CHEEK as int];
    let top = mesh[face::FOREHEAD as int];
    single::lemma_single_valued(nose.x);
    single::lemma_single_valued(nose.y);
    single::lemma_single_valued(cheek.x);
    single::lemma_single_valued(other.x);
    single::lemma_single_valued(top.y);
    order::lemma_half();
    order::lemma_minus_single(other.x@, cheek.x@);
    order::lemma_minus_single(nose.x@, cheek.x@);
    order::lemma_minus_single(nose.y@, top.y@);
    order::lemma_over_single(nose.x@.minus(cheek.x@), face::face_width(mesh));
    order::lemma_over_single(nose.y@.minus(top.y@), face::face_width(mesh));
}

/// Blending two positions, of the eye and of the head, gives one from zero to
/// one, unless it is `Nan`.
proof fn lemma_aim(
    eye: Number,
    eye_low: Number,
    eye_center: Number,
    eye_high: Number,
    head: Number,
    head_low: Number,
    head_center: Number,
    head_high: Number,
    invert: bool,
    weight: Number,
)
    requires
        eye.is_single() && eye_low.is_single() && eye_center.is_single() && eye_high.is_single(),
        head.is_single() && head_low.is_single() && head_center.is_single()
            && head_high.is_single(),
        weight.is_single(),
        in_unit_range(weight),
        pointer::blended(
            pointer::axis_scaled(eye, eye_low, eye_center, eye_high),
            pointer::oriented(
                pointer::axis_scaled(head, head_low, head_center, head_high),
                invert,
            ),
            weight,
        ) !is Nan,
    ensures
        ({
            let aim = pointer::blended(
                pointer::axis_scaled(eye, eye_low, eye_center, eye_high),
                pointer::oriented(
                    pointer::axis_scaled(head, head_low, head_center, head_high),
                    invert,
                ),
                weight,
            );
            aim.is_single() && in_unit_range(aim)
        }),
{
    let a = pointer::axis_scaled(eye, eye_low, eye_center, eye_high);
    let b = pointer::axis_scaled(head, head_low, head_center, head_high);
    assert(a !is Nan && b !is Nan) by {
        reveal(Number::plus);
        reveal(Number::times);
    }
    axis_in_range(eye, eye_low, eye_center, eye_high);
    axis_in_range(head, head_low, head_center, head_high);
    lemma_axis_single(eye, eye_low, eye_center, eye_high);
    lemma_axis_single(head, head_low, head_center, head_high);
    oriented_in_range(b, invert);
    blended_in_range(a, pointer::oriented(b, invert), weight);
}

pub proof fn lemma_axis_single(current: Number, low: Number, center: Number, high: Number)
    requires
        current.is_single(),
        low.is_single(),
        center.is_single(),
        high.is_single(),
    ensures
        pointer::axis_scaled(current, low, center, high).is_single(),
{
    lemma_unit_places();
    lemma_span(low, center);
    lemma_span(center, high);
    let half = Number::ratio(1, 2);
    let from = reach(current, low, center);
    let width = half_axis(current, low, center, high);
    order::lemma_minus_single(current, low);
    order::lemma_minus_single(current, center);
    order::lemma_over_single(from, width);
    order::lemma_times_single(from.over(width), half);
    order::lemma_plus_single(half, from.over(width).times(half));
}

/// Where the user points is on the screen: both aims lie between zero and one,
/// unless they are `Nan`.
pub proof fn aim_in_range(
    reading: pointer::Reading,
    eyes: pointer::Calibration,
    head: pointer::Calibration,
    invert: bool,
)
    requires
        reads_singles(reading),
    ensures
        ({
            let aim = reading.aim_x(eyes, head, invert);
            aim is Nan || (aim.is_single() && in_unit_range(aim))
        }),
        ({
            let aim = reading.aim_y(eyes, head, invert);
            aim is Nan || (aim.is_single() && in_unit_range(aim))
        }),
{
    lemma_calibration_single(eyes);
    lemma_calibration_single(head);
    face_weight_in_range(reading.yaw, reading.pitch, head.c.0@, head.c.1@);
    lemma_unit_places();
    lemma_weight_bounds();
    let weight = reading.weight(head);
    if reading.aim_x(eyes, head, invert) !is Nan {
        lemma_aim(
            reading.ratio_x,
            eyes.left(),
            eyes.c.0@,
            eyes.right(),
            reading.yaw,
            head.left(),
            head.c.0@,
            head.right(),
            invert,
            weight,
        );
    }
    if reading.aim_y(eyes, head, invert) !is Nan {
        lemma_aim(
            reading.ratio_y,
            eyes.top(),
            eyes.c.1@,
            eyes.bottom(),
            reading.pitch,
            head.top(),
            head.c.1@,
            head.bottom(),
            invert,
            weight,
        );
    }
}

pub proof fn lemma_calibration_single(c: pointer::Calibration)
    ensures
        c.c.0@.is_single() && c.c.1@.is_single(),
        c.left().is_single() && c.right().is_single(),
        c.top().is_single() && c.bottom().is_single(),
{
    single::lemma_single_valued(c.c.0);
    single::lemma_single_valued(c.c.1);
    single::lemma_single_valued(c.tl.0);
    single::lemma_single_valued(c.tl.1);
    single::lemma_single_valued(c.tr.0);
    single::lemma_single_valued(c.tr.1);
    single::lemma_single_valued(c.bl.0);
    single::lemma_single_valued(c.bl.1);
    single::lemma_single_valued(c.br.0);
    single::lemma_single_valued(c.br.1);
    lemma_midpoint_single(c.tl.0@, c.bl.0@);
    lemma_midpoint_single(c.tr.0@, c.br.0@);
    lemma_midpoint_single(c.tl.1@, c.tr.1@);
    lemma_midpoint_single(c.bl.1@, c.br.1@);
}

/// An aim is `Nan` exactly where the eye's position or the head's is.
pub proof fn aim_is_nan(
    reading: pointer::Reading,
    eyes: pointer::Calibration,
    head: pointer::Calibration,
    invert: bool,
)
    requires
        reads_singles(reading),
    ensures
        reading.aim_x(eyes, head, invert) is Nan <==> {
            ||| pointer::axis_scaled(reading.ratio_x, eyes.left(), eyes.c.0@, eyes.right()) is Nan
            ||| pointer::axis_scaled(reading.yaw, head.left(), head.c.0@, head.right()) is Nan
        },
        reading.aim_y(eyes, head, invert) is Nan <==> {
            ||| pointer::axis_scaled(reading.ratio_y, eyes.top(), eyes.c.1@, eyes.bottom()) is Nan
            ||| pointer::axis_scaled(reading.pitch, head.top(), head.c.1@, head.bottom()) is Nan
        },
{
    lemma_calibration_single(eyes);
    lemma_calibration_single(head);
    face_weight_in_range(reading.yaw, reading.pitch, head.c.0@, head.c.1@);
    lemma_unit_places();
    lemma_weight_bounds();
    let weight = reading.weight(head);
    lemma_blend_nan(
        reading.ratio_x,
        eyes.left(),
        eyes.c.0@,
        eyes.right(),
        reading.yaw,
        head.left(),
        head.c.0@,
        head.right(),
        invert,
        weight,
    );
    lemma_blend_nan(
        reading.ratio_y,
        eyes.top(),
        eyes.c.1@,
        eyes.bottom(),
        reading.pitch,
        head.top(),
        head.c.1@,
        head.bottom(),
        invert,
        weight,
    );
}

proof fn lemma_blend_nan(
    eye: Number,
    eye_low: Number,
    eye_center: Number,
    eye_high: Number,
    head: Number,
    head_low: Number,
    head_center: Number,
    head_high: Number,
    invert: bool,
    weight: Number,
)
    requires
        eye.is_single() && eye_low.is_single() && eye_center.is_single() && eye_high.is_single(),
        head.is_single() && head_low.is_single() && head_center.is_single()
            && head_high.is_single(),
        weight.is_single(),
        in_unit_range(weight),
    ensures
        ({
            let a = pointer::axis_scaled(eye, eye_low, eye_center, eye_high);
            let b = pointer::axis_scaled(head, head_low, head_center, head_high);
            pointer::blended(a, pointer::oriented(b, invert), weight) is Nan <==> a is Nan || b is Nan
        }),
{
    let a = pointer::axis_scaled(eye, eye_low, eye_center, eye_high);
    let b = pointer::axis_scaled(head, head_low, head_center, head_high);
    if a is Nan || b is Nan {
        reveal(Number::plus);
        reveal(Number::times);
    } else {
        axis_in_range(eye, eye_low, eye_center, eye_high);
        axis_in_range(head, head_low, head_center, head_high);
        lemma_axis_single(eye, eye_low, eye_center, eye_high);
        lemma_axis_single(head, head_low, head_center, head_high);
        oriented_in_range(b, invert);
        blended_in_range(a, pointer::oriented(b, invert), weight);
    }
}

/// Whether the bounds of an axis are finite and a finite distance apart.
pub open spec fn steady(low: Number, center: Number, high: Number) -> bool {
    &&& low is Finite && center is Finite && high is Finite
    &&& pointer::span(low, center) is Finite
    &&& pointer::span(center, high) is Finite
}

/// Whether all axes of a calibration are steady.
pub open spec fn steady_calibration(c: pointer::Calibration) -> bool {
    &&& steady(c.left(), c.c.0@, c.right())
    &&& steady(c.top(), c.c.1@, c.bottom())
}

/// With steady calibrations every reading without a `Nan` aims at a point of
/// the screen.
pub proof fn steady_calibration_aims(
    reading: pointer::Reading,
    eyes: pointer::Calibration,
    head: pointer::Calibration,
    invert: bool,
)
    requires
        reads_singles(reading),
        reading.ratio_x !is Nan,
        reading.ratio_y !is Nan,
        reading.yaw !is Nan,
        reading.pitch !is Nan,
        steady_calibration(eyes),
        steady_calibration(head),
    ensures
        in_unit_range(reading.aim_x(eyes, head, invert)),
        in_unit_range(reading.aim_y(eyes, head, invert)),
{
    lemma_calibration_single(eyes);
    lemma_calibration_single(head);
    lemma_steady_axis(reading.ratio_x, eyes.left(), eyes.c.0@, eyes.right());
    lemma_steady_axis(reading.ratio_y, eyes.top(), eyes.c.1@, eyes.bottom());
    lemma_steady_axis(reading.yaw, head.left(), head.c.0@, head.right());
    lemma_steady_axis(reading.pitch, head.top(), head.c.1@, head.bottom());
    aim_is_nan(reading, eyes, head, invert);
    aim_in_range(reading, eyes, head, invert);
}

pub proof fn lemma_steady_axis(current: Number, low: Number, center: Number, high: Number)
    requires
        current.is_single(),
        low.is_single(),
        center.is_single(),
        high.is_single(),
        current !is Nan,
        steady(low, center, high),
    ensures
        pointer::axis_scaled(current, low, center, high) !is Nan,
{
    axis_is_nan(current, low, center, high);
    if current is Finite {
        order::lemma_plus_place(current, low.negated());
        order::lemma_plus_place(current, center.negated());
    } else {
        reveal(Number::plus);
    }
}

/// Up to a hundred hundredths lie between zero and one.
pub proof fn hundredths_in_unit_range()
    ensures
        forall|n: nat| n <= 100 ==> in_unit_range(#[trigger] Number::ratio(n, 100)),
{
    lemma_unit_places();
    assert forall|n: nat| n <= 100 implies in_unit_range(#[trigger] Number::ratio(n, 100)) by {
        order::lemma_ratio_bounds(n, 100);
    }
}

/// Whether both coordinates of a reading lie between zero and one.
pub open spec fn unit_pair(p: (crate::single::Single, crate::single::Single)) -> bool {
    in_unit_range(p.0@) && in_unit_range(p.1@)
}

/// A calibration whose readings all lie between zero and one is steady.
pub proof fn unit_calibration_is_steady(c: pointer::Calibration)
    requires
        unit_pair(c.c),
        unit_pair(c.tl),
        unit_pair(c.tr),
        unit_pair(c.bl),
        unit_pair(c.br),
    ensures
        steady_calibration(c),
{
    lemma_calibration_single(c);
    single::lemma_single_valued(c.tl.0);
    single::lemma_single_valued(c.tl.1);
    single::lemma_single_valued(c.tr.0);
    single::lemma_single_valued(c.tr.1);
    single::lemma_single_valued(c.bl.0);
    single::lemma_single_valued(c.bl.1);
    single::lemma_single_valued(c.br.0);
    single::lemma_single_valued(c.br.1);
    lemma_unit_midpoint(c.tl.0@, c.bl.0@);
    lemma_unit_midpoint(c.tr.0@, c.br.0@);
    lemma_unit_midpoint(c.tl.1@, c.tr.1@);
    lemma_unit_midpoint(c.bl.1@, c.br.1@);
    lemma_unit_span(c.left(), c.c.0@);
    lemma_unit_span(c.c.0@, c.right());
    lemma_unit_span(c.top(), c.c.1@);
    lemma_unit_span(c.c.1@, c.bottom());
}

proof fn lemma_unit_midpoint(a: Number, b: Number)
    requires
        a.is_single(),
        b.is_single(),
        in_unit_range(a),
        in_unit_range(b),
    ensures
        in_unit_range(face::midpoint(a, b)),
{
    lemma_unit_places();
    order::lemma_place_bounds(a);
    order::lemma_place_bounds(b);
    let two = Number::whole(2);
    let sum = a.plus(b);
    order::lemma_whole(2);
    order::lemma_plus_place(a, b);
    order::lemma_plus_single(a, b);
    order::lemma_round_zero(1);
    order::lemma_rounded_place_mono(0, 1, a.place() + b.place(), 1);
    order::lemma_rounded_place_exact(two);
    order::lemma_rounded_place_mono(a.place() + b.place(), 1, two.place(), 1);
    assert(two.place() == 2 * pow2(149));
    order::lemma_place_bounds(sum);
    order::lemma_place_bounds(two);
    order::lemma_over_place(sum, two);
    order::lemma_over_sign(sum, two);
    order::lemma_over_at_most_one(sum, two);
}

proof fn lemma_unit_span(low: Number, high: Number)
    requires
        low.is_single(),
        high.is_single(),
        in_unit_range(low),
        in_unit_range(high),
    ensures
        low is Finite && high is Finite,
        pointer::span(low, high) is Finite,
{
    lemma_unit_places();
    let one = Number::whole(1);
    order::lemma_place_bounds(low);
    order::lemma_place_bounds(high);
    order::lemma_plus_place(high, low.negated());
    order::lemma_minus_single(high, low);
    order::lemma_rounded_place_exact(one);
    order::lemma_rounded_place_exact(one.negated());
    let v = high.place() - low.place();
    order::lemma_rounded_place_mono(v, 1, one.place(), 1);
    order::lemma_rounded_place_mono(-one.place(), 1, v, 1);
    order::lemma_ratio_bounds(1, 10000);
}

/// A screen whose extents leave the last bit of a significand to spare, as
/// those of at most `2^23` pixels do.
pub open spec fn has_screen(state: State) -> bool {
    &&& state.screen_w.is_single() && state.screen_w is Finite && order::spares_a_bit(
        state.screen_w->units,
    )
    &&& state.screen_h.is_single() && state.screen_h is Finite && order::spares_a_bit(
        state.screen_h->units,
    )
}

/// Whether the pointer stands on the screen.
pub open spec fn on_screen(state: State) -> bool {
    &&& state.x.is_single() && on_axis(state.x, state.screen_w)
    &&& state.y.is_single() && on_axis(state.y, state.screen_h)
}

/// A pointer on the screen stays on the screen through every frame whose
/// reading aims anywhere at all.
pub proof fn frame_keeps_pointer_on_screen(state: State, mesh: Seq<Landmark>)
    requires
        state.wf(),
        has_screen(state),
        on_screen(state),
        state.follows(mesh) ==> {
            let reading = State::reading(mesh);
            &&& reading.aim_x(state.eyes, state.head, state.invert_x) !is Nan
            &&& reading.aim_y(state.eyes, state.head, state.invert_y) !is Nan
        },
    ensures
        on_screen(state.after_frame(mesh)),
        has_screen(state.after_frame(mesh)),
{
    if state.follows(mesh) {
        lemma_unit_places();
        order::lemma_ratio_bounds(1, 100);
        let reading = State::reading(mesh);
        lemma_reading_single(mesh);
        aim_in_range(reading, state.eyes, state.head, state.invert_x);
        aim_in_range(reading, state.eyes, state.head, state.invert_y);
        let tx = reading.aim_x(state.eyes, state.head, state.invert_x).times(state.screen_w);
        let ty = reading.aim_y(state.eyes, state.head, state.invert_y).times(state.screen_h);
        target_on_screen(
            reading.aim_x(state.eyes, state.head, state.invert_x),
            state.screen_w,
        );
        target_on_screen(
            reading.aim_y(state.eyes, state.head, state.invert_y),
            state.screen_h,
        );
        order::lemma_place_bounds(state.screen_w);
        order::lemma_place_bounds(state.screen_h);
        let active = pointer::active_factor(tx.minus(state.x), ty.minus(state.y), state.factor);
        active_in_range(tx.minus(state.x), ty.minus(state.y), state.factor);
        step_on_screen(state.x, tx, state.screen_w, active);
        step_on_screen(state.y, ty, state.screen_h, active);
    }
}

/// Keys do not move the pointer, nor change the screen, the readings of the
/// calibration or the threshold of a blink.
pub proof fn keys_leave_pointer_alone(state: State, command: Command)
    ensures
        ({
            let next = state.after_command(command);
            &&& next.x == state.x && next.y == state.y
            &&& next.screen_w == state.screen_w && next.screen_h == state.screen_h
            &&& next.eyes == state.eyes && next.head == state.head
            &&& next.blink_threshold == state.blink_threshold
            &&& next.weight == state.weight
        }),
{
}

/// A frame with a blink, one without a measurable face, and any frame before
/// the calibration is through leave the session as it is.
pub proof fn frame_without_tracking_changes_nothing(state: State, mesh: Seq<Landmark>)
    requires
        state.blinks(mesh) || !face::eyes_measurable(mesh) || state.stage < STAGES,
    ensures
        state.after_frame(mesh) == state,
        state.action_of_frame(mesh) matches Action::Show { move_to } ==> move_to is None,
{
}

/// The commands that switch something undo themselves.
pub proof fn switches_undo_themselves(state: State, command: Command)
    requires
        command == Command::ToggleVisuals || command == Command::InvertX || command
            == Command::InvertY,
    ensures
        state.after_command(command).after_command(command) == state,
        state.stage != STAGES ==> state.after_command(command) == state,
{
}

/// A state after a run of commands.
pub open spec fn after_commands(state: State, commands: Seq<Command>) -> State
    decreases commands.len(),
{
    if commands.len() == 0 {
        state
    } else {
        after_commands(state, commands.drop_last()).after_command(commands.last())
    }
}

/// Capturing again and again goes through the stages one by one, ends with the
/// last, and changes nothing else.
pub proof fn captures_complete_calibration(state: State, commands: Seq<Command>)
    requires
        state.stage <= STAGES,
        forall|i: int| 0 <= i < commands.len() ==> commands[i] == Command::Capture,
    ensures
        after_commands(state, commands) == (State {
            stage: if state.stage + commands.len() <= STAGES {
                state.stage + commands.len()
            } else {
                STAGES as nat
            },
            ..state
        }),
    decreases commands.len(),
{
    if commands.len() > 0 {
        captures_complete_calibration(state, commands.drop_last());
    }
}

/// Restarting returns to the first stage from wherever a session is.
pub proof fn restart_returns_to_first_stage(state: State)
    ensures
        state.after_command(Command::Restart) == (State { stage: 0, ..state }),
{
}

/// The smoothing that a session starts with is in its range.
pub proof fn first_factor_in_range()
    ensures
        Number::ratio(15, 100).is_single(),
        Number::ratio(1, 100).at_most(Number::ratio(15, 100)),
        Number::ratio(15, 100).at_most(Number::whole(1)),
{
    lemma_unit_places();
    order::lemma_ratio_bounds(15, 100);
    order::lemma_ratio_mono(1, 100, 15, 100);
}

/// Every command keeps a session well-formed.
pub proof fn commands_keep_well_formed(state: State, command: Command)
    requires
        state.wf(),
    ensures
        state.after_command(command).wf(),
{
    lemma_unit_places();
    order::lemma_ratio_bounds(1, 100);
    if command == Command::Faster || command == Command::Slower {
        speed_changes(state);
    }
}

/// The faster key does not slow the pointer down, the slower key does not
/// speed it up, and neither leads out of the range from one hundredth to one.
pub proof fn speed_changes(state: State)
    requires
        state.wf(),
    ensures
        ({
            let next = state.after_command(Command::Faster);
            state.factor.at_most(next.factor) && next.wf()
        }),
        ({
            let next = state.after_command(Command::Slower);
            next.factor.at_most(state.factor) && next.wf()
        }),
{
    lemma_unit_places();
    let step = Number::ratio(5, 100);
    order::lemma_ratio_bounds(5, 100);
    order::lemma_ratio_bounds(1, 100);
    order::lemma_place_bounds(state.factor);
    order::lemma_plus_grows(state.factor, step);
    order::lemma_plus_grows(state.factor, step.negated());
    order::lemma_plus_single(state.factor, step);
    order::lemma_plus_single(state.factor, step.negated());
}

/// A new session has its pointer on the screen.
pub proof fn new_pointer_on_screen(state: State, width: int, height: int)
    requires
        0 <= width <= 0x80_0000,
        0 <= height <= 0x80_0000,
        state.screen_w == Number::whole(width),
        state.screen_h == Number::whole(height),
        state.x == state.screen_w.over(Number::whole(2)),
        state.y == state.screen_h.over(Number::whole(2)),
    ensures
        has_screen(state),
        on_screen(state),
{
    lemma_middle_on_axis(width);
    lemma_middle_on_axis(height);
}

proof fn lemma_middle_on_axis(extent: int)
    requires
        0 <= extent <= 0x80_0000,
    ensures
        ({
            let w = Number::whole(extent);
            let x = w.over(Number::whole(2));
            &&& w.is_single() && w is Finite && order::spares_a_bit(w->units)
            &&& x.is_single() && on_axis(x, w)
        }),
{
    let w = Number::whole(extent);
    let two = Number::whole(2);
    let x = w.over(two);
    let one = pow2(149);
    order::lemma_whole(extent);
    order::lemma_whole(2);
    lemma_pow2_pos(149);
    assert(order::spares_a_bit(extent as nat * one));
    order::lemma_over_single(w, two);
    order::lemma_over_place(w, two);
    order::lemma_over_sign(w, two);
    let d = two.place() as nat;
    let p = w.place();
    assert(p >= 0) by (nonlinear_arith)
        requires
            p == extent * one,
            extent >= 0,
    ;
    assert((p * one) * 1 <= p * d) by (nonlinear_arith)
        requires
            p >= 0,
            d == 2 * one,
    ;
    order::lemma_rounded_place_mono(p * one, d, p, 1);
    order::lemma_rounded_place_exact(w);
    order::lemma_place_bounds(w);
    order::lemma_place_bounds(x);
}

/// A frame keeps a session well-formed.
pub proof fn frames_keep_well_formed(state: State, mesh: Seq<Landmark>)
    requires
        state.wf(),
    ensures
        state.after_frame(mesh).wf(),
{
}

/// What a session meets: a frame with its mesh, or a key.
pub enum Event {
    Frame(Seq<Landmark>),
    Key(int),
}

/// The state after an event.
pub open spec fn after_event(state: State, event: Event) -> State {
    match event {
        Event::Frame(mesh) => state.after_frame(mesh),
        Event::Key(key) => state.after_command(command_of(key)),
    }
}

/// The state after a run of events.
pub open spec fn after_events(state: State, events: Seq<Event>) -> State
    decreases events.len(),
{
    if events.len() == 0 {
        state
    } else {
        after_event(after_events(state, events.drop_last()), events.last())
    }
}

/// A session that is well-formed stays so, whatever it meets.
pub proof fn sessions_stay_well_formed(state: State, events: Seq<Event>)
    requires
        state.wf(),
    ensures
        after_events(state, events).wf(),
    decreases events.len(),
{
    if events.len() > 0 {
        sessions_stay_well_formed(state, events.drop_last());
        let before = after_events(state, events.drop_last());
        match events.last() {
            Event::Frame(mesh) => frames_keep_well_formed(before, mesh),
            Event::Key(key) => commands_keep_well_formed(before, command_of(key)),
        }
    }
}

/// Whether a frame that moves the pointer aims anywhere at all; other frames
/// and keys do not matter.
pub open spec fn aims(state: State, event: Event) -> bool {
    event matches Event::Frame(mesh) ==> state.follows(mesh) ==> {
        let reading = State::reading(mesh);
        &&& reading.aim_x(state.eyes, state.head, state.invert_x) !is Nan
        &&& reading.aim_y(state.eyes, state.head, state.invert_y) !is Nan
    }
}

/// A pointer on the screen never leaves it, whatever keys are pressed and
/// whatever frames come, as long as the frames that move it aim anywhere at all.
pub proof fn aimed_pointer_never_leaves_screen(state: State, events: Seq<Event>)
    requires
        state.wf(),
        has_screen(state),
        on_screen(state),
        forall|i: int|
            0 <= i < events.len() ==> aims(
                after_events(state, events.take(i)),
                #[trigger] events[i],
            ),
    ensures
        on_screen(after_events(state, events)),
        has_screen(after_events(state, events)),
        after_events(state, events).wf(),
    decreases events.len(),
{
    if events.len() > 0 {
        let last = events.len() - 1;
        let earlier = events.drop_last();
        assert forall|i: int| 0 <= i < earlier.len() implies aims(
            after_events(state, earlier.take(i)),
            #[trigger] earlier[i],
        ) by {
            assert(earlier[i] == events[i]);
            assert(earlier.take(i) =~= events.take(i));
        }
        aimed_pointer_never_leaves_screen(state, earlier);
        let before = after_events(state, earlier);
        assert(events.take(last) =~= earlier);
        assert(aims(before, events[last]));
        match events.last() {
            Event::Frame(mesh) => {
                frame_keeps_pointer_on_screen(before, mesh);
                frames_keep_well_formed(before, mesh);
            },
            Event::Key(key) => {
                keys_leave_pointer_alone(before, command_of(key));
                commands_keep_well_formed(before, command_of(key));
            },
        }
    }
}

/// Nothing that a session meets changes its calibrations.
pub proof fn events_keep_calibration(state: State, events: Seq<Event>)
    ensures
        after_events(state, events).eyes == state.eyes,
        after_events(state, events).head == state.head,
    decreases events.len(),
{
    if events.len() > 0 {
        events_keep_calibration(state, events.drop_last());
    }
}

/// Whether a frame with measurable eyes gives a reading without a `Nan`; other
/// frames and keys do not matter.
pub open spec fn readable(event: Event) -> bool {
    event matches Event::Frame(mesh) ==> face::eyes_measurable(mesh) ==> {
        let reading = State::reading(mesh);
        &&& reading.ratio_x !is Nan && reading.ratio_y !is Nan
        &&& reading.yaw !is Nan && reading.pitch !is Nan
    }
}

/// With steady calibrations, as every new session has them, a pointer on the
/// screen never leaves it, whatever keys are pressed and whatever readable
/// frames come.
pub proof fn pointer_never_leaves_screen(state: State, events: Seq<Event>)
    requires
        state.wf(),
        has_screen(state),
        on_screen(state),
        steady_calibration(state.eyes),
        steady_calibration(state.head),
        forall|i: int| 0 <= i < events.len() ==> readable(#[trigger] events[i]),
    ensures
        on_screen(after_events(state, events)),
        has_screen(after_events(state, events)),
        after_events(state, events).wf(),
{
    assert forall|i: int| 0 <= i < events.len() implies aims(
        after_events(state, events.take(i)),
        #[trigger] events[i],
    ) by {
        let before = after_events(state, events.take(i));
        events_keep_calibration(state, events.take(i));
        assert(readable(events[i]));
        if let Event::Frame(mesh) = events[i] {
            if face::eyes_measurable(mesh) {
                let reading = State::reading(mesh);
                lemma_reading_single(mesh);
                steady_calibration_aims(reading, before.eyes, before.head, before.invert_x);
                steady_calibration_aims(reading, before.eyes, before.head, before.invert_y);
            }
        }
    }
    aimed_pointer_never_leaves_screen(state, events);
}

/// Only the lowest eight bits of a positive key code matter.
pub proof fn keys_by_lowest_byte(first: int, second: int)
    requires
        first > 0,
        second > 0,
        first % 256 == second % 256,
    ensures
        command_of(first) == command_of(second),
{
}

} // verus!
