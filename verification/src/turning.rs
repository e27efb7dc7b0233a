//! How the pointer follows the eyes and the head: what two frames have to do
//! with one another.

use vstd::arithmetic::power2::*;
use vstd::prelude::*;

use crate::aiming;
use crate::face;
use crate::face::Landmark;
use crate::frames::{reading_of, steerable, steers};
use crate::laws;
use crate::laws::in_unit_range;
use crate::measures;
use crate::motion::far;
use crate::number::Number;
use crate::order;
use crate::pointer;
use crate::session::{reads, State};
use crate::single;
use crate::steering;
use crate::value;
use crate::value::{grain, size};

verus! {

/// The smoothing in force for a frame.
pub open spec fn smoothing(state: State, mesh: Seq<Landmark>) -> Number {
    let r = reading_of(mesh);
    let across = r.aim_x(state.eyes, state.head, state.invert_x).times(state.screen_w);
    let down = r.aim_y(state.eyes, state.head, state.invert_y).times(state.screen_h);
    pointer::active_factor(across.minus(state.x), down.minus(state.y), state.factor)
}

/// Whether two frames steer the same session with the same share of the head
/// and the same smoothing in force.
pub open spec fn comparable(state: State, first: Seq<Landmark>, second: Seq<Landmark>) -> bool {
    &&& steers(state, first) && steers(state, second)
    &&& state.after_frame(first).weight == state.after_frame(second).weight
    &&& smoothing(state, first) == smoothing(state, second)
    &&& first[234].x@ == second[234].x@
    &&& first[454].x@ == second[454].x@
}

/// Across, the pointer depends on the gaze across and on where nose and cheeks
/// stand across: where nose and forehead stand down matters only for the share
/// of the head and for the smoothing in force.
pub proof fn across_ignores_heights(state: State, first: Seq<Landmark>, second: Seq<Landmark>)
    requires
        comparable(state, first, second),
        face::gaze_x(first) == face::gaze_x(second),
        first[1].x@ == second[1].x@,
    ensures
        state.after_frame(first).x == state.after_frame(second).x,
{
}

/// Down, the pointer depends on the gaze down and on where nose and forehead
/// stand down: where the nose stands across matters only for the share of the
/// head and for the smoothing in force.
pub proof fn down_ignores_sideways_turn(state: State, first: Seq<Landmark>, second: Seq<Landmark>)
    requires
        comparable(state, first, second),
        face::gaze_y(first) == face::gaze_y(second),
        first[1].y@ == second[1].y@,
        first[10].y@ == second[10].y@,
    ensures
        state.after_frame(first).y == state.after_frame(second).y,
{
}

/// Mixing keeps order.
proof fn lemma_blended_mono(e1: Number, h1: Number, e2: Number, h2: Number, w: Number)
    requires
        e1.is_single() && h1.is_single() && e2.is_single() && h2.is_single() && w.is_single(),
        in_unit_range(e1) && in_unit_range(h1) && in_unit_range(e2) && in_unit_range(h2),
        in_unit_range(w),
        e1.at_most(e2),
        h1.at_most(h2),
    ensures
        pointer::blended(e1, h1, w).at_most(pointer::blended(e2, h2, w)),
{
    laws::lemma_unit_places();
    let rest = Number::whole(1).minus(w);
    laws::oriented_in_range(w, true);
    order::lemma_place_bounds(w);
    order::lemma_place_bounds(rest);
    order::lemma_times_shrinks(e1, rest);
    order::lemma_times_shrinks(e2, rest);
    order::lemma_times_shrinks(h1, w);
    order::lemma_times_shrinks(h2, w);
    order::lemma_times_mono(e1, e2, rest);
    order::lemma_times_mono(h1, h2, w);
    order::lemma_sum_mono(e1.times(rest), e2.times(rest), h1.times(w), h2.times(w));
}

/// Turning an axis round turns order round.
proof fn lemma_oriented_mono(a: Number, b: Number, inverted: bool)
    requires
        a.is_single() && b.is_single(),
        in_unit_range(a) && in_unit_range(b),
        a.at_most(b),
    ensures
        !inverted ==> pointer::oriented(a, inverted).at_most(pointer::oriented(b, inverted)),
        inverted ==> pointer::oriented(b, inverted).at_most(pointer::oriented(a, inverted)),
{
    laws::lemma_unit_places();
    let one = Number::whole(1);
    if inverted {
        laws::oriented_in_range(a, true);
        laws::oriented_in_range(b, true);
        let (p, q) = (b.negated(), a.negated());
        order::lemma_plus_commutes(one, p);
        order::lemma_plus_commutes(one, q);
        order::lemma_plus_mono(p, q, one);
    }
}

/// A step toward a target further on does not end further back.
proof fn lemma_advanced_mono(x: Number, t: Number, u: Number, active: Number)
    requires
        x.is_single() && t.is_single() && u.is_single() && active.is_single(),
        x is Finite && t is Finite && u is Finite && active is Finite,
        active.place() >= 0,
        t.at_most(u),
        t.minus(x) is Finite,
        u.minus(x) is Finite,
        t.minus(x).times(active) is Finite,
        u.minus(x).times(active) is Finite,
    ensures
        pointer::advanced(x, t, active).at_most(pointer::advanced(x, u, active)),
{
    let (d, e) = (t.minus(x), u.minus(x));
    order::lemma_minus_single(t, x);
    order::lemma_minus_single(u, x);
    order::lemma_minus_mono(t, u, x);
    order::lemma_times_mono(d, e, active);
    let (p, q) = (d.times(active), e.times(active));
    order::lemma_times_single(d, active);
    order::lemma_times_single(e, active);
    order::lemma_plus_place(p, x);
    order::lemma_plus_place(q, x);
    order::lemma_plus_mono(p, q, x);
    order::lemma_plus_commutes(p, x);
    order::lemma_plus_commutes(q, x);
}

/// A nose further right, or further down, is a head turned further.
proof fn lemma_pose_mono(first: Seq<Landmark>, second: Seq<Landmark>)
    requires
        first[234].x@ == second[234].x@,
        first[454].x@ == second[454].x@,
    ensures
        first[1].x@.at_most(second[1].x@) && face::head_yaw(first) !is Nan && face::head_yaw(second)
            !is Nan ==> face::head_yaw(first).at_most(face::head_yaw(second)),
        first[1].y@.at_most(second[1].y@) && first[10].y@ == second[10].y@ && face::head_pitch(first)
            !is Nan && face::head_pitch(second) !is Nan ==> face::head_pitch(first).at_most(
            face::head_pitch(second),
        ),
{
    single::lemma_single_valued(first[1].x);
    single::lemma_single_valued(first[1].y);
    single::lemma_single_valued(second[1].x);
    single::lemma_single_valued(second[1].y);
    single::lemma_single_valued(first[10].y);
    single::lemma_single_valued(first[234].x);
    single::lemma_single_valued(first[454].x);
    let (l, r) = (first[234].x@, first[454].x@);
    let w = r.minus(l).magnitude();
    order::lemma_minus_single(r, l);
    lemma_pow2_pos(277);
    if face::measurable(w) {
        if first[1].x@.at_most(second[1].x@) && face::head_yaw(first) !is Nan && face::head_yaw(
            second,
        ) !is Nan {
            lemma_shifted(first[1].x@, second[1].x@, l, w);
        }
        if first[1].y@.at_most(second[1].y@) && first[10].y@ == second[10].y@ && face::head_pitch(
            first,
        ) !is Nan && face::head_pitch(second) !is Nan {
            lemma_shifted(first[1].y@, second[1].y@, first[10].y@, w);
        }
    }
}

proof fn lemma_shifted(a: Number, b: Number, c: Number, w: Number)
    requires
        a.is_single() && b.is_single() && c.is_single() && w.is_single(),
        w !is Nan && w.place() > 0,
        a.at_most(b),
        a.minus(c).over(w) !is Nan,
        b.minus(c).over(w) !is Nan,
    ensures
        a.minus(c).over(w).at_most(b.minus(c).over(w)),
{
    assert(a.minus(c) !is Nan && b.minus(c) !is Nan) by {
        reveal(Number::over);
    }
    order::lemma_minus_single(a, c);
    order::lemma_minus_single(b, c);
    order::lemma_minus_mono(a, b, c);
    order::lemma_over_mono(a.minus(c), b.minus(c), w);
}

/// Whether the bounds of an axis are in order.
pub open spec fn in_order(low: Number, center: Number, high: Number) -> bool {
    low.at_most(center) && center.at_most(high)
}

/// One axis of two aims with the same share of the head.
proof fn lemma_aim_mono(
    e1: Number,
    e2: Number,
    eye_low: Number,
    eye_center: Number,
    eye_high: Number,
    h1: Number,
    h2: Number,
    low: Number,
    center: Number,
    high: Number,
    inverted: bool,
    w: Number,
)
    requires
        e1.is_single() && e2.is_single() && h1.is_single() && h2.is_single() && w.is_single(),
        eye_low.is_single() && eye_center.is_single() && eye_high.is_single(),
        low.is_single() && center.is_single() && high.is_single(),
        in_order(eye_low, eye_center, eye_high),
        in_order(low, center, high),
        in_unit_range(w),
        e1.at_most(e2),
        !inverted ==> h1.at_most(h2),
        inverted ==> h2.at_most(h1),
        pointer::axis_scaled(e1, eye_low, eye_center, eye_high) !is Nan,
        pointer::axis_scaled(e2, eye_low, eye_center, eye_high) !is Nan,
        pointer::axis_scaled(h1, low, center, high) !is Nan,
        pointer::axis_scaled(h2, low, center, high) !is Nan,
    ensures
        pointer::blended(
            pointer::axis_scaled(e1, eye_low, eye_center, eye_high),
            pointer::oriented(pointer::axis_scaled(h1, low, center, high), inverted),
            w,
        ).at_most(
            pointer::blended(
                pointer::axis_scaled(e2, eye_low, eye_center, eye_high),
                pointer::oriented(pointer::axis_scaled(h2, low, center, high), inverted),
                w,
            ),
        ),
{
    let (a, b) = (
        pointer::axis_scaled(e1, eye_low, eye_center, eye_high),
        pointer::axis_scaled(e2, eye_low, eye_center, eye_high),
    );
    let (c, d) = (
        pointer::axis_scaled(h1, low, center, high),
        pointer::axis_scaled(h2, low, center, high),
    );
    laws::axis_in_range(e1, eye_low, eye_center, eye_high);
    laws::axis_in_range(e2, eye_low, eye_center, eye_high);
    laws::axis_in_range(h1, low, center, high);
    laws::axis_in_range(h2, low, center, high);
    laws::lemma_axis_single(e1, eye_low, eye_center, eye_high);
    laws::lemma_axis_single(e2, eye_low, eye_center, eye_high);
    laws::lemma_axis_single(h1, low, center, high);
    laws::lemma_axis_single(h2, low, center, high);
    laws::axis_monotone(e1, e2, eye_low, eye_center, eye_high);
    if inverted {
        laws::axis_monotone(h2, h1, low, center, high);
        lemma_oriented_mono(d, c, inverted);
    } else {
        laws::axis_monotone(h1, h2, low, center, high);
        lemma_oriented_mono(c, d, inverted);
    }
    laws::oriented_in_range(c, inverted);
    laws::oriented_in_range(d, inverted);
    lemma_blended_mono(
        a,
        pointer::oriented(c, inverted),
        b,
        pointer::oriented(d, inverted),
        w,
    );
}

/// Whether a number is no greater than another, or no less where a switch
/// turns the axis round.
pub open spec fn leads(a: Number, b: Number, inverted: bool) -> bool {
    if inverted {
        b.at_most(a)
    } else {
        a.at_most(b)
    }
}

/// A head turned further right, or eyes that look further right, do not lead
/// the pointer further left; with the axis turned round, a head turned further
/// left does not.
pub proof fn pointer_follows_across(
    state: State,
    first: Seq<Landmark>,
    second: Seq<Landmark>,
    most: real,
)
    requires
        comparable(state, first, second),
        steerable(state, most),
        1real <= most <= far(),
        aiming::moderate_reading(reading_of(first)),
        aiming::moderate_reading(reading_of(second)),
        in_order(state.eyes.left(), state.eyes.c.0@, state.eyes.right()),
        in_order(state.head.left(), state.head.c.0@, state.head.right()),
        face::gaze_x(first).at_most(face::gaze_x(second)),
        leads(first[1].x@, second[1].x@, state.invert_x),
    ensures
        state.after_frame(first).x.at_most(state.after_frame(second).x),
{
    let (r, s) = (reading_of(first), reading_of(second));
    let (eyes, head) = (state.eyes, state.head);
    lemma_readings(state, first, second);
    let w = r.weight(head);
    if state.invert_x {
        lemma_pose_mono(second, first);
    } else {
        lemma_pose_mono(first, second);
    }
    lemma_aim_mono(
        r.ratio_x,
        s.ratio_x,
        eyes.left(),
        eyes.c.0@,
        eyes.right(),
        r.yaw,
        s.yaw,
        head.left(),
        head.c.0@,
        head.right(),
        state.invert_x,
        w,
    );
    lemma_frame_mono(
        state.x,
        r.aim_x(eyes, head, state.invert_x),
        s.aim_x(eyes, head, state.invert_x),
        state.screen_w,
        smoothing(state, first),
        most,
    );
}

/// A head turned further down, or eyes that look further down, do not lead the
/// pointer further up; with the axis turned round, a head turned further up
/// does not.
pub proof fn pointer_follows_down(
    state: State,
    first: Seq<Landmark>,
    second: Seq<Landmark>,
    most: real,
)
    requires
        comparable(state, first, second),
        steerable(state, most),
        1real <= most <= far(),
        aiming::moderate_reading(reading_of(first)),
        aiming::moderate_reading(reading_of(second)),
        in_order(state.eyes.top(), state.eyes.c.1@, state.eyes.bottom()),
        in_order(state.head.top(), state.head.c.1@, state.head.bottom()),
        face::gaze_y(first).at_most(face::gaze_y(second)),
        first[10].y@ == second[10].y@,
        leads(first[1].y@, second[1].y@, state.invert_y),
    ensures
        state.after_frame(first).y.at_most(state.after_frame(second).y),
{
    let (r, s) = (reading_of(first), reading_of(second));
    let (eyes, head) = (state.eyes, state.head);
    lemma_readings(state, first, second);
    let w = r.weight(head);
    if state.invert_y {
        lemma_pose_mono(second, first);
    } else {
        lemma_pose_mono(first, second);
    }
    lemma_aim_mono(
        r.ratio_y,
        s.ratio_y,
        eyes.top(),
        eyes.c.1@,
        eyes.bottom(),
        r.pitch,
        s.pitch,
        head.top(),
        head.c.1@,
        head.bottom(),
        state.invert_y,
        w,
    );
    lemma_frame_mono(
        state.y,
        r.aim_y(eyes, head, state.invert_y),
        s.aim_y(eyes, head, state.invert_y),
        state.screen_h,
        smoothing(state, first),
        most,
    );
}

/// What two comparable frames have in common.
proof fn lemma_readings(state: State, first: Seq<Landmark>, second: Seq<Landmark>)
    requires
        comparable(state, first, second),
        aiming::moderate_reading(reading_of(first)),
        aiming::moderate_reading(reading_of(second)),
        aiming::clear_calibration(state.eyes),
        aiming::clear_calibration(state.head),
        state.factor.is_single() && state.factor is Finite,
        0real <= state.factor.value() <= 1real,
    ensures
        ({
            let (r, s) = (reading_of(first), reading_of(second));
            let (eyes, head) = (state.eyes, state.head);
            let w = r.weight(head);
            &&& laws::reads_singles(r) && laws::reads_singles(s)
            &&& w.is_single() && in_unit_range(w) && s.weight(head) == w
            &&& pointer::axis_scaled(r.ratio_x, eyes.left(), eyes.c.0@, eyes.right()) !is Nan
            &&& pointer::axis_scaled(s.ratio_x, eyes.left(), eyes.c.0@, eyes.right()) !is Nan
            &&& pointer::axis_scaled(r.yaw, head.left(), head.c.0@, head.right()) !is Nan
            &&& pointer::axis_scaled(s.yaw, head.left(), head.c.0@, head.right()) !is Nan
            &&& pointer::axis_scaled(r.ratio_y, eyes.top(), eyes.c.1@, eyes.bottom()) !is Nan
            &&& pointer::axis_scaled(s.ratio_y, eyes.top(), eyes.c.1@, eyes.bottom()) !is Nan
            &&& pointer::axis_scaled(r.pitch, head.top(), head.c.1@, head.bottom()) !is Nan
            &&& pointer::axis_scaled(s.pitch, head.top(), head.c.1@, head.bottom()) !is Nan
            &&& r.aim_x(eyes, head, state.invert_x).is_single() && in_unit_range(
                r.aim_x(eyes, head, state.invert_x),
            )
            &&& s.aim_x(eyes, head, state.invert_x).is_single() && in_unit_range(
                s.aim_x(eyes, head, state.invert_x),
            )
            &&& r.aim_y(eyes, head, state.invert_y).is_single() && in_unit_range(
                r.aim_y(eyes, head, state.invert_y),
            )
            &&& s.aim_y(eyes, head, state.invert_y).is_single() && in_unit_range(
                s.aim_y(eyes, head, state.invert_y),
            )
            &&& smoothing(state, first).is_single() && in_unit_range(smoothing(state, first))
            &&& eyes.c.0@.is_single() && eyes.c.1@.is_single() && head.c.0@.is_single()
            &&& head.c.1@.is_single() && eyes.left().is_single() && eyes.right().is_single()
            &&& eyes.top().is_single() && eyes.bottom().is_single() && head.left().is_single()
            &&& head.right().is_single() && head.top().is_single() && head.bottom().is_single()
        }),
{
    let (r, s) = (reading_of(first), reading_of(second));
    let (eyes, head) = (state.eyes, state.head);
    laws::lemma_unit_places();
    laws::lemma_reading_single(first);
    laws::lemma_reading_single(second);
    laws::lemma_calibration_single(eyes);
    laws::lemma_calibration_single(head);
    laws::face_weight_in_range(r.yaw, r.pitch, head.c.0@, head.c.1@);
    order::lemma_ratio_bounds(1, 10);
    order::lemma_ratio_bounds(85, 100);
    aiming::aims_are_near(r, eyes, head, state.invert_x, state.invert_y);
    aiming::aims_are_near(s, eyes, head, state.invert_x, state.invert_y);
    laws::aim_is_nan(r, eyes, head, state.invert_x);
    laws::aim_is_nan(s, eyes, head, state.invert_x);
    laws::aim_is_nan(r, eyes, head, state.invert_y);
    laws::aim_is_nan(s, eyes, head, state.invert_y);
    aiming::lemma_unit_value(r.aim_x(eyes, head, state.invert_x));
    aiming::lemma_unit_value(s.aim_x(eyes, head, state.invert_x));
    aiming::lemma_unit_value(r.aim_y(eyes, head, state.invert_y));
    aiming::lemma_unit_value(s.aim_y(eyes, head, state.invert_y));
    aiming::lemma_unit_value(state.factor);
    let across = r.aim_x(eyes, head, state.invert_x).times(state.screen_w);
    let down = r.aim_y(eyes, head, state.invert_y).times(state.screen_h);
    laws::active_in_range(across.minus(state.x), down.minus(state.y), state.factor);
}

/// A step toward an aim further on does not end further back.
proof fn lemma_frame_mono(x: Number, a: Number, b: Number, extent: Number, active: Number, most: real)
    requires
        x.is_single() && a.is_single() && b.is_single() && extent.is_single(),
        active.is_single(),
        in_unit_range(a) && in_unit_range(b) && in_unit_range(active),
        x is Finite && size(x.value()) <= most,
        extent is Finite && 0real <= extent.value() <= most,
        1real <= most <= far(),
        a.at_most(b),
    ensures
        pointer::advanced(x, a.times(extent), active).at_most(
            pointer::advanced(x, b.times(extent), active),
        ),
{
    laws::lemma_unit_places();
    value::lemma_wide();
    value::lemma_value_order(extent, Number::zero());
    laws::target_on_screen(a, extent);
    laws::target_on_screen(b, extent);
    let (t, u) = (a.times(extent), b.times(extent));
    order::lemma_place_bounds(extent);
    value::lemma_value_order(t, extent);
    value::lemma_value_order(u, extent);
    value::lemma_value_order(t, Number::zero());
    value::lemma_value_order(u, Number::zero());
    order::lemma_times_mono(a, b, extent);
    value::minus_within(t, x, 2real * most);
    value::minus_within(u, x, 2real * most);
    order::lemma_minus_single(t, x);
    order::lemma_minus_single(u, x);
    order::lemma_times_shrinks(t.minus(x), active);
    order::lemma_times_shrinks(u.minus(x), active);
    lemma_advanced_mono(x, t, u, active);
}

/// A reading in hundredths, taken twice, is the bound that lies between the two.
proof fn lemma_even_bound(a: single::Single, b: single::Single, n: nat)
    requires
        0 < n <= 100,
        a@ == Number::ratio(n, 100),
        b@ == Number::ratio(n, 100),
    ensures
        face::midpoint(a@, b@).value() == Number::ratio(n, 100).value(),
        face::midpoint(a@, b@).place() == Number::ratio(n, 100).place(),
        measures::moderate(face::midpoint(a@, b@)),
        measures::moderate(Number::ratio(n, 100)),
{
    let r = Number::ratio(n, 100);
    value::ratio_is_near(n, 100);
    lemma_hundredth(n);
    value::lemma_wide();
    measures::lemma_moderate();
    measures::lemma_doubled_and_halved(r);
    value::lemma_value_order(face::midpoint(r, r), r);
}

proof fn lemma_hundredth(n: nat)
    requires
        0 < n <= 100,
    ensures
        0real < Number::ratio(n, 100).value() <= 2real,
        size(100real * Number::ratio(n, 100).value() - n as real) <= 100real * grain(),
{
    value::ratio_is_near(n, 100);
    let (v, nr, x, g) = (Number::ratio(n, 100).value(), n as real, n as real / 100real, grain());
    value::lemma_grain(size(v - x), x);
    assert(v <= 2real && -(100real * g) <= 100real * v - nr <= 100real * g) by (nonlinear_arith)
        requires
            x == nr / 100real,
            0real < nr <= 100real,
            -x <= 0x100_0000real * (v - x) <= x,
            g == 1real / 0x100_0000real,
    ;
}

/// Two bounds in hundredths that differ are told apart and in order.
proof fn lemma_hundredths_apart(a: Number, b: Number, m: nat, n: nat)
    requires
        0 < m < n <= 100,
        a !is Nan && b !is Nan,
        a.value() == Number::ratio(m, 100).value(),
        b.value() == Number::ratio(n, 100).value(),
    ensures
        steering::told_apart(a, b),
        a.at_most(b),
{
    lemma_hundredth(m);
    lemma_hundredth(n);
    value::lemma_value_order(a, b);
    let (x, y, p, q, g) = (a.value(), b.value(), m as real, n as real, grain());
    assert(0x80_0000real * (y - x) > 1real + 2real * g && x <= y) by (nonlinear_arith)
        requires
            -(100real * g) <= 100real * x - p <= 100real * g,
            -(100real * g) <= 100real * y - q <= 100real * g,
            q >= p + 1real,
            g == 1real / 0x100_0000real,
    ;
}

/// A calibration whose corners form an upright rectangle round its centre, in
/// hundredths, is clear, and its bounds are in order.
pub proof fn rectangle_is_clear_and_in_order(
    c: pointer::Calibration,
    left: nat,
    right: nat,
    top: nat,
    bottom: nat,
    across: nat,
    down: nat,
)
    requires
        0 < left < across < right <= 100,
        0 < top < down < bottom <= 100,
        reads(c.c, Number::ratio(across, 100), Number::ratio(down, 100)),
        reads(c.tl, Number::ratio(left, 100), Number::ratio(top, 100)),
        reads(c.tr, Number::ratio(right, 100), Number::ratio(top, 100)),
        reads(c.bl, Number::ratio(left, 100), Number::ratio(bottom, 100)),
        reads(c.br, Number::ratio(right, 100), Number::ratio(bottom, 100)),
    ensures
        aiming::clear_calibration(c),
        in_order(c.left(), c.c.0@, c.right()),
        in_order(c.top(), c.c.1@, c.bottom()),
{
    lemma_even_bound(c.tl.0, c.bl.0, left);
    lemma_even_bound(c.tr.0, c.br.0, right);
    lemma_even_bound(c.tl.1, c.tr.1, top);
    lemma_even_bound(c.bl.1, c.br.1, bottom);
    lemma_even_bound(c.c.0, c.c.0, across);
    lemma_even_bound(c.c.1, c.c.1, down);
    lemma_hundredths_apart(c.left(), c.c.0@, left, across);
    lemma_hundredths_apart(c.c.0@, c.right(), across, right);
    lemma_hundredths_apart(c.top(), c.c.1@, top, down);
    lemma_hundredths_apart(c.c.1@, c.bottom(), down, bottom);
}

}
