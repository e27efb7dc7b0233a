//! Where a reading points and where the pointer goes, against the exact
//! arithmetic of real numbers.

use vstd::prelude::*;

use crate::face;
use crate::laws;
use crate::laws::in_unit_range;
use crate::measures;
use crate::measures::moderate;
use crate::number::Number;
use crate::pointer;
use crate::single;
use crate::steering::{
    along_axis, axis_is_piecewise_linear, clear_axis, exact_share, face_weight_is_quadratic,
    into_unit,
};
use crate::value;
use crate::value::{grain, size, speck, wide};

verus! {

/// Turning an axis round, in reals.
pub open spec fn turned(t: real, inverted: bool) -> real {
    if inverted {
        1real - t
    } else {
        t
    }
}

proof fn lemma_oriented_near(x: Number, inverted: bool)
    requires
        x is Finite,
        0real <= x.value() <= 1real,
    ensures
        pointer::oriented(x, inverted) is Finite,
        size(pointer::oriented(x, inverted).value() - turned(x.value(), inverted)) <= grain(),
{
    value::lemma_wide();
    value::lemma_whole_value(1);
    let one = Number::whole(1);
    value::minus_within(one, x, 1real);
    let y = one.minus(x).value() - (1real - x.value());
    value::lemma_grain(size(y), 1real);
}

/// The weighed mean of two positions, computed and exact.
proof fn lemma_blend_near(eye: Number, head: Number, weight: Number)
    requires
        eye is Finite && 0real <= eye.value() <= 1real,
        head is Finite && 0real <= head.value() <= 1real,
        weight is Finite && 0real <= weight.value() <= 1real,
    ensures
        ({
            let b = pointer::blended(eye, head, weight);
            let exact = mixed(eye.value(), head.value(), weight.value());
            b is Finite && -(4real * grain()) <= b.value() - exact <= 4real * grain()
        }),
{
    value::lemma_wide();
    value::lemma_whole_value(1);
    let g = grain();
    let one = Number::whole(1);
    let rest = one.minus(weight);
    value::minus_within(one, weight, 1real - weight.value());
    let (ev, hv, wv, rv) = (eye.value(), head.value(), weight.value(), rest.value());
    let (p, q) = (ev * rv, hv * wv);
    let m = 1real - wv;
    assert(0real <= p && p <= m + g * m && 0real <= q <= wv && ev * m - g * m <= p <= ev * m + g
        * m) by (nonlinear_arith)
        requires
            p == ev * rv,
            q == hv * wv,
            0real <= ev <= 1real,
            0real <= hv <= 1real,
            0real <= wv <= 1real,
            m == 1real - wv,
            -m <= 0x100_0000real * (rv - m) <= m,
            g == 1real / 0x100_0000real,
    ;
    let pm = m + g * m;
    assert(pm <= 2real) by (nonlinear_arith)
        requires
            pm == m + g * m,
            0real <= m <= 1real,
            g == 1real / 0x100_0000real,
    ;
    value::times_within(eye, rest, p, pm);
    value::times_within(head, weight, q, wv);
    let (a, b) = (eye.times(rest), head.times(weight));
    let (av, bv) = (a.value(), b.value());
    let most = 11real / 10real;
    assert(-most <= av + bv <= most) by (nonlinear_arith)
        requires
            -pm <= 0x100_0000real * (av - p + speck()),
            0x100_0000real * (av - p - speck()) <= pm,
            -wv <= 0x100_0000real * (bv - q + speck()),
            0x100_0000real * (bv - q - speck()) <= wv,
            pm == m + g * m,
            m == 1real - wv,
            0real <= wv <= 1real,
            0real <= p <= m + g * m,
            0real <= q <= wv,
            speck() <= g * g,
            g == 1real / 0x100_0000real,
            most == 11real / 10real,
    ;
    value::plus_within(a, b, most);
    let r = pointer::blended(eye, head, weight).value();
    let exact = mixed(ev, hv, wv);
    assert(exact == ev * m + q) by {
        reveal(mixed);
    }
    assert(-(4real * g) <= r - exact <= 4real * g) by (nonlinear_arith)
        requires
            exact == ev * m + q,
            ev * m - g * m <= p <= ev * m + g * m,
            -pm <= 0x100_0000real * (av - p + speck()),
            0x100_0000real * (av - p - speck()) <= pm,
            -wv <= 0x100_0000real * (bv - q + speck()),
            0x100_0000real * (bv - q - speck()) <= wv,
            -most <= 0x100_0000real * (r - (av + bv)) <= most,
            most == 11real / 10real,
            pm == m + g * m,
            m == 1real - wv,
            0real <= wv <= 1real,
            speck() <= g * g,
            g == 1real / 0x100_0000real,
    ;
}

/// Two positions, the second weighed by `share` and the first by the rest.
#[verifier::opaque]
pub open spec fn mixed(first: real, second: real, share: real) -> real {
    first * (1real - share) + second * share
}

proof fn lemma_mixed_difference(e: real, e0: real, h: real, h0: real, w: real, w0: real) -> (r: (
    real,
    real,
    real,
))
    ensures
        mixed(e, h, w) - mixed(e0, h0, w0) == r.0 + r.1 + r.2,
        r.0 == (1real - w) * (e - e0),
        r.1 == w * (h - h0),
        r.2 == (h0 - e0) * (w - w0),
{
    reveal(mixed);
    lemma_distributes(1real - w, e, e0);
    lemma_distributes(e, 1real, w);
    lemma_distributes(e0, 1real, w);
    lemma_distributes(e0, 1real, w0);
    lemma_distributes(w, h, h0);
    lemma_distributes(h0 - e0, w, w0);
    lemma_distributes(w, h0, e0);
    lemma_distributes(w0, h0, e0);
    ((1real - w) * (e - e0), w * (h - h0), (h0 - e0) * (w - w0))
}

proof fn lemma_distributes(a: real, b: real, c: real)
    ensures
        a * (b - c) == a * b - a * c,
        (b - c) * a == a * b - a * c,
        a * b == b * a,
        a * c == c * a,
{
    assert(a * (b - c) == a * b - a * c && (b - c) * a == a * b - a * c && a * b == b * a && a * c
        == c * a) by (nonlinear_arith);
}

/// Two positions and a share that each err a little, mixed.
proof fn lemma_mixed_shift(e: real, e0: real, h: real, h0: real, w: real, w0: real)
    requires
        0real <= e0 <= 1real && 0real <= h0 <= 1real,
        0real <= w <= 1real,
        -(6real * grain()) <= e - e0 <= 6real * grain(),
        -(7real * grain()) <= h - h0 <= 7real * grain(),
        -(32real * grain()) <= w - w0 <= 32real * grain(),
    ensures
        -(45real * grain()) <= mixed(e, h, w) - mixed(e0, h0, w0) <= 45real * grain(),
{
    let g = grain();
    let (p, q, s) = lemma_mixed_difference(e, e0, h, h0, w, w0);
    lemma_scaled(1real - w, e - e0, p, 6real * g);
    lemma_scaled(w, h - h0, q, 7real * g);
    lemma_scaled(h0 - e0, w - w0, s, 32real * g);
}

/// Scaling by at most one does not enlarge.
proof fn lemma_scaled(x: real, y: real, p: real, most: real)
    requires
        p == x * y,
        -1real <= x <= 1real,
        -most <= y <= most,
    ensures
        -most <= p <= most,
{
    if y >= 0real {
        assert(-y <= p <= y) by (nonlinear_arith)
            requires
                p == x * y,
                -1real <= x <= 1real,
                y >= 0real,
        ;
    } else {
        assert(y <= p <= -y) by (nonlinear_arith)
            requires
                p == x * y,
                -1real <= x <= 1real,
                y <= 0real,
        ;
    }
}

/// Where the user points on one axis, exactly: the eyes' position and the
/// head's, weighed by the share of the head.
pub open spec fn exact_aim(eye: real, head: real, inverted: bool, share: real) -> real {
    mixed(eye, turned(head, inverted), share)
}

proof fn lemma_turned_near(p: real, p0: real, h: real, inverted: bool)
    requires
        size(p - p0) <= 6real * grain(),
        size(h - turned(p, inverted)) <= grain(),
    ensures
        size(h - turned(p0, inverted)) <= 7real * grain(),
{
}

/// One axis of an aim.
proof fn lemma_aim_near(
    eye: Number,
    eye_low: Number,
    eye_center: Number,
    eye_high: Number,
    head: Number,
    head_low: Number,
    head_center: Number,
    head_high: Number,
    inverted: bool,
    weight: Number,
    share: real,
)
    requires
        eye.is_single() && eye_low.is_single() && eye_center.is_single() && eye_high.is_single(),
        head.is_single() && head_low.is_single() && head_center.is_single()
            && head_high.is_single(),
        weight.is_single() && weight is Finite && 0real <= weight.value() <= 1real,
        moderate(eye) && moderate(head),
        clear_axis(eye_low, eye_center, eye_high),
        clear_axis(head_low, head_center, head_high),
        0real <= share <= 1real,
        size(weight.value() - share) <= 32real * grain(),
    ensures
        ({
            let aim = pointer::blended(
                pointer::axis_scaled(eye, eye_low, eye_center, eye_high),
                pointer::oriented(
                    pointer::axis_scaled(head, head_low, head_center, head_high),
                    inverted,
                ),
                weight,
            );
            let exact = exact_aim(
                along_axis(eye, eye_low, eye_center, eye_high),
                along_axis(head, head_low, head_center, head_high),
                inverted,
                share,
            );
            &&& aim is Finite
            &&& aim.is_single()
            &&& in_unit_range(aim)
            &&& 0real <= aim.value() <= 1real
            &&& size(aim.value() - exact) <= 50real * grain()
        }),
{
    value::lemma_whole_value(1);
    laws::lemma_unit_places();
    let (e, p) = (
        pointer::axis_scaled(eye, eye_low, eye_center, eye_high),
        pointer::axis_scaled(head, head_low, head_center, head_high),
    );
    let (e0, p0) = (
        along_axis(eye, eye_low, eye_center, eye_high),
        along_axis(head, head_low, head_center, head_high),
    );
    axis_is_piecewise_linear(eye, eye_low, eye_center, eye_high);
    axis_is_piecewise_linear(head, head_low, head_center, head_high);
    laws::axis_in_range(eye, eye_low, eye_center, eye_high);
    laws::axis_in_range(head, head_low, head_center, head_high);
    laws::lemma_axis_single(eye, eye_low, eye_center, eye_high);
    laws::lemma_axis_single(head, head_low, head_center, head_high);
    lemma_unit_value(e);
    lemma_unit_value(p);
    let h = pointer::oriented(p, inverted);
    laws::oriented_in_range(p, inverted);
    lemma_oriented_near(p, inverted);
    lemma_unit_value(h);
    lemma_unit_value(weight);
    let h0 = turned(p0, inverted);
    let g = grain();
    lemma_turned_near(p.value(), p0, h.value(), inverted);
    lemma_blend_near(e, h, weight);
    let b = pointer::blended(e, h, weight);
    lemma_mixed_shift(e.value(), e0, h.value(), h0, weight.value(), share);
    laws::blended_in_range(e, h, weight);
    lemma_unit_value(b);
    value::lemma_size(b.value() - exact_aim(e0, p0, inverted, share), 50real * g);
}

/// The range from zero to one, in reals.
pub proof fn lemma_unit_value(x: Number)
    ensures
        x is Finite && x.is_single() ==> (in_unit_range(x) <==> 0real <= x.value() <= 1real),
{
    value::lemma_whole_value(1);
    value::lemma_value_order(x, Number::whole(1));
    value::lemma_value_order(x, Number::zero());
}

/// Whether the axes of a calibration are clear, across and down.
pub open spec fn clear_calibration(c: pointer::Calibration) -> bool {
    &&& clear_axis(c.left(), c.c.0@, c.right())
    &&& clear_axis(c.top(), c.c.1@, c.bottom())
}

/// Whether a reading is moderate.
pub open spec fn moderate_reading(r: pointer::Reading) -> bool {
    &&& moderate(r.ratio_x) && moderate(r.ratio_y)
    &&& moderate(r.yaw) && moderate(r.pitch)
}

/// The exact share of the head for a reading.
pub open spec fn share_of(r: pointer::Reading, head: pointer::Calibration) -> real {
    exact_share(r.yaw.value() - head.c.0@.value(), r.pitch.value() - head.c.1@.value())
}

/// Where a reading points, across and down, exactly.
pub open spec fn exact_aims(
    r: pointer::Reading,
    eyes: pointer::Calibration,
    head: pointer::Calibration,
    invert_x: bool,
    invert_y: bool,
) -> (real, real) {
    (
        exact_aim(
            along_axis(r.ratio_x, eyes.left(), eyes.c.0@, eyes.right()),
            along_axis(r.yaw, head.left(), head.c.0@, head.right()),
            invert_x,
            share_of(r, head),
        ),
        exact_aim(
            along_axis(r.ratio_y, eyes.top(), eyes.c.1@, eyes.bottom()),
            along_axis(r.pitch, head.top(), head.c.1@, head.bottom()),
            invert_y,
            share_of(r, head),
        ),
    )
}

/// A reading points where exact arithmetic has it point, but for 50 grains:
/// the eyes' place across and the head's yaw lead across, the eyes' place down
/// and the head's pitch lead down.
pub proof fn aims_are_near(
    r: pointer::Reading,
    eyes: pointer::Calibration,
    head: pointer::Calibration,
    invert_x: bool,
    invert_y: bool,
)
    requires
        laws::reads_singles(r),
        moderate_reading(r),
        clear_calibration(eyes),
        clear_calibration(head),
    ensures
        ({
            let (aim_x, aim_y) = (r.aim_x(eyes, head, invert_x), r.aim_y(eyes, head, invert_y));
            let (x, y) = exact_aims(r, eyes, head, invert_x, invert_y);
            &&& aim_x is Finite && aim_x.is_single() && 0real <= aim_x.value() <= 1real
            &&& aim_y is Finite && aim_y.is_single() && 0real <= aim_y.value() <= 1real
            &&& size(aim_x.value() - x) <= 50real * grain()
            &&& size(aim_y.value() - y) <= 50real * grain()
            &&& 0real <= x <= 1real && 0real <= y <= 1real
        }),
        r.weight(head) is Finite,
        size(r.weight(head).value() - share_of(r, head)) <= 32real * grain(),
{
    laws::lemma_calibration_single(eyes);
    laws::lemma_calibration_single(head);
    face_weight_is_quadratic(r.yaw, r.pitch, head.c.0@, head.c.1@);
    laws::face_weight_in_range(r.yaw, r.pitch, head.c.0@, head.c.1@);
    let w = r.weight(head);
    let share = share_of(r, head);
    value::ratio_is_near(1, 10);
    value::ratio_is_near(85, 100);
    value::lemma_value_order(Number::ratio(1, 10), w);
    value::lemma_value_order(w, Number::ratio(85, 100));
    value::lemma_grain(
        size(Number::ratio(85, 100).value() - 85real / 100real),
        85real / 100real,
    );
    let (dx, dy) = (r.yaw.value() - head.c.0@.value(), r.pitch.value() - head.c.1@.value());
    let u = into_unit((dx * dx + dy * dy) / (64real / 10000real));
    assert(0real <= share <= 1real) by (nonlinear_arith)
        requires
            share == 1real / 10real + 3real / 4real * u,
            0real <= u <= 1real,
    ;
    lemma_aim_near(
        r.ratio_x,
        eyes.left(),
        eyes.c.0@,
        eyes.right(),
        r.yaw,
        head.left(),
        head.c.0@,
        head.right(),
        invert_x,
        w,
        share,
    );
    lemma_aim_near(
        r.ratio_y,
        eyes.top(),
        eyes.c.1@,
        eyes.bottom(),
        r.pitch,
        head.top(),
        head.c.1@,
        head.bottom(),
        invert_y,
        w,
        share,
    );
    let (e, h) = (
        along_axis(r.ratio_x, eyes.left(), eyes.c.0@, eyes.right()),
        along_axis(r.yaw, head.left(), head.c.0@, head.right()),
    );
    lemma_convex(e, turned(h, invert_x), share);
    let (e, h) = (
        along_axis(r.ratio_y, eyes.top(), eyes.c.1@, eyes.bottom()),
        along_axis(r.pitch, head.top(), head.c.1@, head.bottom()),
    );
    lemma_convex(e, turned(h, invert_y), share);
}

proof fn lemma_convex(a: real, b: real, t: real)
    requires
        0real <= a <= 1real,
        0real <= b <= 1real,
        0real <= t <= 1real,
    ensures
        0real <= mixed(a, b, t) <= 1real,
{
    reveal(mixed);
    let (x, y, r) = (a * (1real - t), b * t, 1real - t);
    assert(0real <= x <= r) by (nonlinear_arith)
        requires
            x == a * r,
            0real <= a <= 1real,
            r >= 0real,
    ;
    assert(0real <= y <= t) by (nonlinear_arith)
        requires
            y == b * t,
            0real <= b <= 1real,
            t >= 0real,
    ;
}

/// The bounds of a calibration are the means of the readings at its corners:
/// left and right of those across, top and bottom of those down.
pub proof fn calibration_bounds_are_means(c: pointer::Calibration)
    ensures
        measures::lies_half_way(c.left(), c.tl.0@, c.bl.0@),
        measures::lies_half_way(c.right(), c.tr.0@, c.br.0@),
        measures::lies_half_way(c.top(), c.tl.1@, c.tr.1@),
        measures::lies_half_way(c.bottom(), c.bl.1@, c.br.1@),
{
    lemma_bound(c.tl.0, c.bl.0);
    lemma_bound(c.tr.0, c.br.0);
    lemma_bound(c.tl.1, c.tr.1);
    lemma_bound(c.bl.1, c.br.1);
}

proof fn lemma_bound(a: single::Single, b: single::Single)
    ensures
        measures::lies_half_way(face::midpoint(a@, b@), a@, b@),
{
    single::lemma_single_valued(a);
    single::lemma_single_valued(b);
    if a@ is Finite && b@ is Finite && size(a@.value()) <= wide() && size(b@.value()) <= wide() {
        measures::midpoint_is_near(a@, b@);
        measures::midpoint_lies_between(a@, b@);
    }
}

}
