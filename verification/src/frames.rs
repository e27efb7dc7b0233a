//! What a frame does to a session, stated on the points of its mesh.

use vstd::prelude::*;

use crate::aiming;
use crate::face;
use crate::face::Landmark;
use crate::laws;
use crate::measures;
use crate::measures::{same_across, same_down};
use crate::motion;
use crate::motion::{apart_squared, far, toward, whole_part};
use crate::number::Number;
use crate::order;
use crate::pointer;
use crate::session::{Action, State};
use crate::value;
use crate::value::{grain, size, speck};

verus! {

/// Whether a frame steers the pointer: both eyes can be measured, the left one
/// is not shut, and all eleven stages are through.
pub open spec fn steers(state: State, mesh: Seq<Landmark>) -> bool {
    &&& face::eyes_measurable(mesh)
    &&& !face::left_eye_height(mesh).less(state.blink_threshold)
    &&& state.stage >= 11
}

/// A frame that does not steer leaves the session as it is; one that does
/// changes the pointer and the share of the head that is shown, and nothing
/// else.
pub proof fn frame_changes_pointer_only(state: State, mesh: Seq<Landmark>)
    ensures
        !steers(state, mesh) ==> state.after_frame(mesh) == state,
        ({
            let next = state.after_frame(mesh);
            state.after_frame(mesh) == (State { x: next.x, y: next.y, weight: next.weight, ..state })
        }),
{
}

/// A frame clicks exactly where both eyes can be measured and the left one
/// stands open by less than the threshold, at every stage and with every switch.
pub proof fn frame_clicks_on_blink(state: State, mesh: Seq<Landmark>)
    ensures
        ({
            let blink = face::eyes_measurable(mesh) && face::left_eye_height(mesh).less(
                state.blink_threshold,
            );
            &&& state.action_of_frame(mesh) is Click <==> blink
            &&& state.action_of_frame(mesh) matches Action::Click { pause_ms } ==> pause_ms == 500
        }),
{
}

/// Where two meshes have the lids of the left eye and the corners of both eyes
/// at the same places, either both click or neither.
pub proof fn blink_by_points(state: State, first: Seq<Landmark>, second: Seq<Landmark>)
    requires
        first[145].y@ == second[145].y@ && first[159].y@ == second[159].y@,
        first[33].x@ == second[33].x@ && first[133].x@ == second[133].x@,
        first[362].x@ == second[362].x@ && first[263].x@ == second[263].x@,
    ensures
        state.action_of_frame(first) is Click <==> state.action_of_frame(second) is Click,
        steers(state, first) <==> steers(state, second),
{
}

/// A frame that does not click moves the mouse exactly where the whole part of
/// either coordinate of the pointer changes, and then to the new whole parts.
pub proof fn frame_moves_mouse_with_pointer(
    state: State,
    mesh: Seq<Landmark>,
    from_x: int,
    from_y: int,
    to_x: int,
    to_y: int,
)
    requires
        state.x.is_single() && state.y.is_single(),
        state.screen_w.is_single() && state.screen_h.is_single(),
        state.factor.is_single(),
        whole_part(state.x, from_x),
        whole_part(state.y, from_y),
        whole_part(state.after_frame(mesh).x, to_x),
        whole_part(state.after_frame(mesh).y, to_y),
    ensures
        state.action_of_frame(mesh) matches Action::Show { move_to } ==> {
            &&& move_to is Some <==> to_x != from_x || to_y != from_y
            &&& move_to matches Some((x, y)) ==> x == to_x && y == to_y
        },
{
    let next = state.after_frame(mesh);
    lemma_frame_single(state, mesh);
    motion::mouse_moves_to_changed_pixel(
        state.x,
        state.y,
        next.x,
        next.y,
        from_x,
        from_y,
        to_x,
        to_y,
    );
}

/// Pointers stay single precision numbers.
proof fn lemma_frame_single(state: State, mesh: Seq<Landmark>)
    requires
        state.x.is_single() && state.y.is_single(),
        state.screen_w.is_single() && state.screen_h.is_single(),
        state.factor.is_single(),
    ensures
        state.after_frame(mesh).x.is_single(),
        state.after_frame(mesh).y.is_single(),
{
    let reading = State::reading(mesh);
    laws::lemma_reading_single(mesh);
    let (eyes, head) = (state.eyes, state.head);
    laws::aim_in_range(reading, eyes, head, state.invert_x);
    laws::aim_in_range(reading, eyes, head, state.invert_y);
    let (ax, ay) = (
        reading.aim_x(eyes, head, state.invert_x),
        reading.aim_y(eyes, head, state.invert_y),
    );
    order::lemma_times_single(ax, state.screen_w);
    order::lemma_times_single(ay, state.screen_h);
    let (tx, ty) = (ax.times(state.screen_w), ay.times(state.screen_h));
    order::lemma_minus_single(tx, state.x);
    order::lemma_minus_single(ty, state.y);
    order::lemma_ratio_bounds(1, 10);
    order::lemma_times_single(state.factor, Number::ratio(1, 10));
    let active = pointer::active_factor(tx.minus(state.x), ty.minus(state.y), state.factor);
    order::lemma_times_single(tx.minus(state.x), active);
    order::lemma_times_single(ty.minus(state.y), active);
    order::lemma_plus_single(state.x, tx.minus(state.x).times(active));
    order::lemma_plus_single(state.y, ty.minus(state.y).times(active));
}

/// The reading that the points of a mesh give: the eyes across and down, and
/// the head's turn across and down.
pub open spec fn reading_of(mesh: Seq<Landmark>) -> pointer::Reading {
    pointer::Reading {
        ratio_x: face::gaze_x(mesh),
        ratio_y: face::gaze_y(mesh),
        yaw: face::head_yaw(mesh),
        pitch: face::head_pitch(mesh),
    }
}

/// Moving a target by little keeps a distance within bounds.
proof fn lemma_distance_shift(
    x: real,
    y: real,
    tx: real,
    ty: real,
    ux: real,
    uy: real,
    shift: real,
    reach: real,
)
    requires
        -shift <= ux - tx <= shift,
        -shift <= uy - ty <= shift,
        reach >= 0real,
        apart_squared(x, y, tx, ty) <= reach * reach,
    ensures
        apart_squared(x, y, ux, uy) <= (reach + 2real * shift) * (reach + 2real * shift),
{
    reveal(apart_squared);
    let (dx, dy, ex, ey) = (tx - x, ty - y, ux - tx, uy - ty);
    let (px, py, rr) = (dx * dx, dy * dy, reach * reach);
    assert(px >= 0real && py >= 0real) by (nonlinear_arith)
        requires
            px == dx * dx,
            py == dy * dy,
    ;
    lemma_root_bound(dx, px, reach, rr);
    lemma_root_bound(dy, py, reach, rr);
    lemma_shifted_square(dx, ex, reach, shift);
    lemma_shifted_square(dy, ey, reach, shift);
    let (fx, fy) = (ux - x, uy - y);
    let (qx, qy) = (fx * fx, fy * fy);
    let (rs, ss) = (reach * shift, shift * shift);
    let total = reach + 2real * shift;
    assert(total * total == rr + 4real * rs + 4real * ss) by (nonlinear_arith)
        requires
            total == reach + 2real * shift,
            rr == reach * reach,
            rs == reach * shift,
            ss == shift * shift,
    ;
    assert(ss >= 0real) by (nonlinear_arith)
        requires
            ss == shift * shift,
    ;
    assert(qx <= px + 2real * rs + ss);
    assert(qy <= py + 2real * rs + ss);
}

proof fn lemma_root_bound(d: real, p: real, reach: real, rr: real)
    requires
        p == d * d,
        rr == reach * reach,
        reach >= 0real,
        p <= rr,
    ensures
        -reach <= d <= reach,
{
    assert(-reach <= d <= reach) by (nonlinear_arith)
        requires
            d * d <= reach * reach,
            reach >= 0real,
    ;
}

proof fn lemma_shifted_square(d: real, e: real, reach: real, shift: real)
    requires
        -reach <= d <= reach,
        -shift <= e <= shift,
    ensures
        (d + e) * (d + e) <= d * d + 2real * (reach * shift) + shift * shift,
{
    let (p, q) = (d * e, e * e);
    motion::lemma_bounded_product(d, e, p, reach, shift);
    motion::lemma_bounded_product(e, e, q, shift, shift);
    assert((d + e) * (d + e) == d * d + 2real * p + q) by (nonlinear_arith)
        requires
            p == d * e,
            q == e * e,
    ;
}

/// A target, computed and exact.
proof fn lemma_target(aim: Number, exact: real, extent: Number, most: real)
    requires
        aim.is_single() && aim is Finite && 0real <= aim.value() <= 1real,
        size(aim.value() - exact) <= 50real * grain(),
        extent.is_single() && extent is Finite && 0real <= extent.value() <= most,
        1real <= most <= far(),
    ensures
        ({
            let t = aim.times(extent);
            &&& t is Finite && t.is_single() && size(t.value()) <= most
            &&& -(52real * (most * grain())) <= t.value() - toward(0real, extent.value(), exact)
            &&& t.value() - toward(0real, extent.value(), exact) <= 52real * (most * grain())
        }),
{
    value::lemma_wide();
    let (g, m) = (grain(), most);
    let (av, ev) = (aim.value(), extent.value());
    let t = aim.times(extent);
    let p = av * ev;
    motion::lemma_bounded_product(av, ev, p, 1real, m);
    value::times_within(aim, extent, p, m);
    order::lemma_times_single(aim, extent);
    laws::lemma_unit_places();
    value::lemma_whole_value(1);
    value::lemma_value_order(aim, Number::whole(1));
    value::lemma_value_order(aim, Number::zero());
    value::lemma_value_order(extent, Number::zero());
    laws::target_on_screen(aim, extent);
    value::lemma_value_order(t, extent);
    value::lemma_value_order(t, Number::zero());
    let (q, d) = (ev * exact, (av - exact) * ev);
    assert(toward(0real, ev, exact) == q) by {
        reveal(toward);
    }
    assert(d == p - q) by (nonlinear_arith)
        requires
            d == (av - exact) * ev,
            p == av * ev,
            q == ev * exact,
    ;
    motion::lemma_bounded_product(av - exact, ev, d, 50real * g, m);
    lemma_target_total(t.value(), p, q, d, m, m * g, 50real * g * m);
}

proof fn lemma_target_total(t: real, p: real, q: real, d: real, m: real, mg: real, k: real)
    requires
        m >= 1real,
        mg == m * grain(),
        k == 50real * grain() * m,
        d == p - q,
        -k <= d <= k,
        -m <= 0x100_0000real * (t - p + speck()),
        0x100_0000real * (t - p - speck()) <= m,
        speck() <= grain() * grain(),
    ensures
        -(52real * mg) <= t - q <= 52real * mg,
{
    let g = grain();
    assert(k == 50real * mg) by (nonlinear_arith)
        requires
            k == 50real * g * m,
            mg == m * g,
    ;
    assert(speck() <= mg && m == 0x100_0000real * mg) by (nonlinear_arith)
        requires
            speck() <= g * g,
            mg == m * g,
            m >= 1real,
            g == 1real / 0x100_0000real,
    ;
}

/// Where on the screen a mesh points, exactly.
pub open spec fn exact_target(state: State, mesh: Seq<Landmark>) -> (real, real) {
    let (across, down) = aiming::exact_aims(
        reading_of(mesh),
        state.eyes,
        state.head,
        state.invert_x,
        state.invert_y,
    );
    (
        toward(0real, state.screen_w.value(), across),
        toward(0real, state.screen_h.value(), down),
    )
}

/// Whether a pointer went the given part of the way to a target, but for 64
/// grains of the largest coordinate.
pub open spec fn went(state: State, next: State, target: (real, real), part: real, most: real) -> bool {
    &&& next.x is Finite && next.y is Finite
    &&& size(next.x.value() - toward(state.x.value(), target.0, part)) <= 64real * grain() * most
    &&& size(next.y.value() - toward(state.y.value(), target.1, part)) <= 64real * grain() * most
}

/// What the law on frames asks of a session: a screen and a pointer of
/// coordinates up to `most`, clear calibrations and a smoothing up to one.
pub open spec fn steerable(state: State, most: real) -> bool {
    &&& state.x.is_single() && state.x is Finite && size(state.x.value()) <= most
    &&& state.y.is_single() && state.y is Finite && size(state.y.value()) <= most
    &&& state.screen_w.is_single() && state.screen_w is Finite
    &&& 0real <= state.screen_w.value() <= most
    &&& state.screen_h.is_single() && state.screen_h is Finite
    &&& 0real <= state.screen_h.value() <= most
    &&& state.factor.is_single() && state.factor is Finite
    &&& 0real <= state.factor.value() <= 1real
    &&& aiming::clear_calibration(state.eyes)
    &&& aiming::clear_calibration(state.head)
}

/// A frame that steers leads the pointer toward where the eyes and the head
/// point, across and down: by the smoothing, or by a tenth of it within 25
/// pixels of the target, up to rounding. The share of the head that is shown
/// is the one that was used.
pub proof fn frame_leads_toward_target(state: State, mesh: Seq<Landmark>, most: real)
    requires
        steers(state, mesh),
        steerable(state, most),
        16real <= most <= far(),
        256real * (most * grain()) <= 25real,
        aiming::moderate_reading(reading_of(mesh)),
    ensures
        ({
            let next = state.after_frame(mesh);
            let target = exact_target(state, mesh);
            let factor = state.factor.value();
            let hair = 256real * (most * grain());
            let squared = apart_squared(
                state.x.value(),
                state.y.value(),
                target.0,
                target.1,
            );
            &&& went(state, next, target, factor, most) || went(
                state,
                next,
                target,
                factor / 10real,
                most,
            )
            &&& squared <= (25real - hair) * (25real - hair) ==> went(
                state,
                next,
                target,
                factor / 10real,
                most,
            )
            &&& squared > (25real + hair) * (25real + hair) ==> went(
                state,
                next,
                target,
                factor,
                most,
            )
            &&& next.weight is Finite
            &&& size(
                next.weight.value() - aiming::share_of(reading_of(mesh), state.head),
            ) <= 32real * grain()
        }),
{
    let (g, m) = (grain(), most);
    let r = reading_of(mesh);
    laws::lemma_reading_single(mesh);
    aiming::aims_are_near(r, state.eyes, state.head, state.invert_x, state.invert_y);
    let (ax, ay) = aiming::exact_aims(r, state.eyes, state.head, state.invert_x, state.invert_y);
    let (px, py) = (
        r.aim_x(state.eyes, state.head, state.invert_x),
        r.aim_y(state.eyes, state.head, state.invert_y),
    );
    lemma_target(px, ax, state.screen_w, m);
    lemma_target(py, ay, state.screen_h, m);
    let (tx, ty) = (px.times(state.screen_w), py.times(state.screen_h));
    let (ux, uy) = exact_target(state, mesh);
    let f = state.factor.value();
    motion::smoothing_drops_near_target(state.x, state.y, tx, ty, state.factor);
    let active = pointer::active_factor(tx.minus(state.x), ty.minus(state.y), state.factor);
    let (xv, yv) = (state.x.value(), state.y.value());
    let hair = 256real * (m * g);
    let shift = 52real * (m * g);
    let close = apart_squared(xv, yv, tx.value(), ty.value());
    let squared = apart_squared(xv, yv, ux, uy);
    if squared <= (25real - hair) * (25real - hair) {
        lemma_distance_shift(xv, yv, ux, uy, tx.value(), ty.value(), shift, 25real - hair);
        lemma_inside(m, m * g, hair, shift, close);
    }
    if squared > (25real + hair) * (25real + hair) {
        let reach = 25real + hair - 2real * shift;
        lemma_outside_reach(m, m * g, hair, shift, reach);
        if close <= reach * reach {
            lemma_distance_shift(xv, yv, tx.value(), ty.value(), ux, uy, shift, reach);
            assert(reach + 2real * shift == 25real + hair);
            assert((reach + 2real * shift) * (reach + 2real * shift) == (25real + hair) * (25real
                + hair));
        }
    }
    lemma_part(f);
    lemma_active_range(tx.minus(state.x), ty.minus(state.y), state.factor);
    if active == state.factor {
        lemma_went(state.x, tx, active, f, m, ux);
        lemma_went(state.y, ty, active, f, m, uy);
    }
    if size(active.value() - f / 10real) <= g {
        lemma_went(state.x, tx, active, f / 10real, m, ux);
        lemma_went(state.y, ty, active, f / 10real, m, uy);
    }
}

proof fn lemma_part(f: real)
    requires
        0real <= f <= 1real,
    ensures
        0real <= f / 10real <= 1real,
{
    assert(0real <= f / 10real <= 1real) by (nonlinear_arith)
        requires
            0real <= f <= 1real,
    ;
}

proof fn lemma_active_range(dx: Number, dy: Number, factor: Number)
    requires
        factor.is_single() && factor is Finite,
        0real <= factor.value() <= 1real,
    ensures
        ({
            let active = pointer::active_factor(dx, dy, factor);
            active is Finite && 0real <= active.value() <= 1real
        }),
{
    let active = pointer::active_factor(dx, dy, factor);
    aiming::lemma_unit_value(factor);
    laws::active_in_range(dx, dy, factor);
    laws::lemma_unit_places();
    aiming::lemma_unit_value(active);
}

/// One coordinate of a step, against the exact target.
proof fn lemma_went(x: Number, t: Number, active: Number, part: real, most: real, target: real)
    requires
        x is Finite && size(x.value()) <= most,
        t is Finite && size(t.value()) <= most,
        1real <= most <= far(),
        active is Finite && 0real <= active.value() <= 1real,
        0real <= part <= 1real,
        size(active.value() - part) <= grain(),
        -(52real * (most * grain())) <= t.value() - target <= 52real * (most * grain()),
    ensures
        pointer::advanced(x, t, active) is Finite,
        size(pointer::advanced(x, t, active).value() - toward(x.value(), target, part)) <= 64real
            * grain() * most,
{
    let (g, m) = (grain(), most);
    motion::step_is_near(x, t, active, part, m);
    motion::lemma_toward_shift(
        x.value(),
        t.value(),
        part,
        target,
        part,
        52real * (m * g),
        2real * m,
    );
    let (a, b, c) = (8real * g * m, 2real * m * g, 64real * g * m);
    assert(a == 8real * (m * g) && b == 2real * (m * g) && c == 64real * (m * g) && m * g >= 0real)
        by (nonlinear_arith)
        requires
            a == 8real * g * m,
            b == 2real * m * g,
            c == 64real * g * m,
            m >= 1real,
            g == 1real / 0x100_0000real,
    ;
}

/// Well within 25 pixels of the exact target the computed one is within, too.
proof fn lemma_inside(m: real, mg: real, hair: real, shift: real, close: real)
    requires
        m >= 16real,
        mg == m * grain(),
        hair == 256real * mg,
        hair <= 25real,
        shift == 52real * mg,
        close <= (25real - hair + 2real * shift) * (25real - hair + 2real * shift),
    ensures
        close <= 625real * (1real - 16real * grain()),
{
    let g = grain();
    let z = 152real * mg;
    assert(25real - hair + 2real * shift == 25real - z);
    assert(z >= 152real * 16real * g && z <= 25real) by (nonlinear_arith)
        requires
            z == 152real * mg,
            mg == m * g,
            m >= 16real,
            256real * mg <= 25real,
            g == 1real / 0x100_0000real,
    ;
    assert((25real - z) * (25real - z) <= 625real * (1real - 16real * g)) by (nonlinear_arith)
        requires
            z >= 152real * 16real * g,
            z <= 25real,
            g == 1real / 0x100_0000real,
    ;
    assert((25real - hair + 2real * shift) * (25real - hair + 2real * shift) == (25real - z)
        * (25real - z));
}

/// Well beyond 25 pixels of the exact target the computed one is beyond, too.
proof fn lemma_outside_reach(m: real, mg: real, hair: real, shift: real, reach: real)
    requires
        m >= 16real,
        mg == m * grain(),
        hair == 256real * mg,
        shift == 52real * mg,
        reach == 25real + hair - 2real * shift,
    ensures
        reach >= 0real,
        reach * reach >= 625real * (1real + 16real * grain()),
{
    let g = grain();
    let z = 152real * mg;
    assert(reach == 25real + z);
    assert(z >= 152real * 16real * g) by (nonlinear_arith)
        requires
            z == 152real * mg,
            mg == m * g,
            m >= 16real,
            g == 1real / 0x100_0000real,
    ;
    assert(reach >= 0real && reach * reach >= 625real * (1real + 16real * g)) by (nonlinear_arith)
        requires
            reach == 25real + z,
            z >= 152real * 16real * g,
            g == 1real / 0x100_0000real,
    ;
}

/// A head whose turn across or down is `Nan` gets the full share.
pub proof fn face_weight_of_nan(
    yaw: Number,
    pitch: Number,
    center_yaw: Number,
    center_pitch: Number,
)
    requires
        yaw is Nan || pitch is Nan || center_yaw is Nan || center_pitch is Nan,
    ensures
        pointer::face_weight(yaw, pitch, center_yaw, center_pitch) == Number::ratio(85, 100),
{
    let (dx, dy) = (
        yaw.minus(center_yaw).magnitude(),
        pitch.minus(center_pitch).magnitude(),
    );
    assert(dx is Nan || dy is Nan) by {
        reveal(Number::plus);
    }
    assert(pointer::turn(yaw, pitch, center_yaw, center_pitch) == Number::whole(1)) by {
        reveal(Number::times);
        reveal(Number::plus);
        reveal(Number::root);
        reveal(Number::over);
    }
    laws::lemma_full_weight();
}

/// A frame that steers by a reading that is `Nan`, of the eyes or of the head,
/// makes the coordinate `Nan` that the reading is for.
pub proof fn nan_reading_loses_pointer(state: State, mesh: Seq<Landmark>)
    requires
        steers(state, mesh),
    ensures
        face::gaze_x(mesh) is Nan || face::head_yaw(mesh) is Nan || state.x is Nan
            ==> state.after_frame(mesh).x is Nan,
        face::gaze_y(mesh) is Nan || face::head_pitch(mesh) is Nan || state.y is Nan
            ==> state.after_frame(mesh).y is Nan,
{
    let r = State::reading(mesh);
    let (eyes, head) = (state.eyes, state.head);
    laws::lemma_reading_single(mesh);
    laws::lemma_calibration_single(eyes);
    laws::lemma_calibration_single(head);
    laws::aim_is_nan(r, eyes, head, state.invert_x);
    laws::aim_is_nan(r, eyes, head, state.invert_y);
    lemma_axis_of_nan(r.ratio_x, eyes.left(), eyes.c.0@, eyes.right());
    lemma_axis_of_nan(r.ratio_y, eyes.top(), eyes.c.1@, eyes.bottom());
    lemma_axis_of_nan(r.yaw, head.left(), head.c.0@, head.right());
    lemma_axis_of_nan(r.pitch, head.top(), head.c.1@, head.bottom());
    reveal(Number::times);
    reveal(Number::plus);
}

proof fn lemma_axis_of_nan(current: Number, low: Number, center: Number, high: Number)
    requires
        current.is_single() && low.is_single() && center.is_single() && high.is_single(),
    ensures
        current is Nan ==> pointer::axis_scaled(current, low, center, high) is Nan,
{
    laws::axis_is_nan(current, low, center, high);
    reveal(Number::plus);
}

/// What a frame does depends on the corners and irises of the eyes, the lids of
/// the left eye, the nose, the cheeks and the forehead, and on no other point.
pub proof fn frame_by_points(state: State, first: Seq<Landmark>, second: Seq<Landmark>)
    requires
        same_across(first, second, seq![33, 133, 362, 263]),
        same_across(first, second, seq![469, 470, 471, 472]),
        same_across(first, second, seq![474, 475, 476, 477]),
        same_down(first, second, seq![33, 133, 362, 263]),
        same_down(first, second, seq![469, 470, 471, 472]),
        same_down(first, second, seq![474, 475, 476, 477]),
        first[145].y@ == second[145].y@ && first[159].y@ == second[159].y@,
        first[1].x@ == second[1].x@ && first[1].y@ == second[1].y@,
        first[234].x@ == second[234].x@ && first[454].x@ == second[454].x@,
        first[10].y@ == second[10].y@,
    ensures
        state.after_frame(first) == state.after_frame(second),
        state.action_of_frame(first) == state.action_of_frame(second),
        state.overlay_of_frame(first) == state.overlay_of_frame(second),
{
    measures::gaze_across_by_points(first, second);
    measures::gaze_down_by_points(first, second);
    measures::head_pose_by_points(first, second);
    measures::left_eye_height_by_lids(first, second);
}

/// A reading beyond a bound of its axis counts as on the bound, however far
/// beyond it is.
pub proof fn axis_ends_at_bounds(current: Number, low: Number, center: Number, high: Number)
    requires
        current.is_single() && low.is_single() && center.is_single() && high.is_single(),
        current !is Nan,
        laws::steady(low, center, high),
        low.at_most(center),
        center.less(high),
        high.minus(center) is Finite,
        Number::ratio(1, 0x80_0000).less(high.minus(center)),
    ensures
        high.at_most(current) ==> pointer::axis_scaled(current, low, center, high)
            == Number::whole(1),
        current.at_most(low) ==> {
            let scaled = pointer::axis_scaled(current, low, center, high);
            scaled is Finite && scaled.place() == 0
        },
{
    laws::lemma_unit_places();
    laws::lemma_steady_axis(current, low, center, high);
    laws::lemma_steady_axis(low, low, center, high);
    laws::lemma_steady_axis(high, low, center, high);
    laws::axis_in_range(current, low, center, high);
    laws::lemma_axis_single(current, low, center, high);
    order::lemma_place_bounds(pointer::axis_scaled(current, low, center, high));
    if high.at_most(current) {
        laws::axis_at_high(low, center, high);
        laws::axis_monotone(high, current, low, center, high);
    }
    if current.at_most(low) {
        laws::axis_at_low(low, center, high);
        laws::axis_monotone(current, low, low, center, high);
    }
}

}
