//! From gaze and head pose to a pointer position.

use vstd::prelude::*;

use crate::face;
use crate::face::mean2;
use crate::number::Number;
use crate::single::Single;

verus! {

/// Readings taken while the user looked at the centre and the four corners of
/// the screen, each across and down.
#[derive(Clone, Copy, Debug)]
pub struct Calibration {
    pub c: (Single, Single),
    pub tl: (Single, Single),
    pub tr: (Single, Single),
    pub bl: (Single, Single),
    pub br: (Single, Single),
}

impl Default for Calibration {
    fn default() -> (r: Calibration)
        ensures
            r.c.0@ == Number::zero() && r.c.1@ == Number::zero(),
            r.tl.0@ == Number::zero() && r.tl.1@ == Number::zero(),
            r.tr.0@ == Number::zero() && r.tr.1@ == Number::zero(),
            r.bl.0@ == Number::zero() && r.bl.1@ == Number::zero(),
            r.br.0@ == Number::zero() && r.br.1@ == Number::zero(),
    {
        let z: Single = Single::default();
        Calibration { c: (z, z), tl: (z, z), tr: (z, z), bl: (z, z), br: (z, z) }
    }
}

impl Calibration {
    pub open spec fn left(self) -> Number {
        face::midpoint(self.tl.0@, self.bl.0@)
    }

    pub open spec fn right(self) -> Number {
        face::midpoint(self.tr.0@, self.br.0@)
    }

    pub open spec fn top(self) -> Number {
        face::midpoint(self.tl.1@, self.tr.1@)
    }

    pub open spec fn bottom(self) -> Number {
        face::midpoint(self.bl.1@, self.br.1@)
    }
}

/// The distance between two bounds, or one ten-thousandth where they all but
/// coincide.
pub open spec fn span(low: Number, high: Number) -> Number {
    let apart = high.minus(low);
    if Number::ratio(1, 0x80_0000).less(apart.magnitude()) {
        apart
    } else {
        Number::ratio(1, 10000)
    }
}

/// Where a reading lies on its axis before it is brought into range: one half
/// of the way from `low` to `center` below the centre, the other half from
/// `center` to `high` above it.
pub open spec fn axis_raw(current: Number, low: Number, center: Number, high: Number) -> Number {
    if current.at_most(center) {
        current.minus(low).over(span(low, center)).times(Number::ratio(1, 2))
    } else {
        Number::ratio(1, 2).plus(
            current.minus(center).over(span(center, high)).times(Number::ratio(1, 2)),
        )
    }
}

/// Where a reading lies on its axis, from zero to one.
pub open spec fn axis_scaled(
    current: Number,
    low: Number,
    center: Number,
    high: Number,
) -> Number {
    axis_raw(current, low, center, high).clamped(Number::zero(), Number::whole(1))
}

fn axis_span(low: Single, high: Single) -> (r: Single)
    ensures
        r@ == span(low@, high@),
{
    let apart: Single = high.minus(low);
    if Single::ratio(1, 0x80_0000).less(apart.magnitude()) {
        apart
    } else {
        Single::ratio(1, 10000)
    }
}

/// Where a reading lies on its axis, from zero to one.
pub fn get_axis_scaled_value(
    current: Single,
    min_bound: Single,
    center: Single,
    max_bound: Single,
) -> (r: Single)
    ensures
        r@ == axis_scaled(current@, min_bound@, center@, max_bound@),
{
    let half: Single = Single::ratio(1, 2);
    let scaled: Single = if current.at_most(center) {
        current.minus(min_bound).over(axis_span(min_bound, center)).times(half)
    } else {
        half.plus(current.minus(center).over(axis_span(center, max_bound)).times(half))
    };
    let zero: Single = Single::default();
    let one: Single = Single::from_i32(1);
    proof {
        crate::order::lemma_whole(1);
    }
    scaled.clamped(zero, one)
}

/// `sqrt(dx * dx + dy * dy)`, each square one rounded product.
pub open spec fn distance(dx: Number, dy: Number) -> Number {
    dx.times(dx).plus(dy.times(dy)).root()
}

/// How far the head is turned from its calibrated centre, where
/// eight hundredths or more count as one.
pub open spec fn turn(
    yaw: Number,
    pitch: Number,
    center_yaw: Number,
    center_pitch: Number,
) -> Number {
    distance(
        yaw.minus(center_yaw).magnitude(),
        pitch.minus(center_pitch).magnitude(),
    ).over(Number::ratio(8, 100)).lesser(Number::whole(1))
}

/// The share of the head in the pointer position.
pub open spec fn face_weight(
    yaw: Number,
    pitch: Number,
    center_yaw: Number,
    center_pitch: Number,
) -> Number {
    weight_of_turn(turn(yaw, pitch, center_yaw, center_pitch))
}

/// The share grows with the square of the turn, from one tenth to 0.85.
pub open spec fn weight_of_turn(turn: Number) -> Number {
    Number::ratio(1, 10).plus(
        Number::ratio(85, 100).minus(Number::ratio(1, 10)).times(turn.times(turn)),
    )
}

fn length(dx: Single, dy: Single) -> (r: Single)
    ensures
        r@ == distance(dx@, dy@),
{
    dx.times(dx).plus(dy.times(dy)).root()
}

/// The share of the head in the pointer position.
pub fn get_dynamic_face_weight(
    yaw: Single,
    pitch: Single,
    center_yaw: Single,
    center_pitch: Single,
) -> (r: Single)
    ensures
        r@ == face_weight(yaw@, pitch@, center_yaw@, center_pitch@),
{
    let min_weight: Single = Single::ratio(1, 10);
    let max_weight: Single = Single::ratio(85, 100);
    let dist_yaw: Single = yaw.minus(center_yaw).magnitude();
    let dist_pitch: Single = pitch.minus(center_pitch).magnitude();
    let distance: Single = length(dist_yaw, dist_pitch);
    let max_expected_dev: Single = Single::ratio(8, 100);
    let normalized_dist: Single = distance.over(max_expected_dev).lesser(Single::from_i32(1));
    min_weight.plus(max_weight.minus(min_weight).times(normalized_dist.times(normalized_dist)))
}

/// `1 - x` where the axis is turned round.
pub open spec fn oriented(x: Number, inverted: bool) -> Number {
    if inverted {
        Number::whole(1).minus(x)
    } else {
        x
    }
}

/// The eye's position and the head's, weighed.
pub open spec fn blended(eye: Number, head: Number, weight: Number) -> Number {
    eye.times(Number::whole(1).minus(weight)).plus(head.times(weight))
}

/// The smoothing in force: a tenth of it where the pointer is within 25
/// pixels of its target.
pub open spec fn active_factor(dx: Number, dy: Number, factor: Number) -> Number {
    if distance(dx, dy).less(Number::whole(25)) {
        factor.times(Number::ratio(1, 10))
    } else {
        factor
    }
}

/// What a step of the pointer is computed from.
pub struct Reading {
    pub ratio_x: Number,
    pub ratio_y: Number,
    pub yaw: Number,
    pub pitch: Number,
}

impl Reading {
    /// The share of the head.
    pub open spec fn weight(self, head: Calibration) -> Number {
        face_weight(self.yaw, self.pitch, head.c.0@, head.c.1@)
    }

    /// Where on the screen the user points, across, from zero to one.
    pub open spec fn aim_x(self, eyes: Calibration, head: Calibration, invert: bool) -> Number {
        blended(
            axis_scaled(self.ratio_x, eyes.left(), eyes.c.0@, eyes.right()),
            oriented(axis_scaled(self.yaw, head.left(), head.c.0@, head.right()), invert),
            self.weight(head),
        )
    }

    /// Where on the screen the user points, down, from zero to one.
    pub open spec fn aim_y(self, eyes: Calibration, head: Calibration, invert: bool) -> Number {
        blended(
            axis_scaled(self.ratio_y, eyes.top(), eyes.c.1@, eyes.bottom()),
            oriented(axis_scaled(self.pitch, head.top(), head.c.1@, head.bottom()), invert),
            self.weight(head),
        )
    }
}

/// One coordinate after one smoothed step toward a target.
pub open spec fn advanced(x: Number, target: Number, active: Number) -> Number {
    x.plus(target.minus(x).times(active))
}

/// A pointer position after one step toward a target.
pub open spec fn step(
    x: Number,
    y: Number,
    target_x: Number,
    target_y: Number,
    factor: Number,
) -> (Number, Number) {
    let active = active_factor(target_x.minus(x), target_y.minus(y), factor);
    (advanced(x, target_x, active), advanced(y, target_y, active))
}

/// The pixel to move to; nothing where the pixel stays the same.
pub open spec fn pixel_move(
    old_x: Number,
    old_y: Number,
    new_x: Number,
    new_y: Number,
) -> Option<(i32, i32)> {
    let old = (old_x.truncated() as i32, old_y.truncated() as i32);
    let new = (new_x.truncated() as i32, new_y.truncated() as i32);
    if new != old {
        Some(new)
    } else {
        None
    }
}

/// Outcome of one step of the pointer.
#[derive(Clone, Copy, Debug)]
pub struct PointerStep {
    /// The smoothed position.
    pub x: Single,
    pub y: Single,
    /// The share of the head.
    pub face_weight: Single,
    /// The pixel to move the mouse to, if it has to move.
    pub move_to: Option<(i32, i32)>,
}

/// Takes the pointer one smoothed step toward where the user looks.
pub fn update_mouse_position(
    ratio_x: Single,
    ratio_y: Single,
    yaw: Single,
    pitch: Single,
    screen_w: Single,
    screen_h: Single,
    smooth_x: Single,
    smooth_y: Single,
    calib_eyes: &Calibration,
    calib_face: &Calibration,
    smooth_factor: Single,
    invert_x: bool,
    invert_y: bool,
) -> (r: PointerStep)
    ensures
        ({
            let reading = Reading {
                ratio_x: ratio_x@,
                ratio_y: ratio_y@,
                yaw: yaw@,
                pitch: pitch@,
            };
            let target_x = reading.aim_x(*calib_eyes, *calib_face, invert_x).times(screen_w@);
            let target_y = reading.aim_y(*calib_eyes, *calib_face, invert_y).times(screen_h@);
            &&& (r.x@, r.y@) == step(
                smooth_x@,
                smooth_y@,
                target_x,
                target_y,
                smooth_factor@,
            )
            &&& r.face_weight@ == reading.weight(*calib_face)
            &&& r.move_to == pixel_move(smooth_x@, smooth_y@, r.x@, r.y@)
        }),
{
    let one: Single = Single::from_i32(1);
    let eye_left_bound: Single = mean2(calib_eyes.tl.0, calib_eyes.bl.0);
    let eye_right_bound: Single = mean2(calib_eyes.tr.0, calib_eyes.br.0);
    let eye_top_bound: Single = mean2(calib_eyes.tl.1, calib_eyes.tr.1);
    let eye_bottom_bound: Single = mean2(calib_eyes.bl.1, calib_eyes.br.1);
    let face_left_bound: Single = mean2(calib_face.tl.0, calib_face.bl.0);
    let face_right_bound: Single = mean2(calib_face.tr.0, calib_face.br.0);
    let face_top_bound: Single = mean2(calib_face.tl.1, calib_face.tr.1);
    let face_bottom_bound: Single = mean2(calib_face.bl.1, calib_face.br.1);
    let eye_scaled_x: Single = get_axis_scaled_value(
        ratio_x,
        eye_left_bound,
        calib_eyes.c.0,
        eye_right_bound,
    );
    let eye_scaled_y: Single = get_axis_scaled_value(
        ratio_y,
        eye_top_bound,
        calib_eyes.c.1,
        eye_bottom_bound,
    );
    let mut face_scaled_x: Single = get_axis_scaled_value(
        yaw,
        face_left_bound,
        calib_face.c.0,
        face_right_bound,
    );
    let mut face_scaled_y: Single = get_axis_scaled_value(
        pitch,
        face_top_bound,
        calib_face.c.1,
        face_bottom_bound,
    );
    if invert_x {
        face_scaled_x = one.minus(face_scaled_x);
    }
    if invert_y {
        face_scaled_y = one.minus(face_scaled_y);
    }
    let weight: Single = get_dynamic_face_weight(yaw, pitch, calib_face.c.0, calib_face.c.1);
    let rest: Single = one.minus(weight);
    let final_x: Single = eye_scaled_x.times(rest).plus(face_scaled_x.times(weight));
    let final_y: Single = eye_scaled_y.times(rest).plus(face_scaled_y.times(weight));
    let target_x: Single = final_x.times(screen_w);
    let target_y: Single = final_y.times(screen_h);
    let dead_zone_radius: Single = Single::from_i32(25);
    let dx: Single = target_x.minus(smooth_x);
    let dy: Single = target_y.minus(smooth_y);
    let distance: Single = length(dx, dy);
    let active_smooth_factor: Single = if distance.less(dead_zone_radius) {
        smooth_factor.times(Single::ratio(1, 10))
    } else {
        smooth_factor
    };
    let new_smooth_x: Single = smooth_x.plus(dx.times(active_smooth_factor));
    let new_smooth_y: Single = smooth_y.plus(dy.times(active_smooth_factor));
    let old_x: i32 = smooth_x.to_i32();
    let old_y: i32 = smooth_y.to_i32();
    let new_x: i32 = new_smooth_x.to_i32();
    let new_y: i32 = new_smooth_y.to_i32();
    let move_to: Option<(i32, i32)> = if new_x != old_x || new_y != old_y {
        Some((new_x, new_y))
    } else {
        None
    };
    PointerStep { x: new_smooth_x, y: new_smooth_y, face_weight: weight, move_to }
}

} // verus!
