//! Measurements on the points of a face mesh.

use vstd::prelude::*;

use crate::number::Number;
use crate::single::Single;

verus! {

pub const RIGHT_EYE_LEFT: usize = 362;

pub const RIGHT_EYE_RIGHT: usize = 263;

pub const RIGHT_EYE_TOP: usize = 386;

pub const RIGHT_EYE_BOTTOM: usize = 374;

pub const RIGHT_IRIS: [usize; 4] = [474, 475, 476, 477];

pub const LEFT_EYE_LEFT: usize = 33;

pub const LEFT_EYE_RIGHT: usize = 133;

pub const LEFT_EYE_TOP: usize = 159;

pub const LEFT_EYE_BOTTOM: usize = 145;

pub const LEFT_IRIS: [usize; 4] = [469, 470, 471, 472];

pub const NOSE_TIP: usize = 1;

pub const FOREHEAD: usize = 10;

pub const CHIN: usize = 152;

pub const LEFT_CHEEK: usize = 234;

pub const RIGHT_CHEEK: usize = 454;

/// Number of points of a face mesh.
pub const MESH_POINTS: usize = 478;

/// A point of the mesh, as fractions of the frame's width and height.
#[derive(Clone, Copy, Debug)]
pub struct Landmark {
    pub x: Single,
    pub y: Single,
}

impl Default for Landmark {
    fn default() -> (r: Landmark)
        ensures
            r.x@ == Number::zero(),
            r.y@ == Number::zero(),
    {
        Landmark { x: Single::default(), y: Single::default() }
    }
}

/// `(((a + b) + c) + d) / 4`.
pub open spec fn mean_of_four(a: Number, b: Number, c: Number, d: Number) -> Number {
    a.plus(b).plus(c).plus(d).over(Number::whole(4))
}

/// `(a + b) / 2`.
pub open spec fn midpoint(a: Number, b: Number) -> Number {
    a.plus(b).over(Number::whole(2))
}

/// Where the iris is, across: the mean of its four points.
pub open spec fn iris_x(mesh: Seq<Landmark>, iris: Seq<usize>) -> Number {
    mean_of_four(
        mesh[iris[0] as int].x@,
        mesh[iris[1] as int].x@,
        mesh[iris[2] as int].x@,
        mesh[iris[3] as int].x@,
    )
}

/// Where the iris is, down: the mean of its four points.
pub open spec fn iris_y(mesh: Seq<Landmark>, iris: Seq<usize>) -> Number {
    mean_of_four(
        mesh[iris[0] as int].y@,
        mesh[iris[1] as int].y@,
        mesh[iris[2] as int].y@,
        mesh[iris[3] as int].y@,
    )
}

/// How far two points lie apart, across.
pub open spec fn width_between(mesh: Seq<Landmark>, left: usize, right: usize) -> Number {
    mesh[right as int].x@.minus(mesh[left as int].x@).magnitude()
}

/// Whether an eye or a face has any extent to measure by.
pub open spec fn measurable(width: Number) -> bool {
    Number::zero().less(width)
}

/// Where in the eye the iris stands across, as a fraction of the eye's width.
pub open spec fn eye_ratio_x(
    mesh: Seq<Landmark>,
    left: usize,
    right: usize,
    iris: Seq<usize>,
) -> Number {
    iris_x(mesh, iris).minus(mesh[left as int].x@).magnitude().over(
        width_between(mesh, left, right),
    )
}

/// How far below the line between the corners of the eye the iris stands, as
/// a fraction of the eye's width.
pub open spec fn eye_ratio_y(
    mesh: Seq<Landmark>,
    left: usize,
    right: usize,
    iris: Seq<usize>,
) -> Number {
    iris_y(mesh, iris).minus(midpoint(mesh[left as int].y@, mesh[right as int].y@)).over(
        width_between(mesh, left, right),
    )
}

fn mean4(a: Single, b: Single, c: Single, d: Single) -> (r: Single)
    ensures
        r@ == mean_of_four(a@, b@, c@, d@),
{
    a.plus(b).plus(c).plus(d).over(Single::from_i32(4))
}

/// `(a + b) / 2`.
pub fn mean2(a: Single, b: Single) -> (r: Single)
    ensures
        r@ == midpoint(a@, b@),
{
    a.plus(b).over(Single::from_i32(2))
}

/// Measures one eye: the two ratios, the iris, and the eye's left, top, right
/// and bottom. An eye without any width gives nothing.
pub fn get_eye_ratio(
    landmarks: &[Landmark],
    left_idx: usize,
    right_idx: usize,
    top_idx: usize,
    bottom_idx: usize,
    iris_indices: &[usize; 4],
) -> (r: Option<(Single, Single, (Single, Single), (Single, Single, Single, Single))>)
    requires
        left_idx < landmarks.len(),
        right_idx < landmarks.len(),
        forall|i: int| 0 <= i < 4 ==> #[trigger] iris_indices@[i] < landmarks.len(),
        measurable(width_between(landmarks@, left_idx, right_idx)) ==> top_idx < landmarks.len()
            && bottom_idx < landmarks.len(),
    ensures
        r is Some <==> measurable(width_between(landmarks@, left_idx, right_idx)),
        r matches Some((ratio_x, ratio_y, iris, bounds)) ==> {
            &&& ratio_x@ == eye_ratio_x(landmarks@, left_idx, right_idx, iris_indices@)
            &&& ratio_y@ == eye_ratio_y(landmarks@, left_idx, right_idx, iris_indices@)
            &&& iris.0@ == iris_x(landmarks@, iris_indices@)
            &&& iris.1@ == iris_y(landmarks@, iris_indices@)
            &&& bounds.0 == landmarks@[left_idx as int].x
            &&& bounds.1 == landmarks@[top_idx as int].y
            &&& bounds.2 == landmarks@[right_idx as int].x
            &&& bounds.3 == landmarks@[bottom_idx as int].y
        },
{
    let eye_left: Landmark = landmarks[left_idx];
    let eye_right: Landmark = landmarks[right_idx];
    let i0: usize = iris_indices[0];
    let i1: usize = iris_indices[1];
    let i2: usize = iris_indices[2];
    let i3: usize = iris_indices[3];
    let p0: Landmark = landmarks[i0];
    let p1: Landmark = landmarks[i1];
    let p2: Landmark = landmarks[i2];
    let p3: Landmark = landmarks[i3];
    let iris_x: Single = mean4(p0.x, p1.x, p2.x, p3.x);
    let iris_y: Single = mean4(p0.y, p1.y, p2.y, p3.y);
    let eye_width: Single = eye_right.x.minus(eye_left.x).magnitude();
    if Single::default().less(eye_width) {
        let ratio_x: Single = iris_x.minus(eye_left.x).magnitude().over(eye_width);
        let stable_center_y: Single = mean2(eye_left.y, eye_right.y);
        let ratio_y: Single = iris_y.minus(stable_center_y).over(eye_width);
        Some(
            (
                ratio_x,
                ratio_y,
                (iris_x, iris_y),
                (eye_left.x, landmarks[top_idx].y, eye_right.x, landmarks[bottom_idx].y),
            ),
        )
    } else {
        None
    }
}

/// Whether both eyes can be measured.
pub open spec fn eyes_measurable(mesh: Seq<Landmark>) -> bool {
    &&& measurable(width_between(mesh, RIGHT_EYE_LEFT, RIGHT_EYE_RIGHT))
    &&& measurable(width_between(mesh, LEFT_EYE_LEFT, LEFT_EYE_RIGHT))
}

/// The gaze across: the mean over both eyes.
pub open spec fn gaze_x(mesh: Seq<Landmark>) -> Number {
    midpoint(
        eye_ratio_x(mesh, RIGHT_EYE_LEFT, RIGHT_EYE_RIGHT, RIGHT_IRIS@),
        eye_ratio_x(mesh, LEFT_EYE_LEFT, LEFT_EYE_RIGHT, LEFT_IRIS@),
    )
}

/// The gaze down: the mean over both eyes.
pub open spec fn gaze_y(mesh: Seq<Landmark>) -> Number {
    midpoint(
        eye_ratio_y(mesh, RIGHT_EYE_LEFT, RIGHT_EYE_RIGHT, RIGHT_IRIS@),
        eye_ratio_y(mesh, LEFT_EYE_LEFT, LEFT_EYE_RIGHT, LEFT_IRIS@),
    )
}

/// Averages both eyes, the right one first. Nothing where an eye has no width.
pub fn calculate_average_gaze(landmarks: &[Landmark]) -> (r: Option<
    (Single, Single, [(Single, Single); 2], [(Single, Single, Single, Single); 2]),
>)
    requires
        landmarks.len() >= MESH_POINTS,
    ensures
        r is Some <==> eyes_measurable(landmarks@),
        r matches Some((avg_x, avg_y, irises, bounds)) ==> {
            &&& avg_x@ == gaze_x(landmarks@)
            &&& avg_y@ == gaze_y(landmarks@)
            &&& irises@[0].0@ == iris_x(landmarks@, RIGHT_IRIS@)
            &&& irises@[0].1@ == iris_y(landmarks@, RIGHT_IRIS@)
            &&& irises@[1].0@ == iris_x(landmarks@, LEFT_IRIS@)
            &&& irises@[1].1@ == iris_y(landmarks@, LEFT_IRIS@)
            &&& bounds@[0] == (
                landmarks@[RIGHT_EYE_LEFT as int].x,
                landmarks@[RIGHT_EYE_TOP as int].y,
                landmarks@[RIGHT_EYE_RIGHT as int].x,
                landmarks@[RIGHT_EYE_BOTTOM as int].y,
            )
            &&& bounds@[1] == (
                landmarks@[LEFT_EYE_LEFT as int].x,
                landmarks@[LEFT_EYE_TOP as int].y,
                landmarks@[LEFT_EYE_RIGHT as int].x,
                landmarks@[LEFT_EYE_BOTTOM as int].y,
            )
        },
{
    let right = get_eye_ratio(
        landmarks,
        RIGHT_EYE_LEFT,
        RIGHT_EYE_RIGHT,
        RIGHT_EYE_TOP,
        RIGHT_EYE_BOTTOM,
        &RIGHT_IRIS,
    );
    let left = get_eye_ratio(
        landmarks,
        LEFT_EYE_LEFT,
        LEFT_EYE_RIGHT,
        LEFT_EYE_TOP,
        LEFT_EYE_BOTTOM,
        &LEFT_IRIS,
    );
    match (right, left) {
        (Some((rx1, ry1, r_iris, r_bounds)), Some((rx2, ry2, l_iris, l_bounds))) => {
            let avg_x: Single = mean2(rx1, rx2);
            let avg_y: Single = mean2(ry1, ry2);
            Some((avg_x, avg_y, [r_iris, l_iris], [r_bounds, l_bounds]))
        },
        _ => None,
    }
}

/// The width of the face, from cheek to cheek.
pub open spec fn face_width(mesh: Seq<Landmark>) -> Number {
    width_between(mesh, LEFT_CHEEK, RIGHT_CHEEK)
}

/// How far the nose stands from the left cheek, in face widths; one half for
/// a face without any width.
pub open spec fn head_yaw(mesh: Seq<Landmark>) -> Number {
    if measurable(face_width(mesh)) {
        mesh[NOSE_TIP as int].x@.minus(mesh[LEFT_CHEEK as int].x@).over(face_width(mesh))
    } else {
        Number::ratio(1, 2)
    }
}

/// How far the nose stands below the forehead, in face widths; one half for a
/// face without any width.
pub open spec fn head_pitch(mesh: Seq<Landmark>) -> Number {
    if measurable(face_width(mesh)) {
        mesh[NOSE_TIP as int].y@.minus(mesh[FOREHEAD as int].y@).over(face_width(mesh))
    } else {
        Number::ratio(1, 2)
    }
}

/// Where the head points: yaw and pitch.
pub fn get_head_pose(landmarks: &[Landmark]) -> (r: (Single, Single))
    requires
        RIGHT_CHEEK < landmarks.len(),
    ensures
        r.0@ == head_yaw(landmarks@),
        r.1@ == head_pitch(landmarks@),
{
    let nose: Landmark = landmarks[NOSE_TIP];
    let left: Landmark = landmarks[LEFT_CHEEK];
    let right: Landmark = landmarks[RIGHT_CHEEK];
    let top: Landmark = landmarks[FOREHEAD];
    let face_width: Single = right.x.minus(left.x).magnitude();
    if Single::default().less(face_width) {
        let yaw: Single = nose.x.minus(left.x).over(face_width);
        let pitch: Single = nose.y.minus(top.y).over(face_width);
        (yaw, pitch)
    } else {
        (Single::ratio(1, 2), Single::ratio(1, 2))
    }
}

/// How far the lids of the left eye stand apart.
pub open spec fn left_eye_height(mesh: Seq<Landmark>) -> Number {
    mesh[LEFT_EYE_BOTTOM as int].y@.minus(mesh[LEFT_EYE_TOP as int].y@)
}

/// How far the lids of the left eye stand apart.
pub fn get_left_eye_height(landmarks: &[Landmark]) -> (r: Single)
    requires
        LEFT_EYE_TOP < landmarks.len(),
    ensures
        r@ == left_eye_height(landmarks@),
{
    landmarks[LEFT_EYE_BOTTOM].y.minus(landmarks[LEFT_EYE_TOP].y)
}

/// Whether an eye open that far counts as shut.
pub fn check_blink(left_eye_height: Single, threshold: Single) -> (r: bool)
    ensures
        r == left_eye_height@.less(threshold@),
{
    left_eye_height.less(threshold)
}

/// The mesh that stands in while no detector supplies one: every point in the
/// middle of the frame, but for the corners of the eyes.
pub open spec fn placeholder_x(index: int) -> Number {
    if index == RIGHT_EYE_LEFT || index == LEFT_EYE_LEFT {
        Number::ratio(4, 10)
    } else if index == RIGHT_EYE_RIGHT || index == LEFT_EYE_RIGHT {
        Number::ratio(6, 10)
    } else {
        Number::ratio(5, 10)
    }
}

/// The mesh that stands in while no detector supplies one.
pub fn placeholder_mesh() -> (r: Vec<Landmark>)
    ensures
        r@.len() == MESH_POINTS,
        forall|i: int|
            0 <= i < r@.len() ==> (#[trigger] r@[i]).x@ == placeholder_x(i) && r@[i].y@
                == Number::ratio(5, 10),
{
    let near: Single = Single::ratio(4, 10);
    let middle: Single = Single::ratio(5, 10);
    let far: Single = Single::ratio(6, 10);
    let mut r: Vec<Landmark> = Vec::new();
    let mut i: usize = 0;
    while i < MESH_POINTS
        invariant
            i <= MESH_POINTS,
            r@.len() == i,
            near@ == Number::ratio(4, 10),
            middle@ == Number::ratio(5, 10),
            far@ == Number::ratio(6, 10),
            forall|j: int|
                0 <= j < i ==> (#[trigger] r@[j]).x@ == placeholder_x(j) && r@[j].y@
                    == Number::ratio(5, 10),
        decreases MESH_POINTS - i,
    {
        let x: Single = if i == RIGHT_EYE_LEFT || i == LEFT_EYE_LEFT {
            near
        } else if i == RIGHT_EYE_RIGHT || i == LEFT_EYE_RIGHT {
            far
        } else {
            middle
        };
        r.push(Landmark { x, y: middle });
        i = i + 1;
    }
    r
}

} // verus!
