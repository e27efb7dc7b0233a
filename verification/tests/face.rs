//! Measurements on a mesh, held against the same formulas on `f32`.

use eye_control::face::{
    calculate_average_gaze, check_blink, get_eye_ratio, get_head_pose, get_left_eye_height,
    placeholder_mesh, Landmark, FOREHEAD, LEFT_CHEEK, LEFT_EYE_BOTTOM, LEFT_EYE_LEFT,
    LEFT_EYE_RIGHT, LEFT_EYE_TOP, LEFT_IRIS, MESH_POINTS, NOSE_TIP, RIGHT_CHEEK, RIGHT_EYE_BOTTOM,
    RIGHT_EYE_LEFT, RIGHT_EYE_RIGHT, RIGHT_EYE_TOP, RIGHT_IRIS,
};
use eye_control::single::Single;

fn single(x: f32) -> Single {
    Single::from_bits(x.to_bits())
}

fn value(x: Single) -> f32 {
    f32::from_bits(x.to_bits())
}

fn same(got: Single, want: f32) -> bool {
    value(got).to_bits() == want.to_bits() || (value(got).is_nan() && want.is_nan())
}

fn point(x: f32, y: f32) -> Landmark {
    Landmark { x: single(x), y: single(y) }
}

/// A mesh of pseudo-random points between zero and one.
fn scattered(seed: u64) -> (Vec<Landmark>, Vec<(f32, f32)>) {
    let mut state = seed;
    let mut next = || {
        state = state.wrapping_mul(6364136223846793005).wrapping_add(1442695040888963407);
        ((state >> 40) as f32) / 16777216.0
    };
    let plain: Vec<(f32, f32)> = (0..MESH_POINTS).map(|_| (next(), next())).collect();
    let mesh = plain.iter().map(|p| point(p.0, p.1)).collect();
    (mesh, plain)
}

/// Both ratios and the iris of one eye.
fn eye_on_machine(p: &[(f32, f32)], l: usize, r: usize, iris: &[usize; 4]) -> Option<[f32; 4]> {
    let ix = iris.iter().map(|&i| p[i].0).sum::<f32>() / 4.0;
    let iy = iris.iter().map(|&i| p[i].1).sum::<f32>() / 4.0;
    let width = (p[r].0 - p[l].0).abs();
    if width > 0.0 {
        let center = (p[l].1 + p[r].1) / 2.0;
        Some([(ix - p[l].0).abs() / width, (iy - center) / width, ix, iy])
    } else {
        None
    }
}

#[test]
fn eye_ratios_follow_the_formula() {
    for seed in 0..50 {
        let (mesh, plain) = scattered(seed);
        let got = get_eye_ratio(
            &mesh,
            LEFT_EYE_LEFT,
            LEFT_EYE_RIGHT,
            LEFT_EYE_TOP,
            LEFT_EYE_BOTTOM,
            &LEFT_IRIS,
        )
        .unwrap();
        let want = eye_on_machine(&plain, LEFT_EYE_LEFT, LEFT_EYE_RIGHT, &LEFT_IRIS).unwrap();
        assert!(same(got.0, want[0]));
        assert!(same(got.1, want[1]));
        assert!(same((got.2).0, want[2]));
        assert!(same((got.2).1, want[3]));
        assert!(same((got.3).0, plain[LEFT_EYE_LEFT].0));
        assert!(same((got.3).1, plain[LEFT_EYE_TOP].1));
        assert!(same((got.3).2, plain[LEFT_EYE_RIGHT].0));
        assert!(same((got.3).3, plain[LEFT_EYE_BOTTOM].1));
    }
}

#[test]
fn eye_without_width_gives_nothing() {
    let mut mesh = vec![point(0.5, 0.5); MESH_POINTS];
    assert!(get_eye_ratio(&mesh, 33, 133, 159, 145, &LEFT_IRIS).is_none());
    assert!(calculate_average_gaze(&mesh).is_none());
    mesh[133] = point(f32::NAN, 0.5);
    assert!(get_eye_ratio(&mesh, 33, 133, 159, 145, &LEFT_IRIS).is_none());
    // Lids out of reach are not looked at where there is no width.
    assert!(get_eye_ratio(&mesh[..134], 33, 133, 159, 145, &[1, 2, 3, 4]).is_none());
}

#[test]
fn the_least_width_is_a_width() {
    let mut mesh = vec![point(0.0, 0.0); MESH_POINTS];
    mesh[133] = Landmark { x: Single::from_bits(1), y: single(0.0) };
    assert!(get_eye_ratio(&mesh, 33, 133, 159, 145, &LEFT_IRIS).is_some());
}

#[test]
fn one_eye_exact_values() {
    let mut mesh = vec![point(0.5, 0.5); MESH_POINTS];
    mesh[0] = point(0.25, 0.5);
    mesh[1] = point(0.75, 0.25);
    for (k, x) in [0.375f32, 0.5, 0.375, 0.25].iter().enumerate() {
        mesh[2 + k] = point(*x, 0.5);
    }
    mesh[6] = point(0.0, 0.125);
    mesh[7] = point(0.0, 0.875);
    let r = get_eye_ratio(&mesh, 0, 1, 6, 7, &[2, 3, 4, 5]).unwrap();
    assert_eq!(value(r.0), 0.25);
    assert_eq!(value(r.1), 0.25);
    assert_eq!((value((r.2).0), value((r.2).1)), (0.375, 0.5));
    assert_eq!(
        (value((r.3).0), value((r.3).1), value((r.3).2), value((r.3).3)),
        (0.25, 0.125, 0.75, 0.875)
    );
}

#[test]
fn an_iris_at_negative_zero() {
    let mut mesh = vec![point(0.5, 0.5); MESH_POINTS];
    mesh[133] = point(0.75, 0.5);
    for i in LEFT_IRIS {
        mesh[i] = point(-0.0, -0.0);
    }
    let r = get_eye_ratio(&mesh, 33, 133, 159, 145, &LEFT_IRIS).unwrap();
    let want = [-0.0f32; 4].iter().sum::<f32>() / 4.0;
    assert!(same((r.2).0, want) && same((r.2).1, want));
}

#[test]
fn the_ratio_across_is_not_negative() {
    for seed in 100..150 {
        let (mesh, _) = scattered(seed);
        let r = get_eye_ratio(&mesh, 33, 133, 159, 145, &LEFT_IRIS).unwrap();
        assert!(value(r.0) >= 0.0);
    }
}

#[test]
fn gaze_is_the_mean_of_both_eyes() {
    for seed in 200..250 {
        let (mesh, plain) = scattered(seed);
        let (x, y, irises, bounds) = calculate_average_gaze(&mesh).unwrap();
        let r = eye_on_machine(&plain, RIGHT_EYE_LEFT, RIGHT_EYE_RIGHT, &RIGHT_IRIS).unwrap();
        let l = eye_on_machine(&plain, LEFT_EYE_LEFT, LEFT_EYE_RIGHT, &LEFT_IRIS).unwrap();
        assert!(same(x, (r[0] + l[0]) / 2.0));
        assert!(same(y, (r[1] + l[1]) / 2.0));
        assert!(same(irises[0].0, r[2]) && same(irises[0].1, r[3]));
        assert!(same(irises[1].0, l[2]) && same(irises[1].1, l[3]));
        assert!(same(bounds[0].1, plain[RIGHT_EYE_TOP].1));
        assert!(same(bounds[0].3, plain[RIGHT_EYE_BOTTOM].1));
        assert!(same(bounds[1].0, plain[LEFT_EYE_LEFT].0));
        assert!(same(bounds[1].2, plain[LEFT_EYE_RIGHT].0));
    }
}

#[test]
fn head_pose_is_measured_in_face_widths() {
    for seed in 300..350 {
        let (mesh, p) = scattered(seed);
        let (yaw, pitch) = get_head_pose(&mesh);
        let width = (p[RIGHT_CHEEK].0 - p[LEFT_CHEEK].0).abs();
        assert!(same(yaw, (p[NOSE_TIP].0 - p[LEFT_CHEEK].0) / width));
        assert!(same(pitch, (p[NOSE_TIP].1 - p[FOREHEAD].1) / width));
    }
}

#[test]
fn face_without_width_looks_straight_ahead() {
    let mesh = vec![point(0.3, 0.7); MESH_POINTS];
    let (yaw, pitch) = get_head_pose(&mesh);
    assert_eq!((value(yaw), value(pitch)), (0.5, 0.5));
}

#[test]
fn eye_height_and_blink() {
    let mut mesh = vec![point(0.5, 0.5); MESH_POINTS];
    mesh[LEFT_EYE_TOP] = point(0.5, 0.25);
    mesh[LEFT_EYE_BOTTOM] = point(0.5, 0.375);
    let height = get_left_eye_height(&mesh);
    assert_eq!(value(height), 0.125);
    assert!(!check_blink(height, single(0.004)));
    assert!(check_blink(single(0.0), single(0.004)));
    assert!(check_blink(single(-1.0), single(0.004)));
    assert!(!check_blink(single(0.004), single(0.004)));
    assert!(!check_blink(single(f32::NAN), single(0.004)));
}

#[test]
fn placeholder_has_open_width_and_shut_lids() {
    let mesh = placeholder_mesh();
    assert_eq!(mesh.len(), 478);
    for (i, p) in mesh.iter().enumerate() {
        let want = match i {
            362 | 33 => 0.4f32,
            263 | 133 => 0.6,
            _ => 0.5,
        };
        assert!(same(p.x, want) && same(p.y, 0.5));
    }
    let (x, y, _, _) = calculate_average_gaze(&mesh).unwrap();
    let ratio = (0.5f32 - 0.4).abs() / (0.6f32 - 0.4).abs();
    assert!(same(x, (ratio + ratio) / 2.0));
    assert!(same(y, 0.0));
    assert_eq!(value(get_left_eye_height(&mesh)), 0.0);
    let (yaw, pitch) = get_head_pose(&mesh);
    assert_eq!((value(yaw), value(pitch)), (0.5, 0.5));
}

#[test]
fn default_landmark_is_the_origin() {
    let p = Landmark::default();
    assert_eq!((p.x.to_bits(), p.y.to_bits()), (0, 0));
}
