//! The way from readings to the pointer, held against the same formulas on `f32`.

use eye_control::pointer::{
    get_axis_scaled_value, get_dynamic_face_weight, update_mouse_position, Calibration,
};
use eye_control::single::Single;

fn single(x: f32) -> Single {
    Single::from_bits(x.to_bits())
}

fn value(x: Single) -> f32 {
    f32::from_bits(x.to_bits())
}

fn same(got: Single, want: f32) -> bool {
    value(got).to_bits() == want.to_bits() || (value(got).is_nan() && want.is_nan())
}

struct Stream(u64);

impl Stream {
    /// The next of a run of fractions between zero and one.
    fn unit(&mut self) -> f32 {
        self.0 = self.0.wrapping_mul(6364136223846793005).wrapping_add(1442695040888963407);
        ((self.0 >> 40) as f32) / 16777216.0
    }

    /// The next of a run of any bits at all.
    fn any(&mut self) -> f32 {
        self.0 = self.0.wrapping_mul(6364136223846793005).wrapping_add(1442695040888963407);
        f32::from_bits((self.0 >> 32) as u32)
    }
}

fn axis_on_machine(current: f32, low: f32, center: f32, high: f32) -> f32 {
    let scaled = if current <= center {
        let d = center - low;
        (current - low) / (if d.abs() > f32::EPSILON { d } else { 0.0001 }) * 0.5
    } else {
        let d = high - center;
        0.5 + (current - center) / (if d.abs() > f32::EPSILON { d } else { 0.0001 }) * 0.5
    };
    scaled.clamp(0.0, 1.0)
}

fn weight_on_machine(yaw: f32, pitch: f32, cy: f32, cp: f32) -> f32 {
    let d = ((yaw - cy).abs().powi(2) + (pitch - cp).abs().powi(2)).sqrt();
    let n = (d / 0.08f32).min(1.0);
    0.1f32 + (0.85f32 - 0.1f32) * n.powi(2)
}

fn axis(current: f32, low: f32, center: f32, high: f32) -> f32 {
    value(get_axis_scaled_value(single(current), single(low), single(center), single(high)))
}

#[test]
fn axis_follows_the_formula() {
    let mut s = Stream(11);
    for _ in 0..3000 {
        let (a, b, c, d) = (s.unit(), s.unit(), s.unit(), s.unit());
        let got = get_axis_scaled_value(single(a), single(b), single(c), single(d));
        assert!(same(got, axis_on_machine(a, b, c, d)), "{} {} {} {}", a, b, c, d);
        let (a, b, c, d) = (s.any(), s.any(), s.any(), s.any());
        let got = get_axis_scaled_value(single(a), single(b), single(c), single(d));
        assert!(same(got, axis_on_machine(a, b, c, d)), "{} {} {} {}", a, b, c, d);
    }
}

#[test]
fn axis_anchors() {
    assert_eq!(axis(0.35, 0.35, 0.5, 0.65), 0.0);
    assert_eq!(axis(0.5, 0.35, 0.5, 0.65), 0.5);
    assert_eq!(axis(0.65, 0.35, 0.5, 0.65), 1.0);
    assert_eq!(axis(0.0, 0.35, 0.5, 0.65), 0.0);
    assert_eq!(axis(7.0, 0.35, 0.5, 0.65), 1.0);
    assert_eq!(axis(f32::INFINITY, 0.35, 0.5, 0.65), 1.0);
    assert_eq!(axis(f32::NEG_INFINITY, 0.35, 0.5, 0.65), 0.0);
    assert!(axis(f32::NAN, 0.35, 0.5, 0.65).is_nan());
}

#[test]
fn axis_with_bounds_that_coincide() {
    assert_eq!(axis(0.5, 0.5, 0.5, 0.5), 0.0);
    assert_eq!(axis(0.50005, 0.5, 0.5, 0.5), axis_on_machine(0.50005, 0.5, 0.5, 0.5));
    assert_eq!(axis(0.6, 0.5, 0.5, 0.5), 1.0);
}

#[test]
fn axis_is_missing_where_distance_and_axis_are_infinite() {
    assert!(axis(3e38, -3e38, 3e38, 3.1e38).is_nan());
    assert!(axis(f32::INFINITY, f32::INFINITY, f32::INFINITY, 1.0).is_nan());
}

#[test]
fn axis_keeps_order() {
    let mut last = 0.0;
    for k in 0..2000 {
        let now = axis(k as f32 / 2000.0, 0.3, 0.45, 0.7);
        assert!(now >= last && now <= 1.0);
        last = now;
    }
    assert_eq!(last, 1.0);
}

#[test]
fn weight_follows_the_formula() {
    let mut s = Stream(12);
    for _ in 0..3000 {
        let (a, b, c, d) = (s.unit(), s.unit(), s.unit(), s.unit());
        let got = get_dynamic_face_weight(single(a), single(b), single(c), single(d));
        assert!(same(got, weight_on_machine(a, b, c, d)));
        let near = (c + a * 0.05, d + b * 0.05);
        let got = get_dynamic_face_weight(single(near.0), single(near.1), single(c), single(d));
        assert!(same(got, weight_on_machine(near.0, near.1, c, d)));
        let (a, b, c, d) = (s.any(), s.any(), s.any(), s.any());
        let got = get_dynamic_face_weight(single(a), single(b), single(c), single(d));
        assert!(same(got, weight_on_machine(a, b, c, d)));
        assert!(value(got) >= 0.1 && value(got) <= 0.85);
    }
}

#[test]
fn weight_at_rest_and_at_full_turn() {
    let w = |a: f32, b: f32| {
        value(get_dynamic_face_weight(single(a), single(b), single(0.5), single(0.5)))
    };
    assert_eq!(w(0.5, 0.5), 0.1);
    assert_eq!(w(0.7, 0.5), 0.85);
    assert_eq!(w(0.5, 0.1), 0.85);
    assert_eq!(w(f32::NAN, 0.5), 0.85);
    assert!(w(0.52, 0.5) < w(0.54, 0.5));
    assert_eq!(w(0.5 + 0.04, 0.5), weight_on_machine(0.5 + 0.04, 0.5, 0.5, 0.5));
}

#[test]
fn weight_is_full_where_one_difference_is() {
    let w = |a: f32, b: f32| {
        value(get_dynamic_face_weight(single(a), single(b), single(0.0), single(0.0)))
    };
    let below = f32::from_bits(0.08f32.to_bits() - 2);
    assert_eq!(w(0.08, 0.0), 0.85);
    assert_eq!(w(0.0, -0.08), 0.85);
    assert_eq!(w(0.08, f32::NAN), 0.85);
    assert_eq!(w(f32::NAN, 0.08), 0.85);
    assert_eq!(w(f32::INFINITY, 0.0), 0.85);
    assert_eq!(w(0.08, 1e-30), 0.85);
    assert_eq!(w(below, 0.0), weight_on_machine(below, 0.0, 0.0, 0.0));
    assert!(w(0.07, 0.0) < 0.85);
    // Neither difference is full here, but the distance is.
    assert_eq!(w(0.06, 0.06), 0.85);
}

#[test]
fn weight_grows_with_both_differences() {
    let mut s = Stream(14);
    for _ in 0..3000 {
        let (c, d) = (s.unit(), s.unit());
        let first = (c + s.unit() * 0.1, d - s.unit() * 0.1);
        let second = (c - s.unit() * 0.1, d + s.unit() * 0.1);
        let w = |p: (f32, f32)| {
            value(get_dynamic_face_weight(single(p.0), single(p.1), single(c), single(d)))
        };
        let across = ((first.0 - c).abs(), (second.0 - c).abs());
        let down = ((first.1 - d).abs(), (second.1 - d).abs());
        if across.0 <= across.1 && down.0 <= down.1 {
            assert!(w(first) <= w(second));
        }
        if across.0 >= across.1 && down.0 >= down.1 {
            assert!(w(first) >= w(second));
        }
        assert!(w((c, d)) <= w(first));
    }
}

fn calibration(v: [f32; 10]) -> Calibration {
    let p = |i: usize| (single(v[2 * i]), single(v[2 * i + 1]));
    Calibration { c: p(0), tl: p(1), tr: p(2), bl: p(3), br: p(4) }
}

const EYES: [f32; 10] = [0.5, 0.5, 0.35, 0.3, 0.65, 0.3, 0.35, 0.7, 0.65, 0.7];
const HEAD: [f32; 10] = [0.5, 0.5, 0.45, 0.45, 0.55, 0.45, 0.45, 0.55, 0.55, 0.55];

/// Position, share of the head and move of one step.
fn step_on_machine(
    r: [f32; 4],
    screen: [f32; 2],
    at: [f32; 2],
    e: [f32; 10],
    h: [f32; 10],
    factor: f32,
    invert: [bool; 2],
) -> ([f32; 3], Option<(i32, i32)>) {
    let mid = |a: f32, b: f32| (a + b) / 2.0;
    let ex = axis_on_machine(r[0], mid(e[2], e[6]), e[0], mid(e[4], e[8]));
    let ey = axis_on_machine(r[1], mid(e[3], e[5]), e[1], mid(e[7], e[9]));
    let mut hx = axis_on_machine(r[2], mid(h[2], h[6]), h[0], mid(h[4], h[8]));
    let mut hy = axis_on_machine(r[3], mid(h[3], h[5]), h[1], mid(h[7], h[9]));
    if invert[0] {
        hx = 1.0 - hx;
    }
    if invert[1] {
        hy = 1.0 - hy;
    }
    let w = weight_on_machine(r[2], r[3], h[0], h[1]);
    let tx = (ex * (1.0 - w) + hx * w) * screen[0];
    let ty = (ey * (1.0 - w) + hy * w) * screen[1];
    let (dx, dy) = (tx - at[0], ty - at[1]);
    let active = if (dx.powi(2) + dy.powi(2)).sqrt() < 25.0 { factor * 0.1 } else { factor };
    let (x, y) = (at[0] + dx * active, at[1] + dy * active);
    let moved = x as i32 != at[0] as i32 || y as i32 != at[1] as i32;
    ([x, y, w], if moved { Some((x as i32, y as i32)) } else { None })
}

fn check_step(
    r: [f32; 4],
    screen: [f32; 2],
    at: [f32; 2],
    e: [f32; 10],
    h: [f32; 10],
    factor: f32,
    invert: [bool; 2],
) -> [f32; 2] {
    let got = update_mouse_position(
        single(r[0]),
        single(r[1]),
        single(r[2]),
        single(r[3]),
        single(screen[0]),
        single(screen[1]),
        single(at[0]),
        single(at[1]),
        &calibration(e),
        &calibration(h),
        single(factor),
        invert[0],
        invert[1],
    );
    let (want, moved) = step_on_machine(r, screen, at, e, h, factor, invert);
    assert!(same(got.x, want[0]) && same(got.y, want[1]), "{:?} {:?}", r, at);
    assert!(same(got.face_weight, want[2]));
    assert_eq!(got.move_to, moved);
    [value(got.x), value(got.y)]
}

#[test]
fn steps_follow_the_formula() {
    let mut s = Stream(13);
    for k in 0..2000 {
        let r = [s.unit(), s.unit(), 0.4 + 0.2 * s.unit(), 0.4 + 0.2 * s.unit()];
        let at = [1920.0 * s.unit(), 1080.0 * s.unit()];
        let invert = [k % 2 == 0, k % 3 == 0];
        check_step(r, [1920.0, 1080.0], at, EYES, HEAD, s.unit(), invert);
        let mut e = EYES;
        let mut h = HEAD;
        for i in 0..10 {
            e[i] = s.unit();
            h[i] = s.any();
        }
        check_step(r, [1920.0, 1080.0], at, e, h, s.unit(), invert);
        let r = [s.any(), s.any(), s.any(), s.any()];
        check_step(r, [s.any(), s.any()], [s.any(), s.any()], EYES, HEAD, s.any(), invert);
    }
}

#[test]
fn pointer_stays_on_the_screen() {
    let mut s = Stream(14);
    for factor in [0.01f32, 0.15, 0.5, 1.0] {
        let mut at = [960.0f32, 540.0];
        for _ in 0..400 {
            let r = [3.0 * s.unit() - 1.0, 3.0 * s.unit() - 1.0, s.unit(), s.unit()];
            at = check_step(r, [1920.0, 1080.0], at, EYES, HEAD, factor, [false, true]);
            assert!(at[0] >= 0.0 && at[0] <= 1920.0);
            assert!(at[1] >= 0.0 && at[1] <= 1080.0);
        }
    }
}

#[test]
fn dead_zone_slows_the_pointer_down() {
    let straight = [0.5f32, 0.5, 0.5, 0.5];
    // The target is the middle of the screen.
    let far = check_step(straight, [1920.0, 1080.0], [860.0, 540.0], EYES, HEAD, 0.5, [false; 2]);
    assert_eq!(far, [910.0, 540.0]);
    let near = check_step(straight, [1920.0, 1080.0], [940.0, 540.0], EYES, HEAD, 0.5, [false; 2]);
    assert_eq!(near, [941.0, 540.0]);
    let edge = check_step(straight, [1920.0, 1080.0], [935.0, 540.0], EYES, HEAD, 0.5, [false; 2]);
    assert_eq!(edge, [947.5, 540.0]);
}

#[test]
fn pointer_on_its_target_rests() {
    let straight = [0.5f32, 0.5, 0.5, 0.5];
    let at = check_step(straight, [1920.0, 1080.0], [960.0, 540.0], EYES, HEAD, 0.5, [false; 2]);
    assert_eq!(at, [960.0, 540.0]);
    let got = update_mouse_position(
        single(0.5),
        single(0.5),
        single(0.5),
        single(0.5),
        single(1920.0),
        single(1080.0),
        single(960.0),
        single(540.0),
        &calibration(EYES),
        &calibration(HEAD),
        single(0.5),
        false,
        false,
    );
    assert_eq!(got.move_to, None);
}

#[test]
fn inverting_turns_only_the_head_round() {
    let r = [0.5f32, 0.5, 0.6, 0.5];
    let plain = check_step(r, [1000.0, 1000.0], [500.0, 500.0], EYES, HEAD, 1.0, [false, false]);
    let turned = check_step(r, [1000.0, 1000.0], [500.0, 500.0], EYES, HEAD, 1.0, [true, false]);
    assert!(plain[0] > 500.0 && turned[0] < 500.0);
    assert_eq!(plain[1], turned[1]);
}

#[test]
fn a_screen_of_odd_width_beyond_23_bits_can_be_left() {
    // Why the pointer is only promised to stay on screens of at most 2^23 pixels.
    let w = single(8388611.0);
    let at = single(1.5);
    assert!(w.less(at.plus(w.minus(at))));
    // One bit fewer, and it stays.
    let w = single(8388610.0);
    assert!(at.plus(w.minus(at)).at_most(w));
}

#[test]
fn default_calibration_is_zero() {
    let c = Calibration::default();
    for p in [c.c, c.tl, c.tr, c.bl, c.br] {
        assert_eq!((p.0.to_bits(), p.1.to_bits()), (0, 0));
    }
}
