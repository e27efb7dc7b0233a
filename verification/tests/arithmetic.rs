//! Every operation on `Single` held against the machine's own single precision.

use eye_control::single::Single;

/// Bit patterns: the boundary cases, then a fixed pseudo-random run.
fn samples(count: usize, seed: u64) -> Vec<u32> {
    let mut v: Vec<u32> = vec![
        0x0000_0000, 0x8000_0000, 0x0000_0001, 0x8000_0001, 0x007f_ffff, 0x0080_0000, 0x0080_0001,
        0x3f80_0000, 0xbf80_0000, 0x3f7f_ffff, 0x3f80_0001, 0x3f00_0000, 0x4000_0000, 0x4b80_0000,
        0x4b7f_ffff, 0x4eff_ffff, 0x4f00_0000, 0xcf00_0000, 0xcf00_0001, 0x7f7f_ffff, 0xff7f_ffff,
        0x7f80_0000, 0xff80_0000, 0x7fc0_0000, 0xffc0_0001, 0x3dcc_cccd, 0x3e19_999a, 0x44f0_0000,
    ];
    let mut state: u64 = seed;
    while v.len() < count {
        state = state.wrapping_mul(6364136223846793005).wrapping_add(1442695040888963407);
        let bits = (state >> 32) as u32;
        v.push(bits);
        // The same significand near one, where results do not over- or underflow.
        v.push((bits & 0x807f_ffff) | (((bits >> 23) % 32 + 112) << 23));
    }
    v
}

fn same(got: Single, want: f32) -> bool {
    let bits = got.to_bits();
    if want.is_nan() {
        f32::from_bits(bits).is_nan()
    } else {
        bits == want.to_bits()
    }
}

#[test]
fn sums_and_differences_round_as_the_machine_does() {
    let v = samples(300, 1);
    for &a in &v {
        for &b in &v {
            let (x, y) = (f32::from_bits(a), f32::from_bits(b));
            let (s, t) = (Single::from_bits(a), Single::from_bits(b));
            assert!(same(s.plus(t), x + y), "{:08x} + {:08x}", a, b);
            assert!(same(s.minus(t), x - y), "{:08x} - {:08x}", a, b);
        }
    }
}

#[test]
fn products_and_quotients_round_as_the_machine_does() {
    let v = samples(300, 2);
    for &a in &v {
        for &b in &v {
            let (x, y) = (f32::from_bits(a), f32::from_bits(b));
            let (s, t) = (Single::from_bits(a), Single::from_bits(b));
            assert!(same(s.times(t), x * y), "{:08x} * {:08x}", a, b);
            assert!(same(s.over(t), x / y), "{:08x} / {:08x}", a, b);
        }
    }
}

#[test]
fn roots_round_as_the_machine_does() {
    for &a in &samples(20000, 3) {
        let x = f32::from_bits(a);
        assert!(same(Single::from_bits(a).root(), x.sqrt()), "sqrt {:08x}", a);
    }
}

#[test]
fn squares_are_products() {
    for &a in &samples(20000, 4) {
        let x = f32::from_bits(a);
        let s = Single::from_bits(a);
        assert!(same(s.times(s), x.powi(2)), "square {:08x}", a);
    }
}

#[test]
fn order_follows_the_machine() {
    let v = samples(400, 5);
    for &a in &v {
        for &b in &v {
            let (x, y) = (f32::from_bits(a), f32::from_bits(b));
            let (s, t) = (Single::from_bits(a), Single::from_bits(b));
            assert_eq!(s.less(t), x < y);
            assert_eq!(s.at_most(t), x <= y);
            // Zeros of either sign are equal, and either may come out.
            if x != y {
                assert!(same(s.lesser(t), x.min(y)));
                assert!(same(s.greater(t), x.max(y)));
            }
        }
    }
}

#[test]
fn signs_and_classes() {
    for &a in &samples(5000, 6) {
        let x = f32::from_bits(a);
        let s = Single::from_bits(a);
        assert_eq!(s.negated().to_bits(), (-x).to_bits());
        assert_eq!(s.magnitude().to_bits(), x.abs().to_bits());
        assert_eq!(s.is_nan(), x.is_nan());
        assert_eq!(s.is_infinite(), x.is_infinite());
        assert_eq!(s.is_negative(), x.is_sign_negative());
    }
}

#[test]
fn clamping_follows_the_machine() {
    let low = Single::from_i32(0);
    let high = Single::from_i32(1);
    for &a in &samples(5000, 7) {
        let x = f32::from_bits(a);
        assert!(same(Single::from_bits(a).clamped(low, high), x.clamp(0.0, 1.0)));
    }
}

#[test]
fn conversions_follow_the_machine() {
    for &a in &samples(20000, 8) {
        assert_eq!(Single::from_bits(a).to_i32(), f32::from_bits(a) as i32, "{:08x}", a);
        let i = a as i32;
        assert_eq!(Single::from_i32(i).to_bits(), (i as f32).to_bits(), "{}", i);
    }
    for i in [0, 1, -1, 16777215, 16777216, 16777217, 16777219, i32::MAX, i32::MIN] {
        assert_eq!(Single::from_i32(i).to_bits(), (i as f32).to_bits(), "{}", i);
    }
}

#[test]
fn ratios_are_decimal_literals() {
    assert_eq!(Single::ratio(1, 10).to_bits(), 0.1f32.to_bits());
    assert_eq!(Single::ratio(85, 100).to_bits(), 0.85f32.to_bits());
    assert_eq!(Single::ratio(8, 100).to_bits(), 0.08f32.to_bits());
    assert_eq!(Single::ratio(15, 100).to_bits(), 0.15f32.to_bits());
    assert_eq!(Single::ratio(5, 100).to_bits(), 0.05f32.to_bits());
    assert_eq!(Single::ratio(1, 100).to_bits(), 0.01f32.to_bits());
    assert_eq!(Single::ratio(4, 1000).to_bits(), 0.004f32.to_bits());
    assert_eq!(Single::ratio(1, 10000).to_bits(), 0.0001f32.to_bits());
    assert_eq!(Single::ratio(1, 8388608).to_bits(), f32::EPSILON.to_bits());
    assert_eq!(Single::ratio(0, 7).to_bits(), 0.0f32.to_bits());
    assert_eq!(Single::ratio(4294967295, 1).to_bits(), (4294967295u32 as f32).to_bits());
}

#[test]
fn default_is_positive_zero() {
    assert_eq!(Single::default().to_bits(), 0);
}
