//! Overlay texts.

use eye_control::single::Single;
use eye_control::text::{display_text, two_decimals_text, weight_text};

fn single(x: f32) -> Single {
    Single::from_bits(x.to_bits())
}

#[test]
fn two_decimals_exact() {
    let cases: [(f32, &str); 12] = [
        (0.0, "0.00"),
        (-0.0, "-0.00"),
        (0.1, "0.10"),
        (0.85, "0.85"),
        (0.125, "0.12"),
        (0.375, "0.38"),
        (0.004, "0.00"),
        (-2.5, "-2.50"),
        (99.999, "100.00"),
        (16777216.0, "16777216.00"),
        (f32::INFINITY, "inf"),
        (f32::NEG_INFINITY, "-inf"),
    ];
    for (x, want) in cases {
        assert_eq!(two_decimals_text(single(x)), want);
    }
    assert_eq!(two_decimals_text(single(f32::NAN)), "NaN");
    assert_eq!(
        two_decimals_text(single(f32::MAX)),
        "340282346638528859811704183484516925440.00"
    );
}

#[test]
fn two_decimals_follow_the_formatter() {
    let mut state: u64 = 21;
    for _ in 0..20000 {
        state = state.wrapping_mul(6364136223846793005).wrapping_add(1442695040888963407);
        let bits = (state >> 32) as u32;
        for b in [bits, (bits & 0x807f_ffff) | (((bits >> 23) % 40 + 110) << 23)] {
            let x = f32::from_bits(b);
            assert_eq!(two_decimals_text(single(x)), format!("{:.2}", x), "{:08x}", b);
        }
    }
}

#[test]
fn weight_report() {
    assert_eq!(weight_text(single(0.1), false), "Dyn Weight: 0.10 | InvY: false");
    assert_eq!(weight_text(single(0.4567), true), "Dyn Weight: 0.46 | InvY: true");
}

#[test]
fn two_lines_one_below_the_other() {
    let lines = display_text("above", "below");
    assert_eq!(lines.len(), 2);
    assert_eq!((lines[0].text.as_str(), lines[0].x, lines[0].y), ("above", 30, 40));
    assert_eq!((lines[1].text.as_str(), lines[1].x, lines[1].y), ("below", 30, 75));
}

#[test]
fn an_empty_second_line_is_left_out() {
    let lines = display_text("alone", "");
    assert_eq!(lines.len(), 1);
    assert_eq!(lines[0].text, "alone");
    assert_eq!(display_text("", "second").len(), 2);
}
