//! What is written over the camera picture.

use vstd::arithmetic::power2::*;
use vstd::prelude::*;
use vstd::string::*;

use crate::number::Number;
use crate::rounding;
use crate::single::Single;

verus! {

/// The character of a decimal digit.
pub open spec fn digit(k: nat) -> char {
    (48 + k) as char
}

/// A whole number in decimal.
pub open spec fn decimal(n: nat) -> Seq<char>
    decreases n,
{
    if n < 10 {
        seq![digit(n)]
    } else {
        decimal(n / 10).push(digit(n % 10))
    }
}

/// A magnitude in hundredths, rounded to the nearest, ties to even.
pub open spec fn hundredths(units: nat) -> nat {
    rounding::nearest_even(100 * units, pow2(149))
}

/// A number with two decimals.
pub open spec fn two_decimals(x: Number) -> Seq<char> {
    match x {
        Number::Nan => "NaN"@,
        Number::Infinite { negative } => if negative {
            "-inf"@
        } else {
            "inf"@
        },
        Number::Finite { negative, units } => {
            let h = hundredths(units);
            (if negative { "-"@ } else { ""@ }) + decimal(h / 100) + "."@ + seq![
                digit(h / 10 % 10),
                digit(h % 10),
            ]
        },
    }
}

fn digit_text(k: u32) -> (r: String)
    requires
        k < 10,
    ensures
        r@ == seq![digit(k as nat)],
{
    proof {
        reveal_strlit("0");
        reveal_strlit("1");
        reveal_strlit("2");
        reveal_strlit("3");
        reveal_strlit("4");
        reveal_strlit("5");
        reveal_strlit("6");
        reveal_strlit("7");
        reveal_strlit("8");
        reveal_strlit("9");
    }
    let s: &str = match k {
        0 => "0",
        1 => "1",
        2 => "2",
        3 => "3",
        4 => "4",
        5 => "5",
        6 => "6",
        7 => "7",
        8 => "8",
        _ => "9",
    };
    assert(s@ =~= seq![digit(k as nat)]);
    s.to_owned()
}

fn decimal_text(n: u128) -> (r: String)
    ensures
        r@ == decimal(n as nat),
    decreases n,
{
    if n < 10 {
        digit_text(n as u32)
    } else {
        let mut r: String = decimal_text(n / 10);
        let last: String = digit_text((n % 10) as u32);
        r.append(last.as_str());
        assert(r@ =~= decimal(n as nat));
        r
    }
}

proof fn lemma_nearest_scale(n: nat, d: nat, c: nat)
    requires
        d > 0,
        c > 0,
    ensures
        rounding::nearest_even(n * c, d * c) == rounding::nearest_even(n, d),
{
    assert((n * c) * d == n * (d * c)) by (nonlinear_arith);
    assert(d * c > 0) by (nonlinear_arith)
        requires
            d > 0,
            c > 0,
    ;
    rounding::lemma_nearest_mono(n * c, d * c, n, d);
    rounding::lemma_nearest_mono(n, d, n * c, d * c);
}

/// Whole part and hundredths of the magnitude of a finite number.
fn split_hundredths(x: Single) -> (r: (u128, u32))
    requires
        x@ is Finite,
    ensures
        r.0 == hundredths(x@->units) / 100,
        r.1 == hundredths(x@->units) % 100,
{
    let (m, s) = x.parts();
    proof {
        crate::single::lemma_single_valued(x);
        lemma_pow2_pos(s as nat);
        lemma_pow2_pos(149);
    }
    if s >= 149 {
        let k: u32 = s - 149;
        let ghost whole = m as nat * pow2(k as nat);
        proof {
            lemma_pow2_adds(k as nat, 149);
            lemma_pow2_adds(128, 149);
            lemma2_to64();
            lemma_pow2_adds(64, 64);
            assert(x@->units == whole * pow2(149)) by (nonlinear_arith)
                requires
                    x@->units == m as nat * pow2(s as nat),
                    pow2(s as nat) == pow2(k as nat) * pow2(149),
                    whole == m as nat * pow2(k as nat),
            ;
            assert(whole < pow2(128)) by (nonlinear_arith)
                requires
                    whole * pow2(149) < pow2(128) * pow2(149),
            ;
            rounding::lemma_nearest_exact(pow2(149), 100 * whole);
            assert((100 * whole) * pow2(149) == 100 * x@->units) by (nonlinear_arith)
                requires
                    x@->units == whole * pow2(149),
            ;
            assert((100 * whole) / 100 == whole && (100 * whole) % 100 == 0);
        }
        (crate::single::doubled(m as u128, k), 0)
    } else {
        let k: u32 = 149 - s;
        let n: u64 = 100 * m as u64;
        proof {
            lemma_pow2_pos(k as nat);
            lemma_pow2_adds(k as nat, s as nat);
            assert(n as nat * pow2(s as nat) == 100 * x@->units) by (nonlinear_arith)
                requires
                    n == 100 * m,
                    x@->units == m as nat * pow2(s as nat),
            ;
            lemma_nearest_scale(n as nat, pow2(k as nat), pow2(s as nat));
            lemma2_to64();
            lemma2_to64_rest();
        }
        if k >= 33 {
            proof {
                if k > 33 {
                    lemma_pow2_strictly_increases(33, k as nat);
                }
                rounding::lemma_nearest_is(n as nat, pow2(k as nat), 0);
            }
            (0, 0)
        } else {
            proof {
                lemma_pow2_strictly_increases(k as nat, 33);
                assert(1 * pow2(k as nat) == pow2(k as nat));
            }
            let d: u64 = crate::single::doubled(1, k) as u64;
            let q: u64 = n / d;
            let rest: u64 = n % d;
            let h: u64 = if 2 * rest > d || (2 * rest == d && q % 2 == 1) {
                q + 1
            } else {
                q
            };
            ((h / 100) as u128, (h % 100) as u32)
        }
    }
}

/// The number with two decimals.
pub fn two_decimals_text(x: Single) -> (r: String)
    ensures
        r@ == two_decimals(x@),
{
    if x.is_nan() {
        return "NaN".to_owned();
    }
    let negative: bool = x.is_negative();
    if x.is_infinite() {
        return if negative {
            "-inf".to_owned()
        } else {
            "inf".to_owned()
        };
    }
    let (whole, rest) = split_hundredths(x);
    let mut r: String = if negative {
        "-".to_owned()
    } else {
        "".to_owned()
    };
    let digits: String = decimal_text(whole);
    let tens: String = digit_text(rest / 10);
    let ones: String = digit_text(rest % 10);
    r.append(digits.as_str());
    r.append(".");
    r.append(tens.as_str());
    r.append(ones.as_str());
    proof {
        let h = hundredths(x@->units);
        assert(h / 10 % 10 == (h % 100) / 10);
        assert(h % 10 == (h % 100) % 10);
        assert(r@ =~= two_decimals(x@));
    }
    r
}

/// The line that reports the share of the head.
pub open spec fn weight_line(weight: Number, inverted: bool) -> Seq<char> {
    "Dyn Weight: "@ + two_decimals(weight) + " | InvY: "@ + (if inverted {
        "true"@
    } else {
        "false"@
    })
}

/// The line that reports the share of the head.
pub fn weight_text(weight: Single, inverted: bool) -> (r: String)
    ensures
        r@ == weight_line(weight@, inverted),
{
    let mut r: String = "Dyn Weight: ".to_owned();
    let number: String = two_decimals_text(weight);
    r.append(number.as_str());
    r.append(" | InvY: ");
    if inverted {
        r.append("true");
    } else {
        r.append("false");
    }
    r
}

/// A line of text and where its lower left corner stands.
#[derive(Debug)]
pub struct TextLine {
    pub text: String,
    pub x: i32,
    pub y: i32,
}

impl View for TextLine {
    type V = (Seq<char>, i32, i32);

    open spec fn view(&self) -> (Seq<char>, i32, i32) {
        (self.text@, self.x, self.y)
    }
}

/// The views of a list of lines.
pub open spec fn lines_view(lines: Seq<TextLine>) -> Seq<(Seq<char>, i32, i32)> {
    lines.map_values(|line: TextLine| line@)
}

/// Two lines one below the other; the second is left out where it is empty.
pub open spec fn text_lines(first: Seq<char>, second: Seq<char>) -> Seq<(Seq<char>, i32, i32)> {
    if second.len() == 0 {
        seq![(first, 30i32, 40i32)]
    } else {
        seq![(first, 30i32, 40i32), (second, 30i32, 75i32)]
    }
}

/// Two lines one below the other; the second is left out where it is empty.
pub fn display_text(text1: &str, text2: &str) -> (r: Vec<TextLine>)
    ensures
        lines_view(r@) == text_lines(text1@, text2@),
{
    let mut r: Vec<TextLine> = Vec::new();
    r.push(TextLine { text: text1.to_owned(), x: 30, y: 40 });
    if text2.unicode_len() != 0 {
        r.push(TextLine { text: text2.to_owned(), x: 30, y: 75 });
    }
    assert(lines_view(r@) =~= text_lines(text1@, text2@));
    r
}

} // verus!
