//! What holds of the text and the marks that are drawn over a frame.

use vstd::arithmetic::power2::*;
use vstd::prelude::*;
use vstd::string::*;

use crate::face;
use crate::face::Landmark;
use crate::number::Number;
use crate::session::{half_of, prompt, State};
use crate::text;
use crate::value;

verus! {

/// The number that a run of decimal digits stands for.
pub open spec fn read_digits(s: Seq<char>) -> int
    decreases s.len(),
{
    if s.len() == 0 {
        0
    } else {
        10 * read_digits(s.drop_last()) + (s.last() as int - '0' as int)
    }
}

/// Whether a text consists of decimal digits.
pub open spec fn all_digits(s: Seq<char>) -> bool {
    forall|i: int| 0 <= i < s.len() ==> '0' as int <= (#[trigger] s[i]) as int <= '9' as int
}

/// A whole number in decimal reads back as itself, with no digit to spare.
pub proof fn decimal_reads_back(n: nat)
    ensures
        ({
            let s = text::decimal(n);
            &&& s.len() >= 1
            &&& all_digits(s)
            &&& read_digits(s) == n
            &&& s.len() > 1 ==> s[0] != '0'
            &&& n > 0 ==> s[0] != '0'
        }),
    decreases n,
{
    let s = text::decimal(n);
    if n < 10 {
        assert(s.drop_last() =~= seq![]);
        assert(read_digits(s.drop_last()) == 0);
        assert(s.last() as int == 48 + n);
    } else {
        decimal_reads_back(n / 10);
        let t = text::decimal(n / 10);
        let last = text::digit(n % 10);
        assert(last as int == 48 + n % 10);
        assert(s == t.push(last));
        assert(s.drop_last() =~= t);
        assert forall|i: int| 0 <= i < s.len() implies '0' as int <= (#[trigger] s[i]) as int <= '9' as int by {
            if i < t.len() {
                assert(s[i] == t[i]);
            }
        }
    }
}

/// A finite number is written with a sign where it is negative and with two
/// decimals; the digits, read without the point, are the number of hundredths
/// nearest to it.
pub proof fn two_decimals_are_nearest(x: Number)
    requires
        x is Finite,
    ensures
        ({
            let s = text::two_decimals(x);
            let units = vstd::math::abs(x.place());
            let body = if x.is_negative() { s.skip(1) } else { s };
            let point = body.len() - 3;
            let digits = body.take(point) + body.skip(point + 1);
            let one = pow2(149) as int;
            &&& x.is_negative() ==> s.len() > 1 && s[0] == '-'
            &&& body.len() >= 4
            &&& body[point] == '.'
            &&& all_digits(digits)
            &&& body.len() > 4 ==> body[0] != '0'
            &&& -one <= 2 * (read_digits(digits) * one - 100 * units) <= one
        }),
{
    reveal_strlit("-");
    reveal_strlit("");
    reveal_strlit(".");
    let units = x->Finite_units;
    let h = text::hundredths(units);
    let whole = text::decimal(h / 100);
    let (d, e) = (text::digit(h / 10 % 10), text::digit(h % 10));
    decimal_reads_back(h / 100);
    let s = text::two_decimals(x);
    let body = if x.is_negative() { s.skip(1) } else { s };
    assert(body =~= whole + seq!['.', d, e]);
    let point = body.len() - 3;
    let digits = body.take(point) + body.skip(point + 1);
    assert(body.take(point) =~= whole);
    assert(body.skip(point + 1) =~= seq![d, e]);
    assert(digits =~= whole.push(d).push(e));
    assert(d as int == 48 + h / 10 % 10 && e as int == 48 + h % 10);
    assert(digits.drop_last() =~= whole.push(d));
    assert(digits.drop_last().drop_last() =~= whole);
    assert(read_digits(whole.push(d)) == 10 * (h / 100) as int + h / 10 % 10);
    assert(read_digits(digits) == h);
    assert forall|i: int| 0 <= i < digits.len() implies '0' as int <= (#[trigger] digits[i]) as int <= '9' as int by {
        if i < whole.len() {
            assert(digits[i] == whole[i]);
        }
    }
    assert(whole.len() > 1 ==> body[0] == whole[0]);
    // The hundredths are the nearest whole number.
    let one = pow2(149);
    lemma_pow2_pos(149);
    vstd::arithmetic::div_mod::lemma_fundamental_div_mod((100 * units) as int, one as int);
    vstd::arithmetic::div_mod::lemma_mod_bound((100 * units) as int, one as int);
    let q = (100 * units) / one;
    assert((q + 1) * one == q * one + one) by (nonlinear_arith);
    assert(one * q == q * one) by (nonlinear_arith);
}

/// What is drawn where: nothing without measurable eyes, the prompt of the
/// stage while the calibration lasts, and then, unless it is hidden, the share
/// of the head as it was before the frame.
pub proof fn overlay_shows_state(state: State, mesh: Seq<Landmark>)
    ensures
        ({
            let lines = state.overlay_of_frame(mesh);
            let shown = face::eyes_measurable(mesh) && (state.stage < 11 || state.show_visuals);
            &&& lines.len() == if shown { 2nat } else { 0 }
            &&& shown ==> {
                &&& lines[0].1 == 30 && lines[0].2 == 40
                &&& lines[1].1 == 30 && lines[1].2 == 75
            }
            &&& shown && state.stage < 11 ==> {
                &&& lines[0].0 == prompt(state.stage)
                &&& lines[1].0 == "Press 'c' to set"@
            }
            &&& shown && state.stage >= 11 ==> {
                let line = lines[0].0;
                let number = text::two_decimals(state.weight);
                let end = if state.invert_y { " | InvY: true"@ } else { " | InvY: false"@ };
                &&& line == "Dyn Weight: "@ + number + end
                &&& lines[1].0 == "Press 'x'/'y' to invert, 'v' to hide UI"@
            }
        }),
{
    reveal_strlit("Press 'c' to set");
    reveal_strlit("Press 'x'/'y' to invert, 'v' to hide UI");
    reveal_strlit(" | InvY: true");
    reveal_strlit(" | InvY: false");
    reveal_strlit(" | InvY: ");
    reveal_strlit("true");
    reveal_strlit("false");
    let number = text::two_decimals(state.weight);
    let end = if state.invert_y { " | InvY: true"@ } else { " | InvY: false"@ };
    assert(text::weight_line(state.weight, state.invert_y) =~= "Dyn Weight: "@ + number + end);
}

/// Two lines stand one below the other, the second only where there is one.
pub proof fn lines_stand_below_one_another(first: Seq<char>, second: Seq<char>)
    ensures
        ({
            let lines = text::text_lines(first, second);
            &&& lines.len() == if second.len() > 0 { 2nat } else { 1 }
            &&& lines[0] == (first, 30i32, 40i32)
            &&& second.len() > 0 ==> lines[1] == (second, 30i32, 75i32)
        }),
{
}

/// What is drawn depends on the mesh only by whether its eyes can be measured.
pub proof fn overlay_by_measurability(state: State, first: Seq<Landmark>, second: Seq<Landmark>)
    requires
        face::eyes_measurable(first) == face::eyes_measurable(second),
    ensures
        state.overlay_of_frame(first) == state.overlay_of_frame(second),
{
}

/// A prompt begins with the number of its stage, counted from one.
pub proof fn prompt_begins_with_number(stage: nat)
    requires
        stage < 11,
    ensures
        ({
            let n = text::decimal(stage + 1);
            let p = prompt(stage);
            &&& p.len() > n.len() + 2
            &&& p.take(n.len() as int) == n
            &&& p[n.len() as int] == '.'
            &&& p[n.len() as int + 1] == ' '
        }),
{
    reveal_strlit("1. Look DEAD CENTER of screen");
    reveal_strlit("2. Look TOP-LEFT (Move EYES only)");
    reveal_strlit("3. Look TOP-RIGHT (Move EYES only)");
    reveal_strlit("4. Look BOTTOM-LEFT (Move EYES only)");
    reveal_strlit("5. Look BOTTOM-RIGHT (Move EYES only)");
    reveal_strlit("6. Turn HEAD slightly TOP-LEFT");
    reveal_strlit("7. Turn HEAD slightly TOP-RIGHT");
    reveal_strlit("8. Turn HEAD slightly BOTTOM-LEFT");
    reveal_strlit("9. Turn HEAD slightly BOTTOM-RIGHT");
    reveal_strlit("10. Look naturally (Eyes open)");
    reveal_strlit("11. Close LEFT EYE completely");
    reveal_with_fuel(text::decimal, 3);
    let n = text::decimal(stage + 1);
    assert(prompt(stage).take(n.len() as int) =~= n);
}

/// The dot of the first stage stands in the middle of the frame, and nowhere
/// else is there one.
pub proof fn marker_stands_in_middle(state: State, mesh: Seq<Landmark>, cols: int, rows: int)
    requires
        0 <= cols <= 0x100_0000,
        0 <= rows <= 0x100_0000,
    ensures
        ({
            let marker = state.marker_of_frame(mesh, cols, rows);
            &&& marker is Some <==> face::eyes_measurable(mesh) && state.stage == 0
            &&& marker matches Some((x, y)) ==> {
                &&& 2 * x <= cols < 2 * x + 2
                &&& 2 * y <= rows < 2 * y + 2
            }
        }),
{
    lemma_half_of(cols);
    lemma_half_of(rows);
}

proof fn lemma_half_of(n: int)
    requires
        0 <= n <= 0x100_0000,
    ensures
        half_of(n) == n / 2,
{
    let one = pow2(149) as int;
    let r = Number::whole(n).over(Number::whole(2));
    value::half_of_whole_is_exact(n);
    value::lemma_value(r);
    let (x, o) = (r.value(), one as real);
    assert((n * one) as real == n as real * o) by (nonlinear_arith)
        requires
            o == one as real,
    ;
    assert(2real * (x * o) == n as real * o) by (nonlinear_arith)
        requires
            2real * x == n as real,
    ;
    let u = r.place();
    assert(2 * u == n * one);
    lemma_pow2_pos(149);
    reveal(Number::truncated);
    let k = n / 2;
    let rest = u - k * one;
    assert(0 <= rest < one && u >= 0) by (nonlinear_arith)
        requires
            2 * u == n * one,
            rest == u - k * one,
            2 * k <= n <= 2 * k + 1,
            n >= 0,
            one > 0,
    ;
    vstd::arithmetic::div_mod::lemma_fundamental_div_mod_converse(u, one, k, rest);
    if u == 0 {
        assert(0int / one == 0) by (nonlinear_arith)
            requires
                one > 0,
        ;
    }
}

}
