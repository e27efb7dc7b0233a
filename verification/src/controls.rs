//! What each key does to a session.

use vstd::prelude::*;

use crate::laws;
use crate::number::Number;
use crate::session::{command_of, Command, State};
use crate::value;
use crate::value::{grain, size};

verus! {

/// The lesser of two reals.
pub open spec fn least(a: real, b: real) -> real {
    if a <= b {
        a
    } else {
        b
    }
}

/// The greater of two reals.
pub open spec fn greatest(a: real, b: real) -> real {
    if a <= b {
        b
    } else {
        a
    }
}

proof fn lemma_factor(state: State)
    requires
        state.wf(),
    ensures
        state.factor is Finite,
        0real < state.factor.value() <= 1real,
{
    laws::lemma_unit_places();
    value::lemma_whole_value(1);
    value::ratio_is_near(1, 100);
    value::lemma_value_order(Number::ratio(1, 100), state.factor);
    value::lemma_value_order(state.factor, Number::whole(1));
}

/// At every stage and with every switch, the faster key makes the smoothing
/// strictly greater unless it is one already: by five hundredths, up to one.
/// It changes nothing else.
pub proof fn faster_adds_five_hundredths(state: State)
    requires
        state.wf(),
    ensures
        ({
            let next = state.after_command(Command::Faster);
            let want = least(state.factor.value() + 1real / 20real, 1real);
            &&& state.factor.less(Number::whole(1)) ==> state.factor.less(next.factor)
            &&& next.factor is Finite && size(next.factor.value() - want) <= 2real * grain()
            &&& next == (State { factor: next.factor, ..state })
        }),
{
    value::lemma_wide();
    lemma_factor(state);
    let (f, c, one) = (state.factor, Number::ratio(5, 100), Number::whole(1));
    value::lemma_whole_value(1);
    value::ratio_is_near(5, 100);
    let (fv, cv, step, g) = (f.value(), c.value(), 5real / 100real, grain());
    value::lemma_grain(size(cv - step), step);
    value::plus_within(f, c, fv + cv);
    let r = f.plus(c);
    let rv = r.value();
    assert(rv > fv && -(2real * g) <= rv - (fv + 1real / 20real) <= 2real * g)
        by (nonlinear_arith)
        requires
            0real < fv <= 1real,
            -step <= 0x100_0000real * (cv - step) <= step,
            step == 5real / 100real,
            -(fv + cv) <= 0x100_0000real * (rv - (fv + cv)) <= fv + cv,
            g == 1real / 0x100_0000real,
    ;
    value::lemma_value_order(f, one);
    value::lemma_value_order(one, f);
    value::lemma_value_order(f, r);
    value::lemma_value_order(r, f);
    value::lemma_value_order(one, r);
    value::lemma_value_order(r, one);
}

/// At every stage and with every switch, the slower key makes the smoothing
/// strictly smaller unless it is one hundredth already: by five hundredths,
/// down to one hundredth. It changes nothing else.
pub proof fn slower_takes_five_hundredths(state: State)
    requires
        state.wf(),
    ensures
        ({
            let next = state.after_command(Command::Slower);
            let want = greatest(state.factor.value() - 1real / 20real, 1real / 100real);
            &&& Number::ratio(1, 100).less(state.factor) ==> next.factor.less(state.factor)
            &&& next.factor is Finite && size(next.factor.value() - want) <= 2real * grain()
            &&& next == (State { factor: next.factor, ..state })
        }),
{
    value::lemma_wide();
    lemma_factor(state);
    let (f, c, low) = (state.factor, Number::ratio(5, 100), Number::ratio(1, 100));
    value::ratio_is_near(1, 100);
    value::ratio_is_near(5, 100);
    let (fv, cv, lv) = (f.value(), c.value(), low.value());
    let (step, floor, g) = (5real / 100real, 1real / 100real, grain());
    value::lemma_grain(size(cv - step), step);
    value::lemma_grain(size(lv - floor), floor);
    value::minus_within(f, c, 1real);
    let r = f.minus(c);
    let rv = r.value();
    assert(rv < fv && -(2real * g) <= rv - (fv - 1real / 20real) <= 2real * g && -(2real * g) <= lv
        - 1real / 100real <= 2real * g) by (nonlinear_arith)
        requires
            0real < fv <= 1real,
            -step <= 0x100_0000real * (cv - step) <= step,
            step == 5real / 100real,
            floor == 1real / 100real,
            -floor <= 0x100_0000real * (lv - floor) <= floor,
            -1real <= 0x100_0000real * (rv - (fv - cv)) <= 1real,
            g == 1real / 0x100_0000real,
    ;
    value::lemma_value_order(f, low);
    value::lemma_value_order(low, f);
    value::lemma_value_order(f, r);
    value::lemma_value_order(r, f);
    value::lemma_value_order(low, r);
    value::lemma_value_order(r, low);
}

/// What the smoothing is after a key depends on the key and on what it was
/// before alone.
pub proof fn smoothing_by_smoothing(first: State, second: State, command: Command)
    requires
        first.factor == second.factor,
    ensures
        first.after_command(command).factor == second.after_command(command).factor,
        command != Command::Faster && command != Command::Slower ==> first.after_command(
            command,
        ).factor == first.factor,
{
}

/// Once all eleven stages are through, each switch turns round the one thing
/// that it is for and leaves the rest; before that it does nothing.
pub proof fn switches_turn_one_thing(state: State)
    ensures
        state.after_command(Command::ToggleVisuals) == (State {
            show_visuals: if state.stage == 11 { !state.show_visuals } else { state.show_visuals },
            ..state
        }),
        state.after_command(Command::InvertX) == (State {
            invert_x: if state.stage == 11 { !state.invert_x } else { state.invert_x },
            ..state
        }),
        state.after_command(Command::InvertY) == (State {
            invert_y: if state.stage == 11 { !state.invert_y } else { state.invert_y },
            ..state
        }),
{
}

/// A capture leads to the next stage as long as there is one, and changes
/// nothing else; quitting and keys without a meaning change nothing at all.
pub proof fn capture_leads_on(state: State)
    ensures
        state.stage < 11 ==> state.after_command(Command::Capture) == (State {
            stage: state.stage + 1,
            ..state
        }),
        state.stage >= 11 ==> state.after_command(Command::Capture) == state,
        state.after_command(Command::Quit) == state,
        state.after_command(Command::Nothing) == state,
{
}

/// What the keys mean: of a positive code the lowest byte counts, as the
/// character that it stands for.
pub proof fn keys_by_character(key: int)
    ensures
        command_of(key) == Command::Quit <==> key > 0 && key % 256 == 'q' as int,
        command_of(key) == Command::Restart <==> key > 0 && key % 256 == 'r' as int,
        command_of(key) == Command::ToggleVisuals <==> key > 0 && key % 256 == 'v' as int,
        command_of(key) == Command::InvertX <==> key > 0 && key % 256 == 'x' as int,
        command_of(key) == Command::InvertY <==> key > 0 && key % 256 == 'y' as int,
        command_of(key) == Command::Faster <==> key > 0 && (key % 256 == '=' as int || key % 256
            == '+' as int),
        command_of(key) == Command::Slower <==> key > 0 && key % 256 == '-' as int,
        command_of(key) == Command::Capture <==> key > 0 && key % 256 == 'c' as int,
{
}

}
