//! Recognition of temperature towers.
//!
//! A temperature tower sets the hotend to a new temperature at regular heights.
//! A program is suspected of being one only where it uses at least four
//! different temperatures that lie at least 10 °C apart.

pub mod laws;

use vstd::prelude::*;

use crate::diagnostics::{Diagnostic, Finding, Severity};
use crate::models::{cow_text, program, Command, GCodeCommand, Spanned};
use crate::scalar::{ratio, ratio_spec, zero, zero_spec, Scalar};
use crate::text::{decimal, has_text, holds_text, lower_ascii, lower_of, push_decimal, push_text};

verus! {

/// A change of the hotend temperature.
pub struct TemperatureStep<N> {
    /// The new temperature in degrees Celsius.
    pub temperature: N,
    /// The height of the head at the change.
    pub z: N,
    /// The source line of the change.
    pub line: u32,
}

impl<N: Copy> Copy for TemperatureStep<N> {

}

impl<N: Copy> Clone for TemperatureStep<N> {
    fn clone(&self) -> (result: Self)
        ensures
            result == *self,
    {
        *self
    }
}

/// Whether setting the hotend to `temperature` is a new step: heating it, and
/// to another temperature than the last.
pub open spec fn is_new_step<N: Scalar>(steps: Seq<TemperatureStep<N>>, temperature: N) -> bool {
    zero_spec::<N>().less_spec(temperature) && (steps.len() == 0
        || !steps.last().temperature.same_spec(temperature))
}

/// Whether setting the hotend to `temperature` is a new step.
pub fn new_step<N: Scalar>(steps: &Vec<TemperatureStep<N>>, temperature: N) -> (result: bool)
    ensures
        result == is_new_step(steps@, temperature),
{
    zero::<N>().less(temperature) && (steps.len() == 0 || !steps[steps.len()
        - 1].temperature.same(temperature))
}

/// Whether no step before `i` has the temperature of step `i`.
pub open spec fn is_fresh<N: Scalar>(steps: Seq<TemperatureStep<N>>, i: int) -> bool {
    forall|j: int|
        0 <= j < i ==> !(#[trigger] steps[j]).temperature.same_spec(steps[i].temperature)
}

/// The number of different temperatures among the first `n` steps.
pub open spec fn distinct<N: Scalar>(steps: Seq<TemperatureStep<N>>, n: int) -> nat
    decreases n,
{
    if n <= 0 {
        0
    } else if is_fresh(steps, n - 1) {
        distinct(steps, n - 1) + 1
    } else {
        distinct(steps, n - 1)
    }
}

/// Whether two of the temperatures lie at least 10 °C apart.
pub open spec fn spans_ten_degrees<N: Scalar>(steps: Seq<TemperatureStep<N>>) -> bool {
    exists|i: int, j: int|
        0 <= i < steps.len() && 0 <= j < steps.len() && N::of_spec(10).at_most_spec(
            (#[trigger] steps[i]).temperature.minus_spec((#[trigger] steps[j]).temperature),
        )
}

/// The height from step `i - 1` to step `i`.
pub open spec fn rise<N: Scalar>(steps: Seq<TemperatureStep<N>>, i: int) -> N {
    steps[i].z.minus_spec(steps[i - 1].z)
}

/// Whether the heights rise in equal steps, up to 20% of the first.
pub open spec fn is_regular<N: Scalar>(steps: Seq<TemperatureStep<N>>) -> bool {
    steps.len() >= 2 && zero_spec::<N>().less_spec(rise(steps, 1)) && forall|i: int|
        1 <= i < steps.len() ==> (#[trigger] rise(steps, i)).minus_spec(
            rise(steps, 1),
        ).abs_spec().at_most_spec(rise(steps, 1).times_spec(ratio_spec(1, 5)))
}

/// Whether every temperature is less than the one before it.
pub open spec fn is_falling<N: Scalar>(steps: Seq<TemperatureStep<N>>) -> bool {
    forall|i: int|
        1 <= i < steps.len() ==> (#[trigger] steps[i]).temperature.less_spec(
            steps[i - 1].temperature,
        )
}

/// Whether every temperature is greater than the one before it.
pub open spec fn is_rising<N: Scalar>(steps: Seq<TemperatureStep<N>>) -> bool {
    forall|i: int|
        1 <= i < steps.len() ==> steps[i - 1].temperature.less_spec(
            (#[trigger] steps[i]).temperature,
        )
}

/// Whether there are enough different temperatures, far enough apart.
pub open spec fn is_suspect<N: Scalar>(steps: Seq<TemperatureStep<N>>) -> bool {
    distinct(steps, steps.len() as int) >= 4 && spans_ten_degrees(steps)
}

/// Whether the steps form a staircase: monotone, and at regular heights.
pub open spec fn is_staircase<N: Scalar>(steps: Seq<TemperatureStep<N>>) -> bool {
    is_regular(steps) && (is_falling(steps) || is_rising(steps))
}

/// Whether a comment speaks of a temperature tower or a calibration.
pub open spec fn is_hint(text: Seq<char>) -> bool {
    let lower = lower_of(text);
    has_text(lower, "temperature tower"@) || has_text(lower, "temp tower"@) || has_text(
        lower,
        "calibration"@,
    )
}

/// The line of the first comment from command `i` on that speaks of a tower.
pub open spec fn hint_from<N>(p: Seq<Spanned<Command<N>>>, i: int) -> Option<u32>
    decreases p.len() - i,
{
    if i >= p.len() {
        None
    } else {
        match p[i].inner {
            Command::Comment { text } => if is_hint(text) {
                Some(p[i].line)
            } else {
                hint_from(p, i + 1)
            },
            _ => hint_from(p, i + 1),
        }
    }
}

/// The height and the temperature of each of the first `n` steps.
pub open spec fn step_table<N: Scalar>(steps: Seq<TemperatureStep<N>>, n: int) -> Seq<char>
    decreases n,
{
    if n <= 0 {
        Seq::empty()
    } else {
        step_table(steps, n - 1) + (if n > 1 {
            ", "@
        } else {
            ": "@
        }) + "Z "@ + steps[n - 1].z.fixed_spec(3) + " "@ + steps[n - 1].temperature.fixed_spec(0)
            + " °C"@
    }
}

/// The note on a probable temperature tower, if the program is suspected of being one.
pub open spec fn tower_notes<N: Scalar>(
    p: Seq<Spanned<Command<N>>>,
    steps: Seq<TemperatureStep<N>>,
) -> Seq<Finding> {
    if !is_suspect(steps) {
        Seq::empty()
    } else if is_staircase(steps) {
        seq![
            Finding {
                severity: Severity::Info,
                line: steps[0].line,
                code: "I003"@,
                message: "probable temperature tower detected"@ + step_table(
                    steps,
                    steps.len() as int,
                ) + " — verify this is intentional"@,
            },
        ]
    } else {
        match hint_from(p, 0) {
            Some(line) => seq![
                Finding {
                    severity: Severity::Info,
                    line,
                    code: "I003"@,
                    message: "comment hints at a temperature tower or calibration print with "@
                        + decimal(distinct(steps, steps.len() as int))
                        + " temperatures — verify this is intentional"@,
                },
            ],
            None => Seq::empty(),
        }
    }
}

fn count_distinct<N: Scalar>(steps: &Vec<TemperatureStep<N>>) -> (result: usize)
    ensures
        result == distinct(steps@, steps.len() as int),
{
    let mut count: usize = 0;
    let mut i: usize = 0;
    while i < steps.len()
        invariant
            i <= steps.len(),
            count <= i,
            count == distinct(steps@, i as int),
        decreases steps.len() - i,
    {
        let mut fresh = true;
        let mut j: usize = 0;
        while j < i
            invariant
                j <= i < steps.len(),
                fresh == forall|k: int|
                    0 <= k < j ==> !(#[trigger] steps@[k]).temperature.same_spec(
                        steps@[i as int].temperature,
                    ),
            decreases i - j,
        {
            if steps[j].temperature.same(steps[i].temperature) {
                fresh = false;
                proof {
                    assert(steps@[j as int].temperature.same_spec(steps@[i as int].temperature));
                }
            }
            j = j + 1;
        }
        proof {
            assert(fresh == is_fresh(steps@, i as int));
        }
        if fresh {
            count = count + 1;
        }
        i = i + 1;
    }
    count
}

fn ten_degrees_apart<N: Scalar>(steps: &Vec<TemperatureStep<N>>) -> (result: bool)
    ensures
        result == spans_ten_degrees(steps@),
{
    let ten = N::of(10);
    let mut i: usize = 0;
    while i < steps.len()
        invariant
            i <= steps.len(),
            ten == N::of_spec(10),
            forall|k: int, m: int|
                0 <= k < i && 0 <= m < steps.len() ==> !N::of_spec(10).at_most_spec(
                    (#[trigger] steps@[k]).temperature.minus_spec(
                        (#[trigger] steps@[m]).temperature,
                    ),
                ),
        decreases steps.len() - i,
    {
        let mut j: usize = 0;
        while j < steps.len()
            invariant
                i < steps.len(),
                j <= steps.len(),
                ten == N::of_spec(10),
                forall|m: int|
                    0 <= m < j ==> !N::of_spec(10).at_most_spec(
                        steps@[i as int].temperature.minus_spec(
                            (#[trigger] steps@[m]).temperature,
                        ),
                    ),
            decreases steps.len() - j,
        {
            if ten.at_most(steps[i].temperature.minus(steps[j].temperature)) {
                proof {
                    assert(N::of_spec(10).at_most_spec(
                        steps@[i as int].temperature.minus_spec(steps@[j as int].temperature),
                    ));
                }
                return true;
            }
            j = j + 1;
        }
        i = i + 1;
    }
    false
}

fn staircase<N: Scalar>(steps: &Vec<TemperatureStep<N>>) -> (result: bool)
    ensures
        result == is_staircase(steps@),
{
    if steps.len() < 2 {
        return false;
    }
    let first = steps[1].z.minus(steps[0].z);
    if !zero::<N>().less(first) {
        return false;
    }
    let slack = first.times(ratio(1, 5));
    let mut falling = true;
    let mut rising = true;
    let mut i: usize = 1;
    while i < steps.len()
        invariant
            1 <= i <= steps.len(),
            first == rise(steps@, 1),
            slack == first.times_spec(ratio_spec(1, 5)),
            forall|k: int|
                1 <= k < i ==> (#[trigger] rise(steps@, k)).minus_spec(
                    rise(steps@, 1),
                ).abs_spec().at_most_spec(rise(steps@, 1).times_spec(ratio_spec(1, 5))),
            falling == forall|k: int|
                1 <= k < i ==> (#[trigger] steps@[k]).temperature.less_spec(
                    steps@[k - 1].temperature,
                ),
            rising == forall|k: int|
                1 <= k < i ==> steps@[k - 1].temperature.less_spec(
                    (#[trigger] steps@[k]).temperature,
                ),
        decreases steps.len() - i,
    {
        let here = steps[i].z.minus(steps[i - 1].z);
        proof {
            assert(here == rise(steps@, i as int));
        }
        if !here.minus(first).abs().at_most(slack) {
            return false;
        }
        if !steps[i].temperature.less(steps[i - 1].temperature) {
            falling = false;
            proof {
                assert(!steps@[i as int].temperature.less_spec(steps@[i - 1].temperature));
            }
        }
        if !steps[i - 1].temperature.less(steps[i].temperature) {
            rising = false;
            proof {
                assert(!steps@[i - 1].temperature.less_spec(steps@[i as int].temperature));
            }
        }
        i = i + 1;
    }
    falling || rising
}

fn hints(text: &str) -> (result: bool)
    ensures
        result == is_hint(text@),
{
    let lower = lower_ascii(text);
    holds_text(&lower, "temperature tower") || holds_text(&lower, "temp tower") || holds_text(
        &lower,
        "calibration",
    )
}

fn find_hint<N>(commands: &[Spanned<GCodeCommand<'_, N>>]) -> (result: Option<u32>)
    ensures
        result == hint_from(program(commands@), 0),
{
    let ghost p = program(commands@);
    let mut i: usize = 0;
    while i < commands.len()
        invariant
            i <= commands.len(),
            p == program(commands@),
            hint_from(p, 0) == hint_from(p, i as int),
        decreases commands.len() - i,
    {
        proof {
            assert(p[i as int] == commands@[i as int]@);
        }
        if let GCodeCommand::Comment { text } = &commands[i].inner {
            if hints(cow_text(text)) {
                return Some(commands[i].line);
            }
        }
        i = i + 1;
    }
    None
}

fn write_table<N: Scalar>(text: &mut String, steps: &Vec<TemperatureStep<N>>)
    ensures
        final(text)@ == old(text)@ + step_table(steps@, steps.len() as int),
{
    let mut i: usize = 0;
    proof {
        assert(text@ =~= old(text)@ + step_table(steps@, 0));
    }
    while i < steps.len()
        invariant
            i <= steps.len(),
            text@ == old(text)@ + step_table(steps@, i as int),
        decreases steps.len() - i,
    {
        if i > 0 {
            push_text(text, ", ");
        } else {
            push_text(text, ": ");
        }
        push_text(text, "Z ");
        push_text(text, steps[i].z.fixed(3).as_str());
        push_text(text, " ");
        push_text(text, steps[i].temperature.fixed(0).as_str());
        push_text(text, " °C");
        i = i + 1;
        proof {
            assert(text@ =~= old(text)@ + step_table(steps@, i as int));
        }
    }
}

/// The note on a probable temperature tower, if the program is suspected of being one.
pub fn detect_tower<N: Scalar>(
    commands: &[Spanned<GCodeCommand<'_, N>>],
    steps: &Vec<TemperatureStep<N>>,
) -> (result: Option<Diagnostic>)
    ensures
        match result {
            Some(note) => tower_notes(program(commands@), steps@) == seq![note@],
            None => tower_notes(program(commands@), steps@).len() == 0,
        },
{
    let count: usize = count_distinct(steps);
    if count < 4 || !ten_degrees_apart(steps) {
        return None;
    }
    let mut message = String::new();
    if staircase(steps) {
        push_text(&mut message, "probable temperature tower detected");
        write_table(&mut message, steps);
        push_text(&mut message, " — verify this is intentional");
        return Some(
            Diagnostic { severity: Severity::Info, line: steps[0].line, code: "I003", message },
        );
    }
    match find_hint(commands) {
        Some(line) => {
            push_text(
                &mut message,
                "comment hints at a temperature tower or calibration print with ",
            );
            push_decimal(&mut message, count as u64);
            push_text(&mut message, " temperatures — verify this is intentional");
            Some(Diagnostic { severity: Severity::Info, line, code: "I003", message })
        },
        None => None,
    }
}

} // verus!
