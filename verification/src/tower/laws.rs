//! What makes a temperature tower, told from its steps alone.
//!
//! The laws on numbers are about decimal numbers, and are stated over whole numbers of
//! millionths.

use vstd::prelude::*;

use crate::analyzer::simulate;
use crate::diagnostics::Severity;
use crate::fixed::Fixed;
use crate::models::{Command, MachineLimits, Spanned};
use crate::parser::setting_in;
use crate::roundtrip::is_numeral;
use crate::roundtrip::letters::lemma_one_word;
use crate::scalar::{ratio_spec, Scalar};
use crate::tower::{
    distinct, hint_from, is_falling, is_fresh, is_regular, is_rising, is_staircase, rise,
    spans_ten_degrees, tower_notes, TemperatureStep,
};

verus! {

// ── Steps ─────────────────────────────────────────────────────────────────────

/// Setting the hotend with M104 or M109 to a positive temperature other than the last
/// one is a step, at the height where the head is; nothing else is one.
pub proof fn lemma_heating_is_a_step<N: Scalar>(
    p: Seq<Spanned<Command<N>>>,
    limits: Option<MachineLimits<N>>,
    n: int,
    code: u16,
    params: Seq<char>,
)
    requires
        0 <= n < p.len(),
        p[n].inner == (Command::<N>::MetaCommand { code, params }),
    ensures
        ({
            let s = simulate(p, limits, n);
            let t = simulate(p, limits, n + 1);
            let heat = setting_in::<N>(params);
            let steps = s.steps;
            let is_step = (code == 104 || code == 109) && heat is Some && N::of_spec(0).less_spec(
                heat->0,
            ) && (steps.len() == 0 || !steps.last().temperature.same_spec(heat->0));
            t.steps == if is_step {
                steps.push(TemperatureStep { temperature: heat->0, z: s.pos.z, line: p[n].line })
            } else {
                steps
            }
        }),
{
}

/// `S` and a number set that number.
pub proof fn lemma_setting_is_read<N: Scalar>(numeral: Seq<char>)
    requires
        is_numeral(numeral),
        N::parse_spec(numeral) is Some,
    ensures
        setting_in::<N>(seq!['S'] + numeral) == N::parse_spec(numeral),
{
    lemma_one_word::<N>('S', numeral);
}

// ── Towers ────────────────────────────────────────────────────────────────────

/// Whether every step has one of three temperatures.
pub open spec fn has_three_at_most(
    steps: Seq<TemperatureStep<Fixed>>,
    a: Fixed,
    b: Fixed,
    c: Fixed,
) -> bool {
    forall|i: int|
        0 <= i < steps.len() ==> (#[trigger] steps[i]).temperature == a || steps[i].temperature == b
            || steps[i].temperature == c
}

/// Whether one of the first `n` steps has the temperature.
spec fn is_seen(steps: Seq<TemperatureStep<Fixed>>, a: Fixed, n: int) -> bool {
    exists|i: int| 0 <= i < n && (#[trigger] steps[i]).temperature == a
}

spec fn one_if(b: bool) -> nat {
    if b {
        1
    } else {
        0
    }
}

proof fn lemma_seen_grows(steps: Seq<TemperatureStep<Fixed>>, a: Fixed, n: int)
    requires
        0 < n <= steps.len(),
    ensures
        is_seen(steps, a, n - 1) ==> is_seen(steps, a, n),
        steps[n - 1].temperature == a ==> is_seen(steps, a, n),
{
    if is_seen(steps, a, n - 1) {
        let i = choose|i: int| 0 <= i < n - 1 && (#[trigger] steps[i]).temperature == a;
        assert(steps[i].temperature == a);
    }
}

proof fn lemma_few_are_distinct(
    steps: Seq<TemperatureStep<Fixed>>,
    a: Fixed,
    b: Fixed,
    c: Fixed,
    n: int,
)
    requires
        0 <= n <= steps.len(),
        has_three_at_most(steps, a, b, c),
    ensures
        distinct(steps, n) <= one_if(is_seen(steps, a, n)) + one_if(is_seen(steps, b, n)) + one_if(
            is_seen(steps, c, n),
        ),
    decreases n,
{
    if n > 0 {
        lemma_few_are_distinct(steps, a, b, c, n - 1);
        lemma_seen_grows(steps, a, n);
        lemma_seen_grows(steps, b, n);
        lemma_seen_grows(steps, c, n);
        let t = steps[n - 1].temperature;
        assert(t == a || t == b || t == c);
        if is_fresh(steps, n - 1) {
            assert(!is_seen(steps, t, n - 1)) by {
                if is_seen(steps, t, n - 1) {
                    let i = choose|i: int| 0 <= i < n - 1 && (#[trigger] steps[i]).temperature == t;
                    assert(steps[i].temperature.same_spec(t));
                }
            }
        }
    }
}

/// Three temperatures make no tower, however often they change.
pub proof fn lemma_three_temperatures_are_no_tower(
    p: Seq<Spanned<Command<Fixed>>>,
    steps: Seq<TemperatureStep<Fixed>>,
    a: Fixed,
    b: Fixed,
    c: Fixed,
)
    requires
        has_three_at_most(steps, a, b, c),
    ensures
        tower_notes(p, steps).len() == 0,
{
    lemma_few_are_distinct(steps, a, b, c, steps.len() as int);
}

/// Temperatures that are all less than 10 °C apart make no tower.
pub proof fn lemma_close_temperatures_are_no_tower(
    p: Seq<Spanned<Command<Fixed>>>,
    steps: Seq<TemperatureStep<Fixed>>,
)
    requires
        forall|i: int, j: int|
            0 <= i < steps.len() && 0 <= j < steps.len() ==> (
            #[trigger] steps[i]).temperature.millionths - (
            #[trigger] steps[j]).temperature.millionths < 10_000_000,
    ensures
        tower_notes(p, steps).len() == 0,
{
    assert(Fixed::of_spec(10).millionths == 10_000_000);
    if spans_ten_degrees(steps) {
        let (i, j) = choose|i: int, j: int|
            0 <= i < steps.len() && 0 <= j < steps.len() && Fixed::of_spec(10).at_most_spec(
                (#[trigger] steps[i]).temperature.minus_spec((#[trigger] steps[j]).temperature),
            );
        assert(steps[i].temperature.millionths - steps[j].temperature.millionths < 10_000_000);
    }
}

/// The height from step `i - 1` to step `i`, in millionths.
pub open spec fn exact_rise(steps: Seq<TemperatureStep<Fixed>>, i: int) -> int {
    steps[i].z.millionths - steps[i - 1].z.millionths
}

/// Whether the heights of steps are within half a kilometre.
pub open spec fn are_within_reach(steps: Seq<TemperatureStep<Fixed>>) -> bool {
    forall|i: int|
        0 <= i < steps.len() ==> -500_000_000_000 <= (#[trigger] steps[i]).z.millionths
            <= 500_000_000_000
}

proof fn lemma_fifth(n: Fixed)
    requires
        0 <= n.millionths <= 1_000_000_000_000,
    ensures
        n.times_spec(ratio_spec(1, 5)).millionths == n.millionths as int / 5,
{
    assert(Fixed::of_spec(1).millionths == 1_000_000);
    assert(Fixed::of_spec(5).millionths == 5_000_000);
    assert(1_000_000nat * 1_000_000 / 5_000_000 == 200_000);
    let m = n.millionths as int;
    assert((m * 200_000) / 1_000_000 == m / 5);
}

/// Where no comment speaks of a tower, a note means that the temperatures go all up or
/// all down, and that the heights rise in steps that differ from the first by at most a
/// fifth of it.
pub proof fn lemma_a_tower_is_a_staircase(
    p: Seq<Spanned<Command<Fixed>>>,
    steps: Seq<TemperatureStep<Fixed>>,
    i: int,
)
    requires
        tower_notes(p, steps).len() > 0,
        hint_from(p, 0) is None,
        are_within_reach(steps),
        1 <= i < steps.len(),
    ensures
        exact_rise(steps, 1) > 0,
        5 * (exact_rise(steps, i) - exact_rise(steps, 1)) <= exact_rise(steps, 1),
        5 * (exact_rise(steps, 1) - exact_rise(steps, i)) <= exact_rise(steps, 1),
        (forall|k: int|
            1 <= k < steps.len() ==> (#[trigger] steps[k]).temperature.millionths < steps[k
                - 1].temperature.millionths) || (forall|k: int|
            1 <= k < steps.len() ==> (#[trigger] steps[k]).temperature.millionths > steps[k
                - 1].temperature.millionths),
{
    assert(is_staircase(steps));
    assert(steps[0].z.millionths <= 500_000_000_000 && steps[1].z.millionths <= 500_000_000_000);
    assert(steps[i].z.millionths <= 500_000_000_000 && steps[i - 1].z.millionths
        <= 500_000_000_000);
    let first = rise(steps, 1);
    assert(first.millionths == exact_rise(steps, 1));
    assert(rise(steps, i).millionths == exact_rise(steps, i));
    lemma_fifth(first);
    if is_falling(steps) {
        assert forall|k: int| 1 <= k < steps.len() implies (
        #[trigger] steps[k]).temperature.millionths < steps[k - 1].temperature.millionths by {}
    } else {
        assert forall|k: int| 1 <= k < steps.len() implies (
        #[trigger] steps[k]).temperature.millionths > steps[k - 1].temperature.millionths by {
            assert(is_rising(steps));
        }
    }
}

/// Whether steps go down by a temperature each, at equal heights.
pub open spec fn is_even_tower(steps: Seq<TemperatureStep<Fixed>>) -> bool {
    &&& steps.len() >= 4
    &&& are_within_reach(steps)
    &&& exact_rise(steps, 1) > 0
    &&& forall|i: int| 1 <= i < steps.len() ==> #[trigger] exact_rise(steps, i) == exact_rise(
        steps,
        1,
    )
    &&& forall|i: int, j: int|
        0 <= i < j < steps.len() ==> (#[trigger] steps[j]).temperature.millionths < (
        #[trigger] steps[i]).temperature.millionths
    &&& steps[0].temperature.millionths - steps.last().temperature.millionths >= 10_000_000
}

proof fn lemma_all_distinct(steps: Seq<TemperatureStep<Fixed>>, n: int)
    requires
        is_even_tower(steps),
        0 <= n <= steps.len(),
    ensures
        distinct(steps, n) == n,
    decreases n,
{
    if n > 0 {
        lemma_all_distinct(steps, n - 1);
        assert(is_fresh(steps, n - 1)) by {
            assert forall|j: int| 0 <= j < n - 1 implies !(
            #[trigger] steps[j]).temperature.same_spec(steps[n - 1].temperature) by {
                assert(steps[n - 1].temperature.millionths < steps[j].temperature.millionths);
            }
        }
    }
}

/// Four or more temperatures that fall step by step at equal heights, by 10 °C or more
/// in all, are noted as a probable tower, at the line of the first.
pub proof fn lemma_an_even_tower_is_noted(
    p: Seq<Spanned<Command<Fixed>>>,
    steps: Seq<TemperatureStep<Fixed>>,
)
    requires
        is_even_tower(steps),
    ensures
        tower_notes(p, steps).len() == 1,
        tower_notes(p, steps)[0].code == "I003"@,
        tower_notes(p, steps)[0].severity == Severity::Info,
        tower_notes(p, steps)[0].line == steps[0].line,
{
    lemma_all_distinct(steps, steps.len() as int);
    let last = steps.len() - 1;
    assert(steps.last() == steps[last]);
    assert(Fixed::of_spec(10).millionths == 10_000_000);
    assert(Fixed::of_spec(10).at_most_spec(
        steps[0].temperature.minus_spec(steps[last].temperature),
    ));
    assert(spans_ten_degrees(steps));
    assert(is_falling(steps)) by {
        assert forall|i: int| 1 <= i < steps.len() implies (
        #[trigger] steps[i]).temperature.less_spec(steps[i - 1].temperature) by {
            assert(steps[i].temperature.millionths < steps[i - 1].temperature.millionths);
        }
    }
    assert(steps[0].z.millionths <= 500_000_000_000 && steps[1].z.millionths <= 500_000_000_000);
    let first = rise(steps, 1);
    assert(first.millionths == exact_rise(steps, 1));
    lemma_fifth(first);
    assert(is_regular(steps)) by {
        assert forall|i: int| 1 <= i < steps.len() implies (#[trigger] rise(steps, i)).minus_spec(
            first,
        ).abs_spec().at_most_spec(first.times_spec(ratio_spec(1, 5))) by {
            assert(exact_rise(steps, i) == exact_rise(steps, 1));
            assert(steps[i].z.millionths <= 500_000_000_000 && steps[i - 1].z.millionths
                <= 500_000_000_000);
            assert(rise(steps, i).millionths == first.millionths);
        }
    }
}

} // verus!
