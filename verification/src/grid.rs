//! Programs whose numbers have at most four decimals.
//!
//! The optimizer takes positions and feedrates that are less than 0.0001 apart for
//! the same.  Decimal numbers with at most four decimals are the same only where
//! they are equal, so that for such programs nothing is lost at all.

use vstd::prelude::*;

use crate::analyzer::simulation;
use crate::arc_fitter::{
    arc_command, can_extend, fit_state, is_arc, original, CandidatePoint, FitState,
};
use crate::filament::{
    lemma_apart_removals_are_at_rest, lemma_filament_is_kept, lemma_forward_runs_are_stood_for,
    lemma_forward_windows_are_stood_for, lemma_run_keeps_filament, removals_are_at_rest,
    runs_push_forward, tells_apart_at, tells_positions_apart, windows_push_forward,
};
use crate::fixed::Fixed;
use crate::models::{Command, MachineLimits, Spanned};
use crate::optimizer::collinear::{
    collinear_runs, in_order, lemma_collinear_runs_in_order, merged, merged_move, named,
};
use crate::optimizer::laws::{
    lemma_feedrate_is_kept, lemma_place_is_kept, loses_nothing,
    same_place, stays_put,
};
use crate::optimizer::{
    axes_of, close, has_relative, is_removed, is_straight, is_transparent, kept, rule_at, set_axes,
    state_at, strip_at, tolerance, OptConfig, Tracker,
};
use crate::pipeline::{after_merge, fits_arcs, Plan};
use crate::place::{lemma_run_keeps_the_place, place_at};
use crate::scalar::Scalar;

verus! {

/// Whether a number has at most four decimals.
pub open spec fn on_grid(v: Fixed) -> bool {
    v.millionths % 100 == 0
}

/// Whether a number, where it is given, has at most four decimals and is finite.
pub open spec fn given_on_grid(v: Option<Fixed>) -> bool {
    v matches Some(n) ==> on_grid(n) && n.is_finite_spec()
}

/// Whether the positions and the feedrate of a command have at most four decimals.
pub open spec fn command_on_grid(command: Command<Fixed>) -> bool {
    match command {
        Command::SetPosition { x, y, z, e } => given_on_grid(x) && given_on_grid(y)
            && given_on_grid(z) && given_on_grid(e),
        _ => match axes_of(command) {
            Some(axes) => given_on_grid(axes.x) && given_on_grid(axes.y) && given_on_grid(axes.z)
                && given_on_grid(axes.e) && given_on_grid(axes.f),
            None => true,
        },
    }
}

/// Whether the head and the extruder are within the range of numbers.
pub open spec fn in_range(s: Tracker<Fixed>) -> bool {
    s.x.is_finite_spec() && s.y.is_finite_spec() && s.z.is_finite_spec() && s.e.is_finite_spec()
}

/// Whether all numbers of a program have at most four decimals, and its positions
/// stay within the range of numbers.
pub open spec fn is_on_grid(p: Seq<Spanned<Command<Fixed>>>) -> bool {
    &&& forall|i: int| 0 <= i < p.len() ==> command_on_grid((#[trigger] p[i]).inner)
    &&& forall|n: int| 0 <= n <= p.len() ==> in_range(#[trigger] state_at(p, n))
}

/// Whether a number, where it is given, is at most `bound` millionths in size.
pub open spec fn given_within(v: Option<Fixed>, bound: nat) -> bool {
    v matches Some(n) ==> -bound <= n.millionths <= bound
}

/// Whether the positions of a command are at most `bound` millionths in size.
pub open spec fn command_within(command: Command<Fixed>, bound: nat) -> bool {
    match command {
        Command::SetPosition { x, y, z, e } => given_within(x, bound) && given_within(y, bound)
            && given_within(z, bound) && given_within(e, bound),
        _ => match axes_of(command) {
            Some(axes) => given_within(axes.x, bound) && given_within(axes.y, bound)
                && given_within(axes.z, bound) && given_within(axes.e, bound),
            None => true,
        },
    }
}

proof fn lemma_positions_add_up(p: Seq<Spanned<Command<Fixed>>>, bound: nat, n: int)
    requires
        0 <= n <= p.len(),
        bound * p.len() < i64::MAX,
        forall|i: int| 0 <= i < p.len() ==> command_within((#[trigger] p[i]).inner, bound),
    ensures
        ({
            let s = state_at(p, n);
            &&& given_within(Some(s.x), bound * (n as nat))
            &&& given_within(Some(s.y), bound * (n as nat))
            &&& given_within(Some(s.z), bound * (n as nat))
            &&& given_within(Some(s.e), bound * (n as nat))
        }),
        bound * (n as nat) < i64::MAX,
    decreases n,
{
    assert(bound * n <= bound * p.len()) by (nonlinear_arith)
        requires
            0 <= n <= p.len(),
            0 <= bound,
    ;
    if n > 0 {
        lemma_positions_add_up(p, bound, n - 1);
        assert(command_within(p[n - 1].inner, bound));
        assert(bound * n == bound * (n - 1) + bound) by (nonlinear_arith);
        assert(0 <= bound * (n - 1)) by (nonlinear_arith)
            requires
                0 <= bound,
                n > 0,
        ;
    }
}

/// Positions stay within the range of numbers where their sizes cannot add up to
/// more: with positions of up to a million millimetres, for example, in programs
/// of up to a million commands.
pub proof fn lemma_positions_stay_in_range(p: Seq<Spanned<Command<Fixed>>>, bound: nat)
    requires
        bound * p.len() < i64::MAX,
        forall|i: int| 0 <= i < p.len() ==> command_within((#[trigger] p[i]).inner, bound),
        forall|i: int| 0 <= i < p.len() ==> command_on_grid((#[trigger] p[i]).inner),
    ensures
        is_on_grid(p),
{
    assert forall|n: int| 0 <= n <= p.len() implies in_range(#[trigger] state_at(p, n)) by {
        lemma_positions_add_up(p, bound, n);
    }
}

proof fn lemma_state_on_grid(p: Seq<Spanned<Command<Fixed>>>, n: int)
    requires
        is_on_grid(p),
        0 <= n <= p.len(),
    ensures
        on_grid(state_at(p, n).x),
        on_grid(state_at(p, n).y),
        on_grid(state_at(p, n).z),
        on_grid(state_at(p, n).e),
        given_on_grid(state_at(p, n).feedrate),
    decreases n,
{
    if n > 0 {
        lemma_state_on_grid(p, n - 1);
        assert(command_on_grid(p[n - 1].inner));
        assert(in_range(state_at(p, n)));
    }
}

proof fn lemma_close_is_equal(a: Fixed, b: Fixed)
    requires
        on_grid(a),
        on_grid(b),
        close(a, b),
    ensures
        a == b,
{
    let one = Fixed::of_spec(1);
    let ten_thousand = Fixed::of_spec(10_000);
    assert(one.millionths == 1_000_000);
    assert(ten_thousand.millionths == 10_000_000_000);
    assert(1_000_000nat * 1_000_000 / 10_000_000_000 == 100);
    assert(tolerance::<Fixed>() == one.over_spec(ten_thousand));
    assert(tolerance::<Fixed>().millionths == 100);
    assert(a.millionths - b.millionths < 100 && b.millionths - a.millionths < 100);
    assert(a.millionths == b.millionths);
}

proof fn lemma_redundant_move_rests(p: Seq<Spanned<Command<Fixed>>>, i: int)
    requires
        is_on_grid(p),
        0 <= i < p.len(),
        rule_at(p, i) is Some,
        axes_of(p[i].inner) is Some,
    ensures
        ({
            let axes = axes_of(p[i].inner)->0;
            let s = state_at(p, i);
            &&& axes.x is None && axes.y is None && axes.z is None && axes.e is None
                || s.is_absolute
            &&& axes.x matches Some(v) ==> v == s.x
            &&& axes.y matches Some(v) ==> v == s.y
            &&& axes.z matches Some(v) ==> v == s.z
            &&& axes.e matches Some(v) ==> v == s.e
        }),
{
    let axes = axes_of(p[i].inner)->0;
    let s = state_at(p, i);
    lemma_state_on_grid(p, i);
    assert(command_on_grid(p[i].inner));
    assert(is_straight(p[i].inner));
    if let Some(v) = axes.x {
        lemma_close_is_equal(v, s.x);
    }
    if let Some(v) = axes.y {
        lemma_close_is_equal(v, s.y);
    }
    if let Some(v) = axes.z {
        lemma_close_is_equal(v, s.z);
    }
    if let Some(v) = axes.e {
        lemma_close_is_equal(v, s.e);
    }
}

/// What the rules find redundant leaves the head and the extruder exactly where
/// they are.
pub proof fn lemma_redundant_commands_stay_put(p: Seq<Spanned<Command<Fixed>>>, i: int)
    requires
        is_on_grid(p),
        0 <= i < p.len(),
        rule_at(p, i) is Some,
    ensures
        stays_put(p, i),
{
    assert(in_range(state_at(p, i)));
    if axes_of(p[i].inner) is Some {
        lemma_redundant_move_rests(p, i);
    }
}

/// A feedrate that is stripped is exactly the one in force.
pub proof fn lemma_nothing_is_lost(p: Seq<Spanned<Command<Fixed>>>, config: OptConfig, i: int)
    requires
        is_on_grid(p),
        0 <= i < p.len(),
    ensures
        loses_nothing(p, config, i),
{
    lemma_state_on_grid(p, i);
    assert(command_on_grid(p[i].inner));
    if let Some(f) = strip_at(p, config, i) {
        lemma_close_is_equal(f, state_at(p, i).feedrate->0);
    }
}

/// Optimization leads the head and the extruder to exactly the same places, at
/// exactly the same feedrates: after every command that is left, but for comments
/// and unknown lines, and at the end of the program.
pub proof fn lemma_moves_are_kept(
    p: Seq<Spanned<Command<Fixed>>>,
    config: OptConfig,
    n: int,
)
    requires
        is_on_grid(p),
        0 <= n <= p.len(),
        n == p.len() || n > 0 && !is_removed(p, config, n - 1) && !is_transparent(p[n - 1].inner),
    ensures
        ({
            let s = state_at(kept(p, config, n), kept(p, config, n).len() as int);
            same_place(s, state_at(p, n)) && s.feedrate == state_at(p, n).feedrate
        }),
{
    assert forall|i: int| 0 <= i < n && #[trigger] rule_at(p, i) is Some implies stays_put(
        p,
        i,
    ) by {
        lemma_redundant_commands_stay_put(p, i);
    }
    assert forall|i: int| 0 <= i < n implies #[trigger] loses_nothing(p, config, i) by {
        lemma_nothing_is_lost(p, config, i);
    }
    lemma_place_is_kept(p, config, n);
    lemma_feedrate_is_kept(p, config, n);
}

/// Every move that optimization removes leaves the extruder exactly where it is.
pub proof fn lemma_removals_are_at_rest(p: Seq<Spanned<Command<Fixed>>>, config: OptConfig)
    requires
        is_on_grid(p),
    ensures
        tells_positions_apart(p),
        removals_are_at_rest(p, config),
{
    assert forall|i: int| 0 <= i < p.len() implies #[trigger] tells_apart_at(p, i) by {
        lemma_state_on_grid(p, i);
        assert(in_range(state_at(p, i)));
        assert(command_on_grid(p[i].inner));
        if let Some(axes) = axes_of(p[i].inner) {
            if let Some(raw) = axes.e {
                if close(raw, state_at(p, i).e) {
                    lemma_close_is_equal(raw, state_at(p, i).e);
                }
            }
        }
    }
    lemma_apart_removals_are_at_rest(p, config);
}

/// Optimization uses exactly as much filament as before.
pub proof fn lemma_filament_is_exact(
    p: Seq<Spanned<Command<Fixed>>>,
    config: OptConfig,
    limits: Option<MachineLimits<Fixed>>,
)
    requires
        is_on_grid(p),
    ensures
        simulation(kept(p, config, p.len() as int), limits).stats.total_filament_mm == simulation(
            p,
            limits,
        ).stats.total_filament_mm,
{
    lemma_removals_are_at_rest(p, config);
    lemma_filament_is_kept(p, config, limits);
}

// ── All stages ────────────────────────────────────────────────────────────────

/// Whether a command has at most four decimals in its numbers, and does not switch to
/// relative positioning.
pub open spec fn is_steadfast(command: Command<Fixed>) -> bool {
    command_on_grid(command) && !(command is SetRelative)
}

/// Whether all commands of a program are steadfast.
pub open spec fn all_steadfast(p: Seq<Spanned<Command<Fixed>>>) -> bool {
    forall|i: int| 0 <= i < p.len() ==> is_steadfast((#[trigger] p[i]).inner)
}

proof fn lemma_steadfast_state(p: Seq<Spanned<Command<Fixed>>>, n: int)
    requires
        all_steadfast(p),
        0 <= n <= p.len(),
    ensures
        state_at(p, n).is_absolute,
        in_range(state_at(p, n)),
    decreases n,
{
    if n > 0 {
        lemma_steadfast_state(p, n - 1);
        assert(is_steadfast(p[n - 1].inner));
    }
}

/// In absolute positioning, positions are within the range of numbers.
proof fn lemma_steadfast_is_on_grid(p: Seq<Spanned<Command<Fixed>>>)
    requires
        all_steadfast(p),
    ensures
        is_on_grid(p),
        !has_relative(p),
{
    assert forall|i: int| 0 <= i < p.len() implies command_on_grid((#[trigger] p[i]).inner)
        && !(p[i].inner is SetRelative) by {
        assert(is_steadfast(p[i].inner));
    }
    assert forall|n: int| 0 <= n <= p.len() implies in_range(#[trigger] state_at(p, n)) by {
        lemma_steadfast_state(p, n);
    }
}

proof fn lemma_named_on_grid(p: Seq<Spanned<Command<Fixed>>>, start: int, end: int)
    requires
        0 <= start <= end <= p.len(),
        start < p.len(),
        all_steadfast(p),
        p[start].inner is LinearMove,
        forall|i: int| start <= i < end ==> (#[trigger] p[i]).inner is LinearMove,
    ensures
        ({
            let axes = named(p, start, end);
            given_on_grid(axes.x) && given_on_grid(axes.y) && given_on_grid(axes.z)
                && given_on_grid(axes.e) && given_on_grid(axes.f)
        }),
    decreases end - start,
{
    if start < end {
        lemma_named_on_grid(p, start, end - 1);
        assert(p[end - 1].inner is LinearMove);
        assert(is_steadfast(p[end - 1].inner));
    } else {
        assert(is_steadfast(p[start].inner));
    }
}

proof fn lemma_merged_is_steadfast(
    p: Seq<Spanned<Command<Fixed>>>,
    runs: Seq<(int, int)>,
    n: int,
)
    requires
        0 <= n <= p.len(),
        all_steadfast(p),
        in_order(runs, n),
        forall|k: int, i: int|
            0 <= k < runs.len() && (#[trigger] runs[k]).0 <= i < runs[k].1 ==> (#[trigger] p[i]).inner
                is LinearMove,
    ensures
        all_steadfast(merged(p, runs, n)),
    decreases runs.len(),
{
    let out = merged(p, runs, n);
    if runs.len() == 0 {
        assert forall|i: int| 0 <= i < out.len() implies is_steadfast((#[trigger] out[i]).inner) by {
            assert(out[i] == p[i]);
        }
    } else {
        let (start, end) = runs.last();
        assert(runs[runs.len() - 1] == (start, end));
        let rest = runs.drop_last();
        assert forall|k: int| 0 <= k < rest.len() implies 0 <= (#[trigger] rest[k]).0 && rest[k].0
            + 3 <= rest[k].1 && rest[k].1 <= start by {
            assert(rest[k] == runs[k]);
            assert(runs[k].1 <= runs[runs.len() - 1].0);
        }
        assert forall|k: int, m: int| 0 <= k < m < rest.len() implies (#[trigger] rest[k]).1 <= (
        #[trigger] rest[m]).0 by {
            assert(rest[k] == runs[k] && rest[m] == runs[m]);
        }
        assert forall|k: int, i: int|
            0 <= k < rest.len() && (#[trigger] rest[k]).0 <= i < rest[k].1 implies (
        #[trigger] p[i]).inner is LinearMove by {
            assert(rest[k] == runs[k]);
        }
        lemma_merged_is_steadfast(p, rest, start);
        let head = merged(p, rest, start);
        let one = merged_move(p, start, end);
        assert forall|i: int| start <= i < end implies (#[trigger] p[i]).inner is LinearMove by {
            assert(runs[runs.len() - 1].0 <= i < runs[runs.len() - 1].1);
        }
        lemma_named_on_grid(p, start, end);
        assert(is_steadfast(one.inner));
        assert forall|i: int| 0 <= i < out.len() implies is_steadfast((#[trigger] out[i]).inner) by {
            if i < head.len() {
                assert(out[i] == head[i]);
            } else if i == head.len() {
                assert(out[i] == one);
            } else {
                assert(out[i] == p[end + (i - head.len() - 1)]);
            }
        }
    }
}

/// Whether the numbers of a point have at most four decimals.
pub open spec fn point_on_grid(pt: CandidatePoint<Fixed>) -> bool {
    &&& is_steadfast(original(pt).inner)
    &&& given_on_grid(Some(pt.to.0))
    &&& given_on_grid(Some(pt.to.1))
    &&& given_on_grid(Some(pt.feedrate))
}

/// Whether the numbers of a pass of arc fitting have at most four decimals.
pub open spec fn pass_on_grid(s: FitState<Fixed>) -> bool {
    &&& all_steadfast(s.out)
    &&& forall|i: int| 0 <= i < s.window.len() ==> point_on_grid(#[trigger] s.window[i])
    &&& given_on_grid(Some(s.x))
    &&& given_on_grid(Some(s.y))
    &&& given_on_grid(s.feed)
}

proof fn lemma_push_steadfast(p: Seq<Spanned<Command<Fixed>>>, c: Spanned<Command<Fixed>>)
    requires
        all_steadfast(p),
        is_steadfast(c.inner),
    ensures
        all_steadfast(p.push(c)),
{
    let out = p.push(c);
    assert forall|i: int| 0 <= i < out.len() implies is_steadfast((#[trigger] out[i]).inner) by {
        if i < p.len() {
            assert(out[i] == p[i]);
        }
    }
}

proof fn lemma_flush_on_grid(s: FitState<Fixed>, tolerance: Fixed)
    requires
        pass_on_grid(s),
    ensures
        pass_on_grid(s.flushed(tolerance)),
{
    let done = s.flushed(tolerance);
    if is_arc(s.window, tolerance) {
        let last = s.window.len() - 1;
        assert(point_on_grid(s.window[0]) && point_on_grid(s.window[last]));
        assert(s.window.last() == s.window[last]);
        assert(is_steadfast(original(s.window[last]).inner));
        assert(is_steadfast(arc_command(s.window).inner));
        lemma_push_steadfast(s.out, arc_command(s.window));
    } else {
        let moves = s.window.map_values(|pt: CandidatePoint<Fixed>| original(pt));
        assert forall|i: int| 0 <= i < done.out.len() implies is_steadfast(
            (#[trigger] done.out[i]).inner,
        ) by {
            if i < s.out.len() {
                assert(done.out[i] == s.out[i]);
            } else {
                assert(done.out[i] == moves[i - s.out.len()]);
                assert(point_on_grid(s.window[i - s.out.len()]));
            }
        }
    }
}

proof fn lemma_extended_on_grid(
    s: FitState<Fixed>,
    pt: CandidatePoint<Fixed>,
    tolerance: Fixed,
)
    requires
        pass_on_grid(s),
        point_on_grid(pt),
        given_on_grid(pt.f),
    ensures
        pass_on_grid(s.extended(pt, tolerance)),
{
    let open = if can_extend(s.window, pt) {
        s
    } else {
        s.flushed(tolerance)
    };
    lemma_flush_on_grid(s, tolerance);
    assert(pass_on_grid(open));
    lemma_flush_on_grid(open, tolerance);
    let grown = open.window.push(pt);
    let done = open.flushed(tolerance);
    let after = s.extended(pt, tolerance);
    assert(after.x == pt.to.0 && after.y == pt.to.1);
    if grown.len() >= 3 && !is_arc(grown, tolerance) {
        assert(after.out == done.out);
        assert(after.window == seq![pt]);
    } else {
        assert(after.out == open.out);
        assert(after.window == grown);
        assert forall|i: int| 0 <= i < grown.len() implies point_on_grid(#[trigger] grown[i]) by {
            if i < open.window.len() {
                assert(grown[i] == open.window[i]);
            }
        }
    }
}

proof fn lemma_passed_on_grid(
    s: FitState<Fixed>,
    c: Spanned<Command<Fixed>>,
    x: Option<Fixed>,
    y: Option<Fixed>,
    e: Option<Fixed>,
    f: Option<Fixed>,
    tolerance: Fixed,
)
    requires
        pass_on_grid(s),
        is_steadfast(c.inner),
        given_on_grid(x),
        given_on_grid(y),
        given_on_grid(f),
    ensures
        pass_on_grid(s.passed(c, x, y, e, f, tolerance)),
{
    lemma_flush_on_grid(s, tolerance);
    lemma_push_steadfast(s.flushed(tolerance).out, c);
}

proof fn lemma_point_on_grid(s: FitState<Fixed>, c: Spanned<Command<Fixed>>)
    requires
        pass_on_grid(s),
        is_steadfast(c.inner),
        c.inner is LinearMove,
    ensures
        point_on_grid(s.point(c)),
        given_on_grid(s.point(c).f),
{
    assert(Fixed::of_spec(1_500).millionths == 1_500_000_000);
    assert(original(s.point(c)) == c);
}

proof fn lemma_after_on_grid(s: FitState<Fixed>, c: Spanned<Command<Fixed>>, tolerance: Fixed)
    requires
        pass_on_grid(s),
        is_steadfast(c.inner),
    ensures
        pass_on_grid(s.after(c, tolerance)),
{
    let after = s.after(c, tolerance);
    match c.inner {
        Command::LinearMove { .. } => {
            lemma_point_on_grid(s, c);
            lemma_extended_on_grid(s, s.point(c), tolerance);
            assert(after == s.extended(s.point(c), tolerance));
        },
        Command::RapidMove { x, y, f, .. } => {
            lemma_passed_on_grid(s, c, x, y, None, f, tolerance);
            assert(after == s.passed(c, x, y, None, f, tolerance));
        },
        Command::ArcMoveCW { x, y, e, f, .. } => {
            lemma_passed_on_grid(s, c, x, y, e, f, tolerance);
            assert(after == s.passed(c, x, y, e, f, tolerance));
        },
        Command::ArcMoveCCW { x, y, e, f, .. } => {
            lemma_passed_on_grid(s, c, x, y, e, f, tolerance);
            assert(after == s.passed(c, x, y, e, f, tolerance));
        },
        Command::SetPosition { x, y, z, e } => {
            let set = set_axes(x, y, z, e);
            lemma_set_axes_on_grid(x, y, z, e);
            lemma_passed_on_grid(s, c, set.x, set.y, set.e, None, tolerance);
            assert(after == s.passed(c, set.x, set.y, set.e, None, tolerance));
        },
        _ => {
            lemma_passed_on_grid(s, c, None, None, None, None, tolerance);
            assert(after == s.passed(c, None, None, None, None, tolerance));
        },
    }
}

proof fn lemma_set_axes_on_grid(
    x: Option<Fixed>,
    y: Option<Fixed>,
    z: Option<Fixed>,
    e: Option<Fixed>,
)
    requires
        given_on_grid(x),
        given_on_grid(y),
    ensures
        given_on_grid(set_axes(x, y, z, e).x),
        given_on_grid(set_axes(x, y, z, e).y),
{
}

proof fn lemma_fit_on_grid(p: Seq<Spanned<Command<Fixed>>>, tolerance: Fixed, n: int)
    requires
        0 <= n <= p.len(),
        all_steadfast(p),
    ensures
        pass_on_grid(fit_state(p, tolerance, n)),
    decreases n,
{
    if n > 0 {
        lemma_fit_on_grid(p, tolerance, n - 1);
        assert(is_steadfast(p[n - 1].inner));
        lemma_after_on_grid(fit_state(p, tolerance, n - 1), p[n - 1], tolerance);
    }
}

/// Whatever the stages before optimization do, the program that it gets has at most
/// four decimals in its numbers.
proof fn lemma_fitted_program_is_on_grid(
    plan: Plan<Fixed>,
    p: Seq<Spanned<Command<Fixed>>>,
)
    requires
        is_on_grid(p),
    ensures
        is_on_grid(plan.fitted_program(p)),
{
    let n = p.len() as int;
    let q = after_merge(p, plan.opt);
    if has_relative(p) {
        assert(merged(p, collinear_runs(p), n) =~= p);
    } else {
        assert forall|i: int| 0 <= i < p.len() implies is_steadfast((#[trigger] p[i]).inner) by {
            assert(command_on_grid(p[i].inner));
        }
        lemma_collinear_runs_in_order(p);
        lemma_merged_is_steadfast(p, collinear_runs(p), n);
        assert(all_steadfast(q));
        lemma_steadfast_is_on_grid(q);
        lemma_fit_on_grid(q, plan.arcs.tolerance_mm, q.len() as int);
        lemma_flush_on_grid(
            fit_state(q, plan.arcs.tolerance_mm, q.len() as int),
            plan.arcs.tolerance_mm,
        );
        lemma_steadfast_is_on_grid(plan.fitted_program(p));
    }
}

/// A run leads the head and the extruder to exactly where the program led them,
/// whatever stages it has.
pub proof fn lemma_run_keeps_the_exact_place(
    plan: Plan<Fixed>,
    p: Seq<Spanned<Command<Fixed>>>,
)
    requires
        is_on_grid(p),
    ensures
        place_at(plan.result(p), plan.result(p).len() as int) == place_at(p, p.len() as int),
{
    let r = plan.fitted_program(p);
    lemma_fitted_program_is_on_grid(plan, p);
    assert forall|i: int| 0 <= i < r.len() && #[trigger] rule_at(r, i) is Some implies stays_put(
        r,
        i,
    ) by {
        lemma_redundant_commands_stay_put(r, i);
    }
    lemma_run_keeps_the_place(plan, p);
}

/// A run uses exactly as much filament as the program, as long as the moves that
/// become one move or one arc do not draw filament back.
pub proof fn lemma_run_keeps_the_exact_filament(
    plan: Plan<Fixed>,
    p: Seq<Spanned<Command<Fixed>>>,
    limits: Option<MachineLimits<Fixed>>,
)
    requires
        is_on_grid(p),
        plan.opt.merge_collinear && !plan.opt.dry_run ==> runs_push_forward(p),
        fits_arcs(after_merge(p, plan.opt), plan.arcs) ==> windows_push_forward(
            after_merge(p, plan.opt),
            plan.arcs.tolerance_mm,
        ),
    ensures
        simulation(plan.result(p), limits).stats.total_filament_mm == simulation(
            p,
            limits,
        ).stats.total_filament_mm,
{
    let q = after_merge(p, plan.opt);
    lemma_fitted_program_is_on_grid(plan, p);
    lemma_removals_are_at_rest(plan.fitted_program(p), plan.opt);
    if plan.opt.merge_collinear && !plan.opt.dry_run {
        lemma_forward_runs_are_stood_for(p);
    }
    if fits_arcs(q, plan.arcs) {
        lemma_forward_windows_are_stood_for(q, plan.arcs.tolerance_mm);
    }
    lemma_run_keeps_filament(plan, p, limits);
}

} // verus!
