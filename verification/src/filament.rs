//! How much filament a program uses, and that no stage changes it.
//!
//! The filament of a program is what its extruding moves push forward in total.
//! It depends on the position of the extruder and the positioning mode alone.

use vstd::prelude::*;

use crate::analyzer::{simulate, simulation, Simulated};
use crate::arc_fitter::{
    arc_command, fit_state, fitted, is_arc, lemma_arc_ends_the_window, original, CandidatePoint,
};
use crate::effects::{
    effect, folded, held_back, lemma_effect_of_push, lemma_fit_keeps_effect,
    lemma_markers_have_no_effect, lemma_merge_keeps_effect, runs_are_stood_for, stands_for,
    window_is_stood_for, windows_are_stood_for,
};
use crate::fixed::Fixed;
use crate::geometry::{length, vector};
use crate::models::{Command, MachineLimits, Spanned};
use crate::optimizer::collinear::{
    axes_at, collinear_runs, joins, lemma_collinear_runs_in_order, lemma_merged_move_ends_the_run,
    lemma_runs_are_joined, merged, merged_move,
};
use crate::optimizer::laws::{
    lemma_mode_is_consistent, lemma_only_feedrates_change, lemma_removal_has_a_reason,
};
use crate::optimizer::progress::{announces_layers, lemma_progress_keeps_other_commands};
use crate::optimizer::{
    axes_of, close, effective, is_removed, is_straight, kept, moved, rule_at, set_axes, state_at,
    supersedes, travel_of, OptConfig,
};
use crate::pipeline::{after_merge, after_optimize, fits_arcs, timing_of, Plan};
use crate::scalar::{value_or, zero_spec, Scalar};

verus! {

// ── The spool ─────────────────────────────────────────────────────────────────

/// What of the simulated printer the filament depends on.
#[verifier::ext_equal]
pub struct Spool<N> {
    /// Position of the extruder.
    pub extruder: N,
    /// Whether positioning is absolute.
    pub is_absolute: bool,
    /// Filament extruded so far.
    pub used: N,
}

/// The spool of a simulated printer.
pub open spec fn spool<N>(s: Simulated<N>) -> Spool<N> {
    Spool {
        extruder: s.extruder,
        is_absolute: s.is_absolute,
        used: s.stats.total_filament_mm,
    }
}

/// The spool after a command.
pub open spec fn spool_after<N: Scalar>(s: Spool<N>, command: Command<N>) -> Spool<N> {
    match command {
        Command::SetAbsolute => Spool { is_absolute: true, ..s },
        Command::SetRelative => Spool { is_absolute: false, ..s },
        Command::SetPosition { x, y, z, e } => Spool {
            extruder: value_or(set_axes(x, y, z, e).e, s.extruder),
            ..s
        },
        _ => match axes_of(command) {
            Some(axes) => match axes.e {
                Some(raw) => {
                    let delta = if s.is_absolute {
                        raw.minus_spec(s.extruder)
                    } else {
                        raw
                    };
                    Spool {
                        extruder: moved(s.extruder, axes.e, s.is_absolute),
                        used: if zero_spec::<N>().less_spec(delta) {
                            s.used.plus_spec(delta)
                        } else {
                            s.used
                        },
                        ..s
                    }
                },
                None => s,
            },
            None => s,
        },
    }
}

proof fn lemma_straight_spool<N: Scalar>(
    s: Simulated<N>,
    line: u32,
    x: Option<N>,
    y: Option<N>,
    z: Option<N>,
    e: Option<N>,
    f: Option<N>,
    climbs: bool,
    announced: bool,
    limits: Option<MachineLimits<N>>,
)
    ensures
        spool(s.after_straight(line, x, y, z, e, f, climbs, announced, limits)) == spool_after(
            spool(s),
            Command::LinearMove { x, y, z, e, f },
        ),
{
    let dest = s.destination(x, y, z);
    let headed = s.with_feed(f).heading(line, dest, limits);
    assert(spool(headed) == spool(s));
    let ready = headed.extruded(line, e);
    assert(spool(ready) == spool_after(spool(s), Command::LinearMove { x, y, z, e, f }));
    let raised = if climbs {
        ready.climbed(line, z, dest, announced)
    } else {
        ready
    };
    assert(spool(raised) == spool(ready));
    let travelled = raised.travelled(length(vector(s.pos, dest)));
    assert(spool(travelled) == spool(raised));
}

proof fn lemma_arc_spool<N: Scalar>(
    s: Simulated<N>,
    line: u32,
    x: Option<N>,
    y: Option<N>,
    z: Option<N>,
    e: Option<N>,
    f: Option<N>,
    i: Option<N>,
    j: Option<N>,
    clockwise: bool,
    limits: Option<MachineLimits<N>>,
)
    ensures
        spool(s.after_arc(line, x, y, z, e, f, i, j, clockwise, limits)) == spool_after(
            spool(s),
            Command::LinearMove { x, y, z, e, f },
        ),
{
    let dest = s.destination(x, y, z);
    let headed = s.with_feed(f).heading(line, dest, limits);
    assert(spool(headed) == spool(s));
    let ready = headed.extruded(line, e);
    assert(spool(ready) == spool_after(spool(s), Command::LinearMove { x, y, z, e, f }));
    let arc = s.arc(dest, i, j, clockwise);
    let a = ready.travelled(arc.len_spec()).boxed(dest);
    assert(spool(a) == spool(ready));
    let b = a.bulged(arc, 0, dest.z);
    assert(spool(b) == spool(a));
    let c = b.bulged(arc, 1, dest.z);
    assert(spool(c) == spool(b));
    let d = c.bulged(arc, 2, dest.z);
    assert(spool(d) == spool(c));
    assert(spool(d.bulged(arc, 3, dest.z)) == spool(d));
}

proof fn lemma_command_spool<N: Scalar>(
    s: Simulated<N>,
    spanned: Spanned<Command<N>>,
    announced: bool,
    limits: Option<MachineLimits<N>>,
)
    ensures
        spool(s.after(spanned, announced, limits)) == spool_after(spool(s), spanned.inner),
{
    let line = spanned.line;
    match spanned.inner {
        Command::RapidMove { x, y, z, f } => {
            lemma_straight_spool(s, line, x, y, z, None, f, false, announced, limits);
        },
        Command::LinearMove { x, y, z, e, f } => {
            lemma_straight_spool(s, line, x, y, z, e, f, true, announced, limits);
        },
        Command::ArcMoveCW { x, y, z, e, f, i, j } => {
            lemma_arc_spool(s, line, x, y, z, e, f, i, j, true, limits);
        },
        Command::ArcMoveCCW { x, y, z, e, f, i, j } => {
            lemma_arc_spool(s, line, x, y, z, e, f, i, j, false, limits);
        },
        _ => {},
    }
}

/// The spool before the first command.
pub open spec fn fresh_spool<N: Scalar>() -> Spool<N> {
    Spool { extruder: zero_spec(), is_absolute: true, used: zero_spec() }
}

/// How a command changes the spool.
pub open spec fn winding<N: Scalar>() -> spec_fn(Spool<N>, Command<N>) -> Spool<N> {
    |s: Spool<N>, c: Command<N>| spool_after(s, c)
}

/// The spool of a program after its first `n` commands.
pub open spec fn spool_at<N: Scalar>(p: Seq<Spanned<Command<N>>>, n: int) -> Spool<N> {
    folded(winding(), fresh_spool(), p, n)
}

/// The simulation moves the spool command by command.
pub proof fn lemma_simulated_spool<N: Scalar>(
    p: Seq<Spanned<Command<N>>>,
    limits: Option<MachineLimits<N>>,
    n: int,
)
    ensures
        spool(simulate(p, limits, n)) == spool_at(p, n),
    decreases n,
{
    if n > 0 {
        lemma_simulated_spool(p, limits, n - 1);
        lemma_command_spool(simulate(p, limits, n - 1), p[n - 1], announces_layers(p), limits);
    }
}

/// Programs that use the spool alike use as much filament.
proof fn lemma_same_spool_same_filament<N: Scalar>(
    a: Seq<Spanned<Command<N>>>,
    b: Seq<Spanned<Command<N>>>,
    limits: Option<MachineLimits<N>>,
)
    requires
        spool_at(a, a.len() as int) == spool_at(b, b.len() as int),
    ensures
        simulation(a, limits).stats.total_filament_mm == simulation(
            b,
            limits,
        ).stats.total_filament_mm,
{
    lemma_simulated_spool(a, limits, a.len() as int);
    lemma_simulated_spool(b, limits, b.len() as int);
    assert(spool(simulation(a, limits)) == spool(simulation(b, limits)));
}

proof fn lemma_spool_mode<N: Scalar>(p: Seq<Spanned<Command<N>>>, n: int)
    ensures
        spool_at(p, n).is_absolute == state_at(p, n).is_absolute,
    decreases n,
{
    if n > 0 {
        lemma_spool_mode(p, n - 1);
    }
}

// ── Optimization ──────────────────────────────────────────────────────────────

/// Whether the move at `i`, if it names the extruder, leaves it exactly where it is.
pub open spec fn is_at_rest<N: Scalar>(p: Seq<Spanned<Command<N>>>, i: int) -> bool {
    axes_of(p[i].inner) matches Some(axes) ==> (axes.e matches Some(raw) ==> raw == spool_at(
        p,
        i,
    ).extruder && !zero_spec::<N>().less_spec(raw.minus_spec(raw)))
}

/// Whether the moves that optimization removes leave the extruder exactly where it is.
pub open spec fn removals_are_at_rest<N: Scalar>(
    p: Seq<Spanned<Command<N>>>,
    config: OptConfig,
) -> bool {
    forall|i: int|
        0 <= i < p.len() && #[trigger] is_removed(p, config, i) ==> is_at_rest(p, i)
}

proof fn lemma_filament_is_kept_so_far<N: Scalar>(
    p: Seq<Spanned<Command<N>>>,
    config: OptConfig,
    n: int,
)
    requires
        0 <= n <= p.len(),
        removals_are_at_rest(p, config),
    ensures
        spool_at(kept(p, config, n), kept(p, config, n).len() as int) == spool_at(p, n),
    decreases n,
{
    if n > 0 {
        lemma_filament_is_kept_so_far(p, config, n - 1);
        lemma_spool_mode(p, n - 1);
        lemma_mode_is_consistent(p, n - 1);
        let before = kept(p, config, n - 1);
        let after = kept(p, config, n);
        if !is_removed(p, config, n - 1) {
            lemma_effect_of_push(winding(), fresh_spool(), before, after.last());
            assert(after[before.len() as int].inner == effective(p, config, n - 1));
            lemma_only_feedrates_change(p, config, n - 1);
        } else {
            lemma_removal_has_a_reason(p, config, n - 1);
            assert(is_at_rest(p, n - 1));
            if rule_at(p, n - 1) is None {
                let j = choose|j: int|
                    n - 1 < j < p.len() && #[trigger] supersedes(p, config, j) == Some(n - 1);
                assert(travel_of(effective(p, config, n - 1)) is Some);
                assert(is_straight(p[n - 1].inner));
                lemma_only_feedrates_change(p, config, n - 1);
            }
        }
    }
}

/// Whether command `i` leads the extruder exactly where it is, if it leads it there up
/// to the tolerance, and whether adding nothing to its position changes nothing.
pub open spec fn tells_apart_at<N: Scalar>(p: Seq<Spanned<Command<N>>>, i: int) -> bool {
    let at = state_at(p, i).e;
    &&& at.plus_spec(zero_spec()) == at
    &&& axes_of(p[i].inner) matches Some(axes) ==> (axes.e matches Some(raw) ==> (close(raw, at)
        ==> raw == at && !zero_spec::<N>().less_spec(raw.minus_spec(raw))))
}

/// Whether the positions of the extruder in a program are the same wherever they are
/// the same up to the tolerance.
pub open spec fn tells_positions_apart<N: Scalar>(p: Seq<Spanned<Command<N>>>) -> bool {
    forall|i: int| 0 <= i < p.len() ==> #[trigger] tells_apart_at(p, i)
}

proof fn lemma_tracked_extruder<N: Scalar>(p: Seq<Spanned<Command<N>>>, n: int)
    requires
        tells_positions_apart(p),
        0 <= n <= p.len(),
    ensures
        spool_at(p, n).extruder == state_at(p, n).e,
        spool_at(p, n).is_absolute == state_at(p, n).is_absolute,
    decreases n,
{
    if n > 0 {
        lemma_tracked_extruder(p, n - 1);
        assert(tells_apart_at(p, n - 1));
    }
}

/// Where the positions of the extruder are told apart, every move that optimization
/// removes leaves the extruder exactly where it is.
pub proof fn lemma_apart_removals_are_at_rest<N: Scalar>(
    p: Seq<Spanned<Command<N>>>,
    config: OptConfig,
)
    requires
        tells_positions_apart(p),
    ensures
        removals_are_at_rest(p, config),
{
    assert forall|i: int| 0 <= i < p.len() && #[trigger] is_removed(
        p,
        config,
        i,
    ) implies is_at_rest(p, i) by {
        lemma_tracked_extruder(p, i);
        lemma_removal_has_a_reason(p, config, i);
        assert(tells_apart_at(p, i));
        if axes_of(p[i].inner) is Some && rule_at(p, i) is None {
            let j = choose|j: int|
                i < j < p.len() && #[trigger] supersedes(p, config, j) == Some(i);
            assert(travel_of(effective(p, config, i)) is Some);
        }
    }
}

/// Optimization neither loses nor adds filament, whatever the number type, where it
/// tells the positions of the extruder apart: the total that an analysis shows is the
/// same before and after.
pub proof fn lemma_filament_is_kept_where_positions_are_apart<N: Scalar>(
    p: Seq<Spanned<Command<N>>>,
    config: OptConfig,
    limits: Option<MachineLimits<N>>,
)
    requires
        tells_positions_apart(p),
    ensures
        simulation(kept(p, config, p.len() as int), limits).stats.total_filament_mm == simulation(
            p,
            limits,
        ).stats.total_filament_mm,
{
    lemma_apart_removals_are_at_rest(p, config);
    lemma_filament_is_kept(p, config, limits);
}

/// Optimization neither loses nor adds filament, as long as the extruding moves
/// that it removes leave the extruder exactly where it is: the total that an
/// analysis shows is the same before and after.
pub proof fn lemma_filament_is_kept<N: Scalar>(
    p: Seq<Spanned<Command<N>>>,
    config: OptConfig,
    limits: Option<MachineLimits<N>>,
)
    requires
        removals_are_at_rest(p, config),
    ensures
        simulation(kept(p, config, p.len() as int), limits).stats.total_filament_mm == simulation(
            p,
            limits,
        ).stats.total_filament_mm,
{
    lemma_filament_is_kept_so_far(p, config, p.len() as int);
    lemma_same_spool_same_filament(kept(p, config, p.len() as int), p, limits);
}

// ── Moves that stand for others ───────────────────────────────────────────────

/// A move that does not extrude can stand for moves that do not extrude.
pub proof fn lemma_travel_keeps_filament<N: Scalar>(
    s: Spool<N>,
    moves: Seq<Spanned<Command<N>>>,
    one: Spanned<Command<N>>,
)
    requires
        forall|i: int|
            0 <= i < moves.len() ==> axes_of((#[trigger] moves[i]).inner) is Some && axes_of(
                moves[i].inner,
                )->0.e is None,
        axes_of(one.inner) matches Some(axes) && axes.e is None,
    ensures
        stands_for(winding(), s, moves, one),
{
    lemma_travel_moves_no_spool(s, moves, moves.len() as int);
}

proof fn lemma_travel_moves_no_spool<N: Scalar>(
    s: Spool<N>,
    moves: Seq<Spanned<Command<N>>>,
    n: int,
)
    requires
        0 <= n <= moves.len(),
        forall|i: int|
            0 <= i < moves.len() ==> axes_of((#[trigger] moves[i]).inner) is Some && axes_of(
                moves[i].inner,
                )->0.e is None,
    ensures
        folded(winding(), s, moves, n) == s,
    decreases n,
{
    if n > 0 {
        lemma_travel_moves_no_spool(s, moves, n - 1);
        assert(axes_of(moves[n - 1].inner) is Some);
    }
}

/// The extruder position that move `i` names, in millionths; that of the spool
/// for the place before the first move.
pub open spec fn extruder_mark(
    s: Spool<Fixed>,
    moves: Seq<Spanned<Command<Fixed>>>,
    i: int,
) -> int {
    if i < 0 {
        s.extruder.millionths as int
    } else {
        (axes_of(moves[i].inner)->0.e)->0.millionths as int
    }
}

/// Whether the moves push the extruder forward, or leave it where it is, one after
/// the other, in absolute positioning and within the range of numbers.
pub open spec fn push_forward(s: Spool<Fixed>, moves: Seq<Spanned<Command<Fixed>>>) -> bool {
    let end = extruder_mark(s, moves, moves.len() - 1);
    &&& s.is_absolute
    &&& forall|i: int|
        0 <= i < moves.len() ==> axes_of((#[trigger] moves[i]).inner) is Some && axes_of(
            moves[i].inner,
            )->0.e is Some
    &&& forall|i: int, j: int|
        -1 <= i <= j < moves.len() ==> #[trigger] extruder_mark(s, moves, i)
            <= #[trigger] extruder_mark(s, moves, j)
    &&& end - s.extruder.millionths < i64::MAX
    &&& -i64::MAX <= s.used.millionths
    &&& s.used.millionths + (end - s.extruder.millionths) <= i64::MAX
}

proof fn lemma_marks_add_up(s: Spool<Fixed>, moves: Seq<Spanned<Command<Fixed>>>, n: int)
    requires
        push_forward(s, moves),
        0 <= n <= moves.len(),
    ensures
        ({
            let t = folded(winding(), s, moves, n);
            &&& t.is_absolute
            &&& t.extruder.millionths == extruder_mark(s, moves, n - 1)
            &&& t.used.millionths == s.used.millionths + (extruder_mark(s, moves, n - 1)
                - s.extruder.millionths)
        }),
    decreases n,
{
    if n > 0 {
        lemma_marks_add_up(s, moves, n - 1);
        let last = moves.len() - 1;
        assert(axes_of(moves[n - 1].inner) is Some);
        assert(extruder_mark(s, moves, -1) <= extruder_mark(s, moves, n - 2));
        assert(extruder_mark(s, moves, n - 2) <= extruder_mark(s, moves, n - 1));
        assert(extruder_mark(s, moves, n - 1) <= extruder_mark(s, moves, last));
    }
}

/// With decimal numbers, a move to where the last of several extruding moves leads
/// uses as much filament as all of them, if none of them draws filament back.
pub proof fn lemma_pushing_keeps_filament(
    s: Spool<Fixed>,
    moves: Seq<Spanned<Command<Fixed>>>,
    one: Spanned<Command<Fixed>>,
)
    requires
        moves.len() > 0,
        push_forward(s, moves),
        axes_of(one.inner) matches Some(axes) && axes.e == axes_of(moves.last().inner)->0.e,
    ensures
        stands_for(winding(), s, moves, one),
{
    let n = moves.len() as int;
    lemma_marks_add_up(s, moves, n);
    let t = folded(winding(), s, moves, n);
    let u = spool_after(s, one.inner);
    assert(axes_of(moves[n - 1].inner) is Some);
    assert(extruder_mark(s, moves, -1) <= extruder_mark(s, moves, n - 1));
    assert(t.extruder == u.extruder);
    assert(t.used.millionths == u.used.millionths);
    assert(t.used == u.used);
}

/// Whether no run that is merged draws filament back.
pub open spec fn runs_push_forward(p: Seq<Spanned<Command<Fixed>>>) -> bool {
    forall|k: int|
        0 <= k < collinear_runs(p).len() ==> {
            let (start, end) = #[trigger] collinear_runs(p)[k];
            axes_at(p, start).e is None || push_forward(
                spool_at(p, start),
                p.subrange(start, end),
            )
        }
}

/// With decimal numbers, every merged move uses the filament of its run, if no run
/// draws filament back.
pub proof fn lemma_forward_runs_are_stood_for(p: Seq<Spanned<Command<Fixed>>>)
    requires
        runs_push_forward(p),
    ensures
        runs_are_stood_for(winding(), fresh_spool(), p, collinear_runs(p)),
{
    let runs = collinear_runs(p);
    let step = winding::<Fixed>();
    let fresh = fresh_spool::<Fixed>();
    lemma_collinear_runs_in_order(p);
    lemma_runs_are_joined(p);
    assert forall|k: int| 0 <= k < runs.len() implies stands_for(
        step,
        folded(step, fresh, p, (#[trigger] runs[k]).0),
        p.subrange(runs[k].0, runs[k].1),
        merged_move(p, runs[k].0, runs[k].1),
    ) by {
        let (start, end) = runs[k];
        let moves = p.subrange(start, end);
        let one = merged_move(p, start, end);
        let s = spool_at(p, start);
        assert(moves.last() == p[end - 1]);
        assert(p[end - 1].inner is LinearMove && p[start].inner is LinearMove);
        assert(joins(p, start, end - 1));
        assert forall|i: int| start < i < end implies #[trigger] joins(p, start, i) by {
            assert(joins(p, runs[k].0, i));
        }
        lemma_merged_move_ends_the_run(p, start, end);
        if axes_at(p, start).e is None {
            assert forall|i: int| 0 <= i < moves.len() implies axes_of((#[trigger] moves[i]).inner)
                is Some && axes_of(moves[i].inner)->0.e is None by {
                assert(moves[i] == p[start + i]);
                assert(p[start + i].inner is LinearMove);
                if i > 0 {
                    assert(joins(p, start, start + i));
                }
            }
            lemma_travel_keeps_filament(s, moves, one);
        } else {
            lemma_pushing_keeps_filament(s, moves, one);
        }
    }
}

/// Whether no window that becomes an arc draws filament back.
pub open spec fn windows_push_forward(p: Seq<Spanned<Command<Fixed>>>, tolerance: Fixed) -> bool {
    forall|n: int|
        0 <= n <= p.len() && is_arc(
            (#[trigger] fit_state(p, tolerance, n)).window,
            tolerance,
        ) ==> push_forward(
            effect(winding(), fresh_spool(), fit_state(p, tolerance, n).out),
            held_back(fit_state(p, tolerance, n).window),
        )
}

proof fn lemma_arc_has_the_last_extruder_position<N: Scalar>(
    window: Seq<CandidatePoint<N>>,
    tolerance: N,
)
    requires
        is_arc(window, tolerance),
    ensures
        axes_of(arc_command(window).inner) is Some,
        axes_of(arc_command(window).inner)->0.e == window.last().e,
        window.len() > 0,
{
    lemma_arc_ends_the_window(window, tolerance);
}

/// With decimal numbers, every arc uses the filament of its window, if no window
/// draws filament back.
pub proof fn lemma_forward_windows_are_stood_for(
    p: Seq<Spanned<Command<Fixed>>>,
    tolerance: Fixed,
)
    requires
        windows_push_forward(p, tolerance),
    ensures
        windows_are_stood_for(winding(), fresh_spool(), p, tolerance),
{
    assert forall|n: int| 0 <= n <= p.len() implies window_is_stood_for(
        winding(),
        fresh_spool(),
        p,
        tolerance,
        n,
    ) by {
        lemma_forward_window_is_stood_for(p, tolerance, n);
    }
}

proof fn lemma_forward_window_is_stood_for(
    p: Seq<Spanned<Command<Fixed>>>,
    tolerance: Fixed,
    n: int,
)
    requires
        0 <= n <= p.len(),
        windows_push_forward(p, tolerance),
    ensures
        window_is_stood_for(winding(), fresh_spool(), p, tolerance, n),
{
    let state = fit_state(p, tolerance, n);
    let window = state.window;
    if is_arc(window, tolerance) {
        let begin = effect(winding(), fresh_spool(), state.out);
        let held = held_back(window);
        assert(push_forward(begin, held));
        lemma_arc_has_the_last_extruder_position(window, tolerance);
        assert(held.last() == original(window.last()));
        let arc = arc_command(window);
        assert(axes_of(held.last().inner)->0.e == window.last().e);
        lemma_pushing_keeps_filament(begin, held, arc);
    }
}

// ── All stages ────────────────────────────────────────────────────────────────

/// Merging neither loses nor adds filament, as long as each merged move uses the
/// filament of its run.
pub proof fn lemma_merge_keeps_filament<N: Scalar>(
    p: Seq<Spanned<Command<N>>>,
    limits: Option<MachineLimits<N>>,
)
    requires
        runs_are_stood_for(winding(), fresh_spool(), p, collinear_runs(p)),
    ensures
        simulation(
            merged(p, collinear_runs(p), p.len() as int),
            limits,
        ).stats.total_filament_mm == simulation(p, limits).stats.total_filament_mm,
{
    let runs = collinear_runs(p);
    lemma_collinear_runs_in_order(p);
    lemma_merge_keeps_effect(winding(), fresh_spool(), p, runs, p.len() as int);
    lemma_same_spool_same_filament(merged(p, runs, p.len() as int), p, limits);
}

/// Arc fitting neither loses nor adds filament, as long as each arc uses the
/// filament of the moves that it stands for.
pub proof fn lemma_arcs_keep_filament<N: Scalar>(
    p: Seq<Spanned<Command<N>>>,
    tolerance: N,
    limits: Option<MachineLimits<N>>,
)
    requires
        windows_are_stood_for(winding(), fresh_spool(), p, tolerance),
    ensures
        simulation(fitted(p, tolerance).out, limits).stats.total_filament_mm == simulation(
            p,
            limits,
        ).stats.total_filament_mm,
{
    lemma_fit_keeps_effect(winding(), fresh_spool(), p, tolerance);
    lemma_same_spool_same_filament(fitted(p, tolerance).out, p, limits);
}

/// Whether each stage of a run keeps the filament of what it replaces or removes.
pub open spec fn stages_keep_filament<N: Scalar>(
    plan: Plan<N>,
    p: Seq<Spanned<Command<N>>>,
) -> bool {
    let q = after_merge(p, plan.opt);
    &&& plan.opt.merge_collinear && !plan.opt.dry_run ==> runs_are_stood_for(
        winding(),
        fresh_spool(),
        p,
        collinear_runs(p),
    )
    &&& fits_arcs(q, plan.arcs) ==> windows_are_stood_for(
        winding(),
        fresh_spool(),
        q,
        plan.arcs.tolerance_mm,
    )
    &&& !plan.opt.dry_run ==> removals_are_at_rest(plan.fitted_program(p), plan.opt)
}

/// A run neither loses nor adds filament, as long as every merged move and every
/// arc uses the filament of the moves that it stands for, and every extruding move
/// that is removed leaves the extruder exactly where it is.
pub proof fn lemma_run_keeps_filament<N: Scalar>(
    plan: Plan<N>,
    p: Seq<Spanned<Command<N>>>,
    limits: Option<MachineLimits<N>>,
)
    requires
        stages_keep_filament(plan, p),
    ensures
        simulation(plan.result(p), limits).stats.total_filament_mm == simulation(
            p,
            limits,
        ).stats.total_filament_mm,
{
    let step = winding::<N>();
    let fresh = fresh_spool::<N>();
    let q = after_merge(p, plan.opt);
    let r = plan.fitted_program(p);
    let t = after_optimize(r, plan.opt);
    let out = plan.result(p);
    if plan.opt.merge_collinear && !plan.opt.dry_run {
        lemma_collinear_runs_in_order(p);
        lemma_merge_keeps_effect(step, fresh, p, collinear_runs(p), p.len() as int);
    }
    assert(effect(step, fresh, q) == effect(step, fresh, p));
    if fits_arcs(q, plan.arcs) {
        lemma_fit_keeps_effect(step, fresh, q, plan.arcs.tolerance_mm);
    }
    assert(effect(step, fresh, r) == effect(step, fresh, q));
    if !plan.opt.dry_run {
        lemma_filament_is_kept_so_far(r, plan.opt, r.len() as int);
    }
    assert(effect(step, fresh, t) == effect(step, fresh, r));
    if plan.opt.insert_progress {
        let timing = timing_of(simulation(p, plan.limits).stats);
        lemma_progress_keeps_other_commands(t, timing, plan.opt.trust_existing_m73);
        lemma_markers_have_no_effect(step, fresh, t);
        lemma_markers_have_no_effect(step, fresh, out);
    }
    assert(effect(step, fresh, out) == effect(step, fresh, p));
    lemma_same_spool_same_filament(out, p, limits);
}

} // verus!
