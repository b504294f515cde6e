//! Where a program leads the head and the extruder, and that no stage leads them
//! elsewhere.

use vstd::prelude::*;

use crate::analyzer::simulation;
use crate::arc_fitter::{arc_command, fit_state, fitted, is_arc, CandidatePoint};
use crate::effects::{
    effect, folded, held_back, lemma_effect_of_concat, lemma_fit_keeps_effect,
    lemma_fit_state_keeps_effect, lemma_markers_have_no_effect, lemma_merge_keeps_effect,
    runs_are_stood_for, stands_for, window_is_stood_for, windows_are_stood_for,
};
use crate::models::{Command, Spanned};
use crate::optimizer::collinear::{
    collinear_runs, lemma_collinear_runs_in_order, merged, merged_move, named,
};
use crate::optimizer::laws::{
    lemma_place_is_kept, lemma_settings_are_kept, same_place, same_settings, stays_put,
};
use crate::optimizer::progress::lemma_progress_keeps_other_commands;
use crate::optimizer::{axes_of, has_relative, kept, moved, rule_at, set_axes, state_at, Tracker};
use crate::pipeline::{after_merge, after_optimize, fits_arcs, timing_of, Plan};
use crate::scalar::{value_or, zero_spec, Scalar};

verus! {

// ── The place ─────────────────────────────────────────────────────────────────

/// Where the head and the extruder are, and how positions are meant.
#[verifier::ext_equal]
pub struct Place<N> {
    pub x: N,
    pub y: N,
    pub z: N,
    pub e: N,
    /// Whether positioning is absolute.
    pub is_absolute: bool,
}

/// The place before the first command: the origin, in absolute positioning.
pub open spec fn fresh_place<N: Scalar>() -> Place<N> {
    Place { x: zero_spec(), y: zero_spec(), z: zero_spec(), e: zero_spec(), is_absolute: true }
}

/// The place of a tracked state.
pub open spec fn place_of<N>(s: Tracker<N>) -> Place<N> {
    Place { x: s.x, y: s.y, z: s.z, e: s.e, is_absolute: s.is_absolute }
}

/// The place after a command.
pub open spec fn place_after<N: Scalar>(s: Place<N>, command: Command<N>) -> Place<N> {
    match command {
        Command::SetAbsolute => Place { is_absolute: true, ..s },
        Command::SetRelative => Place { is_absolute: false, ..s },
        Command::SetPosition { x, y, z, e } => {
            let set = set_axes(x, y, z, e);
            Place {
                x: value_or(set.x, s.x),
                y: value_or(set.y, s.y),
                z: value_or(set.z, s.z),
                e: value_or(set.e, s.e),
                ..s
            }
        },
        _ => match axes_of(command) {
            Some(axes) => Place {
                x: moved(s.x, axes.x, s.is_absolute),
                y: moved(s.y, axes.y, s.is_absolute),
                z: moved(s.z, axes.z, s.is_absolute),
                e: moved(s.e, axes.e, s.is_absolute),
                ..s
            },
            None => s,
        },
    }
}

/// How a command changes the place.
pub open spec fn leading<N: Scalar>() -> spec_fn(Place<N>, Command<N>) -> Place<N> {
    |s: Place<N>, c: Command<N>| place_after(s, c)
}

/// The place to which the first `n` commands of a program lead.
pub open spec fn place_at<N: Scalar>(p: Seq<Spanned<Command<N>>>, n: int) -> Place<N> {
    folded(leading(), fresh_place(), p, n)
}

/// The optimizer tracks the place command by command.
pub proof fn lemma_tracked_place<N: Scalar>(p: Seq<Spanned<Command<N>>>, n: int)
    ensures
        place_of(state_at(p, n)) == place_at(p, n),
    decreases n,
{
    if n > 0 {
        lemma_tracked_place(p, n - 1);
    }
}

// ── Merged moves ──────────────────────────────────────────────────────────────

/// In absolute positioning, moves lead to the positions that they name last.
proof fn lemma_named_axes<N: Scalar>(
    s: Place<N>,
    p: Seq<Spanned<Command<N>>>,
    start: int,
    end: int,
    n: int,
)
    requires
        s.is_absolute,
        0 <= start <= end <= p.len(),
        0 <= n <= end - start,
        forall|i: int| start <= i < end ==> (#[trigger] p[i]).inner is LinearMove,
    ensures
        ({
            let axes = named(p, start, start + n);
            folded(leading(), s, p.subrange(start, end), n) == (Place {
                x: value_or(axes.x, s.x),
                y: value_or(axes.y, s.y),
                z: value_or(axes.z, s.z),
                e: value_or(axes.e, s.e),
                ..s
            })
        }),
    decreases n,
{
    if n > 0 {
        lemma_named_axes(s, p, start, end, n - 1);
        assert(p.subrange(start, end)[n - 1] == p[start + (n - 1)]);
        assert(p[start + (n - 1)].inner is LinearMove);
    }
}

proof fn lemma_stays_absolute<N: Scalar>(p: Seq<Spanned<Command<N>>>, n: int)
    requires
        0 <= n <= p.len(),
        !has_relative(p),
    ensures
        place_at(p, n).is_absolute,
    decreases n,
{
    if n > 0 {
        lemma_stays_absolute(p, n - 1);
        assert(!(p[n - 1].inner is SetRelative));
    }
}

/// Every merged move leads where its run led.
pub proof fn lemma_merged_moves_stand_for_their_runs<N: Scalar>(p: Seq<Spanned<Command<N>>>)
    ensures
        runs_are_stood_for(leading(), fresh_place(), p, collinear_runs(p)),
{
    let step = leading::<N>();
    let fresh = fresh_place::<N>();
    let runs = collinear_runs(p);
    lemma_collinear_runs_in_order(p);
    assert forall|k: int| 0 <= k < runs.len() implies stands_for(
        step,
        folded(step, fresh, p, (#[trigger] runs[k]).0),
        p.subrange(runs[k].0, runs[k].1),
        merged_move(p, runs[k].0, runs[k].1),
    ) by {
        let (start, end) = runs[k];
        lemma_stays_absolute(p, start);
        assert forall|i: int| start <= i < end implies (#[trigger] p[i]).inner is LinearMove by {
            assert(runs[k].0 <= i < runs[k].1);
        }
        lemma_named_axes(folded(step, fresh, p, start), p, start, end, end - start);
    }
}

/// Merging leads the head and the extruder where they were led.
pub proof fn lemma_merging_keeps_the_place<N: Scalar>(p: Seq<Spanned<Command<N>>>)
    ensures
        effect(leading(), fresh_place(), merged(p, collinear_runs(p), p.len() as int)) == place_at(
            p,
            p.len() as int,
        ),
{
    lemma_collinear_runs_in_order(p);
    lemma_merged_moves_stand_for_their_runs(p);
    lemma_merge_keeps_effect(leading(), fresh_place(), p, collinear_runs(p), p.len() as int);
}

// ── Arcs ──────────────────────────────────────────────────────────────────────

proof fn lemma_fit_knows_the_place<N: Scalar>(
    p: Seq<Spanned<Command<N>>>,
    tolerance: N,
    n: int,
)
    requires
        0 <= n <= p.len(),
        !has_relative(p),
    ensures
        ({
            let s = fit_state(p, tolerance, n);
            &&& place_at(p, n).is_absolute
            &&& place_at(p, n).x == s.x
            &&& place_at(p, n).y == s.y
            &&& s.window.len() > 0 ==> s.window.last().to == (s.x, s.y)
            &&& forall|i: int|
                0 <= i < s.window.len() ==> (#[trigger] s.window[i]).e is Some
                    == s.window[i].e_delta is Some
        }),
    decreases n,
{
    if n > 0 {
        lemma_fit_knows_the_place(p, tolerance, n - 1);
        assert(!(p[n - 1].inner is SetRelative));
    }
}

proof fn lemma_held_moves<N: Scalar>(s: Place<N>, window: Seq<CandidatePoint<N>>, n: int)
    requires
        0 <= n <= window.len(),
        forall|i: int|
            0 <= i < window.len() ==> (#[trigger] window[i]).e is Some && window[i].z is Some
                == window[0].z is Some,
    ensures
        ({
            let t = folded(leading(), s, held_back(window), n);
            &&& t.is_absolute == s.is_absolute
            &&& n > 0 && s.is_absolute ==> t.z == value_or(window[n - 1].z, s.z) && t.e
                == window[n - 1].e->0
        }),
    decreases n,
{
    if n > 0 {
        lemma_held_moves(s, window, n - 1);
        assert(window[n - 1].e is Some);
        if n > 1 {
            assert(window[n - 2].e is Some);
        }
    }
}

proof fn lemma_window_is_stood_for<N: Scalar>(
    p: Seq<Spanned<Command<N>>>,
    tolerance: N,
    n: int,
)
    requires
        0 <= n <= p.len(),
        !has_relative(p),
    ensures
        window_is_stood_for(leading(), fresh_place(), p, tolerance, n),
    decreases n,
{
    let step = leading::<N>();
    let fresh = fresh_place::<N>();
    assert forall|k: int| 0 <= k < n implies window_is_stood_for(step, fresh, p, tolerance, k) by {
        lemma_window_is_stood_for(p, tolerance, k);
    }
    let s = fit_state(p, tolerance, n);
    if is_arc(s.window, tolerance) {
        lemma_fit_state_keeps_effect(step, fresh, p, tolerance, n);
        lemma_fit_knows_the_place(p, tolerance, n);
        let begin = effect(step, fresh, s.out);
        let held = held_back(s.window);
        lemma_effect_of_concat(step, fresh, s.out, held);
        assert(effect(step, begin, held) == place_at(p, n));
        assert forall|i: int| 0 <= i < s.window.len() implies (#[trigger] s.window[i]).e is Some
            && s.window[i].z is Some == s.window[0].z is Some by {
            assert(s.window[i].e_delta is Some);
        }
        lemma_held_moves(begin, s.window, s.window.len() as int);
        let last = s.window.last();
        assert(last == s.window[s.window.len() - 1]);
        let arc = arc_command(s.window);
        assert(step(begin, arc.inner) =~= place_at(p, n));
    }
}

/// Arc fitting leads the head and the extruder where they were led.  It leaves
/// programs alone that use relative positioning.
pub proof fn lemma_arcs_keep_the_place<N: Scalar>(p: Seq<Spanned<Command<N>>>, tolerance: N)
    requires
        !has_relative(p),
    ensures
        windows_are_stood_for(leading(), fresh_place(), p, tolerance),
        effect(leading(), fresh_place(), fitted(p, tolerance).out) == place_at(
            p,
            p.len() as int,
        ),
{
    assert forall|n: int| 0 <= n <= p.len() implies window_is_stood_for(
        leading(),
        fresh_place(),
        p,
        tolerance,
        n,
    ) by {
        lemma_window_is_stood_for(p, tolerance, n);
    }
    lemma_fit_keeps_effect(leading(), fresh_place(), p, tolerance);
}

// ── All stages ────────────────────────────────────────────────────────────────

/// Whether what rules 1 to 4 remove in a run leaves the head and the extruder exactly
/// where they are.
pub open spec fn stages_keep_the_place<N: Scalar>(
    plan: Plan<N>,
    p: Seq<Spanned<Command<N>>>,
) -> bool {
    let r = plan.fitted_program(p);
    !plan.opt.dry_run ==> forall|i: int|
        0 <= i < r.len() && #[trigger] rule_at(r, i) is Some ==> stays_put(r, i)
}

/// A run leads the head and the extruder to where the program led them.
pub proof fn lemma_run_keeps_the_place<N: Scalar>(plan: Plan<N>, p: Seq<Spanned<Command<N>>>)
    requires
        stages_keep_the_place(plan, p),
    ensures
        place_at(plan.result(p), plan.result(p).len() as int) == place_at(p, p.len() as int),
{
    let step = leading::<N>();
    let fresh = fresh_place::<N>();
    let q = after_merge(p, plan.opt);
    let r = plan.fitted_program(p);
    let t = after_optimize(r, plan.opt);
    let out = plan.result(p);
    if plan.opt.merge_collinear && !plan.opt.dry_run {
        lemma_merging_keeps_the_place(p);
    }
    assert(effect(step, fresh, q) == effect(step, fresh, p));
    if fits_arcs(q, plan.arcs) {
        lemma_arcs_keep_the_place(q, plan.arcs.tolerance_mm);
    }
    assert(effect(step, fresh, r) == effect(step, fresh, q));
    if !plan.opt.dry_run {
        let n = r.len() as int;
        lemma_place_is_kept(r, plan.opt, n);
        lemma_settings_are_kept(r, plan.opt, n);
        lemma_tracked_place(r, n);
        lemma_tracked_place(t, t.len() as int);
        assert(t == kept(r, plan.opt, n));
        assert(same_place(state_at(t, t.len() as int), state_at(r, n)));
        assert(same_settings(state_at(t, t.len() as int), state_at(r, n)));
        assert(place_at(t, t.len() as int) =~= place_at(r, n));
    }
    assert(effect(step, fresh, t) == effect(step, fresh, r));
    if plan.opt.insert_progress {
        let timing = timing_of(simulation(p, plan.limits).stats);
        lemma_progress_keeps_other_commands(t, timing, plan.opt.trust_existing_m73);
        lemma_markers_have_no_effect(step, fresh, t);
        lemma_markers_have_no_effect(step, fresh, out);
    }
    assert(effect(step, fresh, out) == effect(step, fresh, p));
}

} // verus!
