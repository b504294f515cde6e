//! That arc fitting finds no more once it is done.
//!
//! A second pass over what the first one emitted meets the same moves, one by one,
//! that the first one emitted as they were, and nothing but other commands where
//! the first one emitted arcs.  It therefore ends its windows where the first one
//! did, and finds none of them to be an arc.

use vstd::prelude::*;

use crate::arc_fitter::{
    arc_command, can_extend, fit_state, fitted, is_arc, original, ArcFitConfig, CandidatePoint,
    FitState,
};
use crate::effects::{held_back, so_far};
use crate::models::{Command, Spanned};
use crate::pipeline::{after_arcs, changes_of_arcs};
use crate::scalar::{value_or, Scalar};

verus! {

/// Whether every G1 of a program has a feedrate of its own.
pub open spec fn every_move_has_a_feedrate<N>(p: Seq<Spanned<Command<N>>>) -> bool {
    forall|i: int| 0 <= i < p.len() ==> has_its_feedrate((#[trigger] p[i]).inner)
}

/// Whether a command, if it is a G1, has a feedrate of its own.
pub open spec fn has_its_feedrate<N>(command: Command<N>) -> bool {
    command matches Command::LinearMove { f, .. } ==> f is Some
}

/// Where a pass has the head and the extruder.
#[verifier::ext_equal]
pub struct Stand<N> {
    pub x: N,
    pub y: N,
    pub e: N,
}

/// Where a state has the head and the extruder.
pub open spec fn stand_of<N>(s: FitState<N>) -> Stand<N> {
    Stand { x: s.x, y: s.y, e: s.e }
}

/// Where the first `k` moves of a window lead from `stand`.
pub open spec fn stand_after<N: Scalar>(
    stand: Stand<N>,
    window: Seq<CandidatePoint<N>>,
    k: int,
) -> Stand<N>
    decreases k,
{
    if k <= 0 {
        stand
    } else {
        let before = stand_after(stand, window, k - 1);
        let pt = window[k - 1];
        Stand { x: pt.to.0, y: pt.to.1, e: value_or(pt.e, before.e) }
    }
}

/// Whether a point is the one that its move makes at `stand`, whatever the
/// feedrate in force.
pub open spec fn is_made_at<N: Scalar>(pt: CandidatePoint<N>, stand: Stand<N>) -> bool {
    &&& pt.f is Some
    &&& pt.feedrate == pt.f->0
    &&& pt.from == (stand.x, stand.y)
    &&& pt.to == (value_or(pt.x, stand.x), value_or(pt.y, stand.y))
    &&& pt.e_delta == match pt.e {
        Some(v) => Some(v.minus_spec(stand.e)),
        None => None,
    }
}

/// Whether the points of a window are those that its moves make, from `stand` on.
pub open spec fn is_made_from<N: Scalar>(
    window: Seq<CandidatePoint<N>>,
    stand: Stand<N>,
) -> bool {
    forall|k: int|
        0 <= k < window.len() ==> is_made_at(
            #[trigger] window[k],
            stand_after(stand, window, k),
        )
}

/// Whether a window ends before a point.
pub open spec fn ends_before<N: Scalar>(
    window: Seq<CandidatePoint<N>>,
    pt: CandidatePoint<N>,
    tolerance: N,
) -> bool {
    ||| window.len() == 0
    ||| !can_extend(window, pt)
    ||| window.len() >= 2 && !is_arc(window.push(pt), tolerance)
}

/// Whether a pass that has met `commands` has changed none of them, and holds back
/// two moves at most.
pub open spec fn is_idle_pass<N: Scalar>(
    t: FitState<N>,
    commands: Seq<Spanned<Command<N>>>,
) -> bool {
    &&& t.changes.len() == 0
    &&& so_far(t) == commands
    &&& t.window.len() <= 2
}

/// The state of a second pass over what a first pass has emitted so far.
pub open spec fn second_pass<N: Scalar>(s: FitState<N>, tolerance: N) -> FitState<N> {
    fit_state(s.out, tolerance, s.out.len() as int)
}

/// How the second pass stands to the first.
pub open spec fn goes_along<N: Scalar>(s: FitState<N>, tolerance: N) -> bool {
    let t = second_pass(s, tolerance);
    &&& is_idle_pass(t, s.out)
    &&& is_made_from(s.window, stand_of(t))
    &&& stand_of(s) == stand_after(stand_of(t), s.window, s.window.len() as int)
    &&& s.window.len() >= 3 ==> is_arc(s.window, tolerance)
    &&& s.window.len() == 2 ==> can_extend(seq![s.window[0]], s.window[1])
    &&& s.window.len() == 0 ==> t.window.len() == 0
    &&& s.window.len() > 0 ==> ends_before(t.window, s.window[0], tolerance)
}

proof fn lemma_fit_state_of_prefix<N: Scalar>(
    a: Seq<Spanned<Command<N>>>,
    b: Seq<Spanned<Command<N>>>,
    tolerance: N,
    n: int,
)
    requires
        0 <= n <= a.len(),
        n <= b.len(),
        forall|i: int| 0 <= i < n ==> a[i] == b[i],
    ensures
        fit_state(a, tolerance, n) == fit_state(b, tolerance, n),
    decreases n,
{
    if n > 0 {
        lemma_fit_state_of_prefix(a, b, tolerance, n - 1);
    }
}

proof fn lemma_fit_state_of_push<N: Scalar>(
    p: Seq<Spanned<Command<N>>>,
    c: Spanned<Command<N>>,
    tolerance: N,
)
    ensures
        fit_state(p.push(c), tolerance, p.len() as int + 1) == fit_state(
            p,
            tolerance,
            p.len() as int,
        ).after(c, tolerance),
{
    lemma_fit_state_of_prefix(p.push(c), p, tolerance, p.len() as int);
}

proof fn lemma_stand_of_prefix<N: Scalar>(
    stand: Stand<N>,
    a: Seq<CandidatePoint<N>>,
    b: Seq<CandidatePoint<N>>,
    k: int,
)
    requires
        0 <= k <= a.len(),
        k <= b.len(),
        forall|i: int| 0 <= i < k ==> a[i] == b[i],
    ensures
        stand_after(stand, a, k) == stand_after(stand, b, k),
    decreases k,
{
    if k > 0 {
        lemma_stand_of_prefix(stand, a, b, k - 1);
    }
}

/// Two moves at most are emitted as they were.
proof fn lemma_idle_pass_flushes<N: Scalar>(
    t: FitState<N>,
    commands: Seq<Spanned<Command<N>>>,
    tolerance: N,
)
    requires
        is_idle_pass(t, commands),
    ensures
        t.flushed(tolerance) == (FitState { out: commands, window: Seq::empty(), ..t }),
{
    assert(t.flushed(tolerance).out =~= so_far(t));
}

/// An idle pass takes a command that is no G1 as it is.
proof fn lemma_idle_pass_takes_other<N: Scalar>(
    p: Seq<Spanned<Command<N>>>,
    c: Spanned<Command<N>>,
    tolerance: N,
)
    requires
        is_idle_pass(fit_state(p, tolerance, p.len() as int), p),
        !(c.inner is LinearMove),
    ensures
        ({
            let u = fit_state(p.push(c), tolerance, p.len() as int + 1);
            is_idle_pass(u, p.push(c)) && u.window.len() == 0
        }),
{
    let t = fit_state(p, tolerance, p.len() as int);
    lemma_fit_state_of_push(p, c, tolerance);
    lemma_idle_pass_flushes(t, p, tolerance);
    let u = t.after(c, tolerance);
    assert(u.out =~= p.push(c));
    assert(so_far(u) =~= p.push(c));
}

/// An idle pass ends its window before a point that is to end it.
proof fn lemma_idle_pass_begins<N: Scalar>(
    p: Seq<Spanned<Command<N>>>,
    pt: CandidatePoint<N>,
    tolerance: N,
)
    requires
        is_idle_pass(fit_state(p, tolerance, p.len() as int), p),
        is_made_at(pt, stand_of(fit_state(p, tolerance, p.len() as int))),
        ends_before(fit_state(p, tolerance, p.len() as int).window, pt, tolerance),
    ensures
        ({
            let t = fit_state(p, tolerance, p.len() as int);
            let u = fit_state(p.push(original(pt)), tolerance, p.len() as int + 1);
            &&& is_idle_pass(u, p.push(original(pt)))
            &&& u.window == seq![pt]
            &&& stand_of(u) == stand_after(stand_of(t), seq![pt], 1)
        }),
{
    let t = fit_state(p, tolerance, p.len() as int);
    let c = original(pt);
    lemma_fit_state_of_push(p, c, tolerance);
    lemma_idle_pass_flushes(t, p, tolerance);
    assert(t.point(c) == pt);
    let u = t.extended(pt, tolerance);
    assert(t.after(c, tolerance) == u);
    let flushed = t.flushed(tolerance);
    lemma_idle_pass_flushes(flushed, p, tolerance);
    assert(u.window =~= seq![pt]);
    if t.window.len() == 0 {
        assert(t.out =~= so_far(t));
    }
    assert(u.out == p);
    assert(held_back(u.window) =~= seq![c]);
    assert(so_far(u) =~= p.push(c));
    reveal_with_fuel(stand_after, 2);
}

/// An idle pass holds back a second point that can follow the first.
proof fn lemma_idle_pass_goes_on<N: Scalar>(
    p: Seq<Spanned<Command<N>>>,
    first: CandidatePoint<N>,
    pt: CandidatePoint<N>,
    tolerance: N,
)
    requires
        is_idle_pass(fit_state(p, tolerance, p.len() as int), p),
        fit_state(p, tolerance, p.len() as int).window == seq![first],
        is_made_at(pt, stand_of(fit_state(p, tolerance, p.len() as int))),
        can_extend(seq![first], pt),
    ensures
        ({
            let t = fit_state(p, tolerance, p.len() as int);
            let u = fit_state(p.push(original(pt)), tolerance, p.len() as int + 1);
            &&& is_idle_pass(u, p.push(original(pt)))
            &&& u.window == seq![first, pt]
            &&& stand_of(u) == (Stand { x: pt.to.0, y: pt.to.1, e: value_or(pt.e, t.e) })
        }),
{
    let t = fit_state(p, tolerance, p.len() as int);
    let c = original(pt);
    lemma_fit_state_of_push(p, c, tolerance);
    assert(t.point(c) == pt);
    let u = t.extended(pt, tolerance);
    assert(t.after(c, tolerance) == u);
    assert(u.window =~= seq![first, pt]);
    assert(held_back(u.window) =~= held_back(t.window).push(c));
    assert(so_far(u) =~= p.push(c));
}

/// Where the first pass emits its window, the second one goes along.
proof fn lemma_flush_goes_along<N: Scalar>(s: FitState<N>, tolerance: N)
    requires
        goes_along(s, tolerance),
    ensures
        ({
            let done = s.flushed(tolerance);
            let u = second_pass(done, tolerance);
            &&& is_idle_pass(u, done.out)
            &&& stand_of(u) == stand_of(s)
            &&& is_arc(s.window, tolerance) || s.window.len() == 0 ==> u.window.len() == 0
            &&& !is_arc(s.window, tolerance) ==> u.window == s.window
        }),
{
    let t = second_pass(s, tolerance);
    let done = s.flushed(tolerance);
    let w = s.window;
    reveal_with_fuel(stand_after, 3);
    if is_arc(w, tolerance) {
        let arc = arc_command(w);
        let last = w.len() - 1;
        lemma_idle_pass_takes_other(s.out, arc, tolerance);
        lemma_fit_state_of_push(s.out, arc, tolerance);
        assert(is_made_at(w[last], stand_after(stand_of(t), w, last)));
        assert(w[last].e_delta is Some);
        assert(w.last() == w[last]);
    } else if w.len() == 0 {
        assert(done.out =~= s.out);
        assert(t.window =~= w);
    } else {
        let first = w[0];
        assert(is_made_at(first, stand_after(stand_of(t), w, 0)));
        lemma_idle_pass_begins(s.out, first, tolerance);
        let one = s.out.push(original(first));
        if w.len() == 1 {
            assert(done.out =~= one);
            assert(w =~= seq![first]);
        } else {
            assert(w.len() == 2);
            assert(is_made_at(w[1], stand_after(stand_of(t), w, 1)));
            lemma_idle_pass_goes_on(one, first, w[1], tolerance);
            assert(done.out =~= one.push(original(w[1])));
            assert(w =~= seq![first, w[1]]);
        }
    }
}

/// Command by command, the second pass goes along with the first.
proof fn lemma_second_pass_goes_along<N: Scalar>(
    p: Seq<Spanned<Command<N>>>,
    tolerance: N,
    n: int,
)
    requires
        0 <= n <= p.len(),
        every_move_has_a_feedrate(p),
    ensures
        goes_along(fit_state(p, tolerance, n), tolerance),
    decreases n,
{
    if n <= 0 {
        let s = FitState::<N>::start();
        assert(so_far(s) =~= s.out);
    } else {
        lemma_second_pass_goes_along(p, tolerance, n - 1);
        let s = fit_state(p, tolerance, n - 1);
        let after = fit_state(p, tolerance, n);
        let t = second_pass(s, tolerance);
        let done = s.flushed(tolerance);
        let u = second_pass(done, tolerance);
        let c = p[n - 1];
        assert(has_its_feedrate(c.inner));
        assert(after == s.after(c, tolerance));
        lemma_flush_goes_along(s, tolerance);
        if !(c.inner is LinearMove) {
            lemma_idle_pass_takes_other(done.out, c, tolerance);
            lemma_fit_state_of_push(done.out, c, tolerance);
            assert(after.out == done.out.push(c));
        } else {
            let pt = s.point(c);
            assert(is_made_at(pt, stand_of(s)));
            let grown = s.window.push(pt);
            if can_extend(s.window, pt) && !(grown.len() >= 3 && !is_arc(grown, tolerance)) {
                assert(after.window == grown);
                assert(after.out == s.out);
                assert forall|k: int| 0 <= k < grown.len() implies is_made_at(
                    #[trigger] grown[k],
                    stand_after(stand_of(t), grown, k),
                ) by {
                    lemma_stand_of_prefix(stand_of(t), grown, s.window, k);
                    if k < s.window.len() {
                        assert(grown[k] == s.window[k]);
                    }
                }
                lemma_stand_of_prefix(stand_of(t), grown, s.window, s.window.len() as int);
                if grown.len() == 2 {
                    assert(s.window =~= seq![grown[0]]);
                }
            } else {
                assert(done.flushed(tolerance).out =~= done.out);
                assert(after.out == done.out);
                assert(after.window =~= seq![pt]);
                assert(ends_before(u.window, pt, tolerance));
                reveal_with_fuel(stand_after, 2);
                assert(is_made_from(after.window, stand_of(u)));
            }
        }
    }
}

/// Fitting arcs twice is fitting them once: where every G1 has a feedrate of its
/// own, a second pass changes nothing.
pub proof fn lemma_fitting_twice_is_fitting_once<N: Scalar>(
    p: Seq<Spanned<Command<N>>>,
    tolerance: N,
)
    requires
        every_move_has_a_feedrate(p),
    ensures
        fitted(fitted(p, tolerance).out, tolerance).out == fitted(p, tolerance).out,
        fitted(fitted(p, tolerance).out, tolerance).changes.len() == 0,
{
    let s = fit_state(p, tolerance, p.len() as int);
    lemma_second_pass_goes_along(p, tolerance, p.len() as int);
    lemma_flush_goes_along(s, tolerance);
    let done = s.flushed(tolerance);
    lemma_idle_pass_flushes(second_pass(done, tolerance), done.out, tolerance);
}

/// The stage of arc fitting, with whatever settings, changes nothing of its own
/// result, where every G1 has a feedrate of its own.
pub proof fn lemma_arcs_are_final<N: Scalar>(
    p: Seq<Spanned<Command<N>>>,
    config: ArcFitConfig<N>,
)
    requires
        every_move_has_a_feedrate(p),
    ensures
        after_arcs(after_arcs(p, config), config) == after_arcs(p, config),
        changes_of_arcs(after_arcs(p, config), config).len() == 0,
{
    lemma_fitting_twice_is_fitting_once(p, config.tolerance_mm);
}

} // verus!
