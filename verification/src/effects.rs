//! What a program does, told command by command.
//!
//! An effect is anything that a program changes one command after the other: a
//! state, and how each command changes it.  Where a stage replaces commands by one
//! that changes the state as they do, the whole program does what it did.

use vstd::prelude::*;

use crate::arc_fitter::{
    arc_command, fit_state, fitted, is_arc, original, CandidatePoint, FitState,
};
use crate::models::{Command, Spanned};
use crate::optimizer::collinear::{in_order, merged, merged_move};
use crate::optimizer::progress::{is_marker, no_marker};
use crate::scalar::Scalar;

verus! {

/// The state `s` after the first `n` commands, where `step` changes it.
pub open spec fn folded<S, N>(
    step: spec_fn(S, Command<N>) -> S,
    s: S,
    p: Seq<Spanned<Command<N>>>,
    n: int,
) -> S
    decreases n,
{
    if n <= 0 {
        s
    } else {
        step(folded(step, s, p, n - 1), p[n - 1].inner)
    }
}

/// The state `s` after the whole program.
pub open spec fn effect<S, N>(
    step: spec_fn(S, Command<N>) -> S,
    s: S,
    p: Seq<Spanned<Command<N>>>,
) -> S {
    folded(step, s, p, p.len() as int)
}

/// The state depends on the commands so far alone.
pub proof fn lemma_effect_of_prefix<S, N>(
    step: spec_fn(S, Command<N>) -> S,
    s: S,
    a: Seq<Spanned<Command<N>>>,
    b: Seq<Spanned<Command<N>>>,
    n: int,
)
    requires
        0 <= n <= a.len(),
        n <= b.len(),
        forall|i: int| 0 <= i < n ==> a[i] == b[i],
    ensures
        folded(step, s, a, n) == folded(step, s, b, n),
    decreases n,
{
    if n > 0 {
        lemma_effect_of_prefix(step, s, a, b, n - 1);
    }
}

/// One more command changes the state once more.
pub proof fn lemma_effect_of_push<S, N>(
    step: spec_fn(S, Command<N>) -> S,
    s: S,
    p: Seq<Spanned<Command<N>>>,
    c: Spanned<Command<N>>,
)
    ensures
        effect(step, s, p.push(c)) == step(effect(step, s, p), c.inner),
{
    lemma_effect_of_prefix(step, s, p.push(c), p, p.len() as int);
}

proof fn lemma_folded_concat<S, N>(
    step: spec_fn(S, Command<N>) -> S,
    s: S,
    a: Seq<Spanned<Command<N>>>,
    b: Seq<Spanned<Command<N>>>,
    m: int,
)
    requires
        0 <= m <= b.len(),
    ensures
        folded(step, s, a + b, a.len() + m) == folded(step, effect(step, s, a), b, m),
    decreases m,
{
    if m == 0 {
        lemma_effect_of_prefix(step, s, a + b, a, a.len() as int);
    } else {
        lemma_folded_concat(step, s, a, b, m - 1);
        assert((a + b)[a.len() + m - 1] == b[m - 1]);
    }
}

/// The effect of two programs in a row is that of the second after the first.
pub proof fn lemma_effect_of_concat<S, N>(
    step: spec_fn(S, Command<N>) -> S,
    s: S,
    a: Seq<Spanned<Command<N>>>,
    b: Seq<Spanned<Command<N>>>,
)
    ensures
        effect(step, s, a + b) == effect(step, effect(step, s, a), b),
{
    lemma_folded_concat(step, s, a, b, b.len() as int);
}

proof fn lemma_effect_between<S, N>(
    step: spec_fn(S, Command<N>) -> S,
    s: S,
    p: Seq<Spanned<Command<N>>>,
    a: int,
    b: int,
)
    requires
        0 <= a <= b <= p.len(),
    ensures
        folded(step, s, p, b) == effect(step, folded(step, s, p, a), p.subrange(a, b)),
{
    let head = p.take(a);
    let part = p.subrange(a, b);
    lemma_effect_of_concat(step, s, head, part);
    lemma_effect_of_prefix(step, s, head, p, a);
    lemma_effect_of_prefix(step, s, head + part, p, b);
}

/// Whether one command changes the state `s` as the given commands do.
pub open spec fn stands_for<S, N>(
    step: spec_fn(S, Command<N>) -> S,
    s: S,
    commands: Seq<Spanned<Command<N>>>,
    one: Spanned<Command<N>>,
) -> bool {
    effect(step, s, commands) == step(s, one.inner)
}

// ── Collinear merging ─────────────────────────────────────────────────────────

/// Whether every merged move stands for its run.
pub open spec fn runs_are_stood_for<S, N>(
    step: spec_fn(S, Command<N>) -> S,
    s: S,
    p: Seq<Spanned<Command<N>>>,
    runs: Seq<(int, int)>,
) -> bool {
    forall|k: int|
        0 <= k < runs.len() ==> stands_for(
            step,
            folded(step, s, p, (#[trigger] runs[k]).0),
            p.subrange(runs[k].0, runs[k].1),
            merged_move(p, runs[k].0, runs[k].1),
        )
}

/// Merging keeps an effect, as long as every merged move stands for its run.
pub proof fn lemma_merge_keeps_effect<S, N>(
    step: spec_fn(S, Command<N>) -> S,
    s: S,
    p: Seq<Spanned<Command<N>>>,
    runs: Seq<(int, int)>,
    n: int,
)
    requires
        0 <= n <= p.len(),
        in_order(runs, n),
        runs_are_stood_for(step, s, p, runs),
    ensures
        effect(step, s, merged(p, runs, n)) == folded(step, s, p, n),
    decreases runs.len(),
{
    if runs.len() == 0 {
        lemma_effect_of_prefix(step, s, p.take(n), p, n);
    } else {
        let (start, end) = runs.last();
        let rest = runs.drop_last();
        assert(runs[runs.len() - 1] == (start, end));
        assert forall|k: int| 0 <= k < rest.len() implies 0 <= (#[trigger] rest[k]).0 && rest[k].0
            + 3 <= rest[k].1 && rest[k].1 <= start by {
            assert(rest[k] == runs[k]);
            assert(runs[k].1 <= runs[runs.len() - 1].0);
        }
        assert forall|k: int, m: int| 0 <= k < m < rest.len() implies (#[trigger] rest[k]).1 <= (
        #[trigger] rest[m]).0 by {
            assert(rest[k] == runs[k] && rest[m] == runs[m]);
        }
        assert forall|k: int| 0 <= k < rest.len() implies stands_for(
            step,
            folded(step, s, p, (#[trigger] rest[k]).0),
            p.subrange(rest[k].0, rest[k].1),
            merged_move(p, rest[k].0, rest[k].1),
        ) by {
            assert(rest[k] == runs[k]);
        }
        lemma_merge_keeps_effect(step, s, p, rest, start);
        let before = merged(p, rest, start);
        let one = merged_move(p, start, end);
        lemma_effect_between(step, s, p, start, end);
        lemma_effect_between(step, s, p, end, n);
        lemma_effect_of_push(step, s, before, one);
        lemma_effect_of_concat(step, s, before.push(one), p.subrange(end, n));
    }
}

// ── Arc fitting ───────────────────────────────────────────────────────────────

/// The moves that the window holds back.
pub open spec fn held_back<N>(window: Seq<CandidatePoint<N>>) -> Seq<Spanned<Command<N>>> {
    window.map_values(|pt: CandidatePoint<N>| original(pt))
}

/// The commands emitted so far, and those that the window holds back.
pub open spec fn so_far<N>(s: FitState<N>) -> Seq<Spanned<Command<N>>> {
    s.out + held_back(s.window)
}

/// Whether every window that is an arc is stood for by that arc.
pub open spec fn windows_are_stood_for<S, N: Scalar>(
    step: spec_fn(S, Command<N>) -> S,
    s: S,
    p: Seq<Spanned<Command<N>>>,
    tolerance: N,
) -> bool {
    forall|n: int| 0 <= n <= p.len() ==> window_is_stood_for(step, s, p, tolerance, n)
}

/// Whether the window after `n` commands, if it is an arc, is stood for by that arc.
pub open spec fn window_is_stood_for<S, N: Scalar>(
    step: spec_fn(S, Command<N>) -> S,
    s: S,
    p: Seq<Spanned<Command<N>>>,
    tolerance: N,
    n: int,
) -> bool {
    let state = fit_state(p, tolerance, n);
    is_arc(state.window, tolerance) ==> stands_for(
        step,
        effect(step, s, state.out),
        held_back(state.window),
        arc_command(state.window),
    )
}

proof fn lemma_flush_keeps_effect<S, N: Scalar>(
    step: spec_fn(S, Command<N>) -> S,
    s: S,
    state: FitState<N>,
    tolerance: N,
)
    requires
        is_arc(state.window, tolerance) ==> stands_for(
            step,
            effect(step, s, state.out),
            held_back(state.window),
            arc_command(state.window),
        ),
    ensures
        effect(step, s, state.flushed(tolerance).out) == effect(step, s, so_far(state)),
        so_far(state.flushed(tolerance)) == state.flushed(tolerance).out,
{
    let held = held_back(state.window);
    let done = state.flushed(tolerance);
    lemma_effect_of_concat(step, s, state.out, held);
    assert(so_far(done) =~= done.out);
    if is_arc(state.window, tolerance) {
        lemma_effect_of_push(step, s, state.out, arc_command(state.window));
    } else {
        assert(done.out =~= so_far(state));
    }
}

/// What is emitted and held back has the effect of the commands so far.
pub proof fn lemma_fit_state_keeps_effect<S, N: Scalar>(
    step: spec_fn(S, Command<N>) -> S,
    s: S,
    p: Seq<Spanned<Command<N>>>,
    tolerance: N,
    n: int,
)
    requires
        0 <= n <= p.len(),
        forall|k: int| 0 <= k < n ==> window_is_stood_for(step, s, p, tolerance, k),
    ensures
        effect(step, s, so_far(fit_state(p, tolerance, n))) == folded(step, s, p, n),
    decreases n,
{
    if n <= 0 {
        assert(so_far(FitState::<N>::start()) =~= Seq::<Spanned<Command<N>>>::empty());
    } else {
        lemma_fit_state_keeps_effect(step, s, p, tolerance, n - 1);
        let before = fit_state(p, tolerance, n - 1);
        let after = fit_state(p, tolerance, n);
        let flushed = before.flushed(tolerance);
        let c = p[n - 1];
        assert(after == before.after(c, tolerance));
        assert(window_is_stood_for(step, s, p, tolerance, n - 1));
        lemma_flush_keeps_effect(step, s, before, tolerance);
        let grown = c.inner is LinearMove && after.out == before.out && after.window
            == before.window.push(before.point(c));
        if grown {
            assert(original(before.point(c)) == c);
            assert(so_far(after) =~= so_far(before).push(c));
            lemma_effect_of_push(step, s, so_far(before), c);
        } else {
            if c.inner is LinearMove {
                assert(original(before.point(c)) == c);
                assert(flushed.flushed(tolerance).out =~= flushed.out);
                assert(after.window =~= seq![before.point(c)]);
                assert(after.out =~= flushed.out);
            }
            assert(so_far(after) =~= flushed.out.push(c));
            lemma_effect_of_push(step, s, flushed.out, c);
        }
    }
}

/// Arc fitting keeps an effect, as long as every arc stands for its window.
pub proof fn lemma_fit_keeps_effect<S, N: Scalar>(
    step: spec_fn(S, Command<N>) -> S,
    s: S,
    p: Seq<Spanned<Command<N>>>,
    tolerance: N,
)
    requires
        windows_are_stood_for(step, s, p, tolerance),
    ensures
        effect(step, s, fitted(p, tolerance).out) == effect(step, s, p),
{
    let n = p.len() as int;
    lemma_fit_state_keeps_effect(step, s, p, tolerance, n);
    assert(window_is_stood_for(step, s, p, tolerance, n));
    lemma_flush_keeps_effect(step, s, fit_state(p, tolerance, n), tolerance);
}

// ── Progress markers ──────────────────────────────────────────────────────────

/// Progress markers can be passed over, where they change nothing.
pub proof fn lemma_markers_have_no_effect<S, N>(
    step: spec_fn(S, Command<N>) -> S,
    s: S,
    p: Seq<Spanned<Command<N>>>,
)
    requires
        forall|t: S, c: Command<N>| is_marker(c) ==> #[trigger] step(t, c) == t,
    ensures
        effect(step, s, p) == effect(step, s, p.filter(no_marker())),
    decreases p.len(),
{
    reveal(Seq::filter);
    if p.len() > 0 {
        let rest = p.drop_last();
        let left = rest.filter(no_marker());
        lemma_markers_have_no_effect(step, s, rest);
        assert(p =~= rest.push(p.last()));
        lemma_effect_of_push(step, s, rest, p.last());
        if is_marker(p.last().inner) {
            assert(p.filter(no_marker()) == left);
        } else {
            assert(p.filter(no_marker()) == left.push(p.last()));
            lemma_effect_of_push(step, s, left, p.last());
        }
    }
}

} // verus!
