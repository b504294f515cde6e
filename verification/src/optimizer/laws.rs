//! What holds of every optimization.

use vstd::prelude::*;

use crate::diagnostics::Change;
use crate::models::{Command, Spanned};
use crate::optimizer::{
    axes_of, by_line, changes_at, changes_before, effective, has_relative, is_bed, is_fan,
    is_hotend, is_idle, is_removed, is_straight, is_transparent, is_zero_delta, kept,
    lemma_pending_travel, lemma_slot_range, rule_at, slot, state_at, strip_at, superseded_before,
    supersedes, travel_axis, travel_of, without_feed, OptConfig, SingleAxis, Tracker,
};
use crate::scalar::{same_option_spec, Scalar};

verus! {

// ── What is left ──────────────────────────────────────────────────────────────

/// Optimization lengthens no program.
pub proof fn lemma_kept_shortens<N: Scalar>(
    p: Seq<Spanned<Command<N>>>,
    config: OptConfig,
    n: int,
)
    requires
        0 <= n,
    ensures
        kept(p, config, n).len() <= n,
    decreases n,
{
    if n > 0 {
        lemma_kept_shortens(p, config, n - 1);
    }
}

/// The places of those of the first `n` commands that are left.
pub open spec fn kept_places<N: Scalar>(
    p: Seq<Spanned<Command<N>>>,
    config: OptConfig,
    n: int,
) -> Seq<int>
    decreases n,
{
    if n <= 0 {
        Seq::empty()
    } else if is_removed(p, config, n - 1) {
        kept_places(p, config, n - 1)
    } else {
        kept_places(p, config, n - 1).push(n - 1)
    }
}

/// Nothing is reordered and nothing is made up: the commands that are left come
/// from the program, in its order, each from the place that it had, and every
/// command that is not removed is left.
pub proof fn lemma_order_is_kept<N: Scalar>(
    p: Seq<Spanned<Command<N>>>,
    config: OptConfig,
    n: int,
)
    requires
        0 <= n <= p.len(),
    ensures
        kept(p, config, n).len() == kept_places(p, config, n).len(),
        forall|k: int|
            0 <= k < kept_places(p, config, n).len() ==> {
                let i = #[trigger] kept_places(p, config, n)[k];
                &&& 0 <= i < n
                &&& !is_removed(p, config, i)
                &&& kept(p, config, n)[k] == (Spanned {
                    inner: effective(p, config, i),
                    line: p[i].line,
                    byte_offset: p[i].byte_offset,
                })
            },
        forall|k: int, m: int|
            0 <= k < m < kept_places(p, config, n).len() ==> #[trigger] kept_places(
                p,
                config,
                n,
            )[k] < #[trigger] kept_places(p, config, n)[m],
        forall|i: int|
            0 <= i < n && !is_removed(p, config, i) ==> #[trigger] kept_places(
                p,
                config,
                n,
            ).contains(i),
    decreases n,
{
    if n > 0 {
        lemma_order_is_kept(p, config, n - 1);
        let before = kept_places(p, config, n - 1);
        let places = kept_places(p, config, n);
        assert forall|i: int| 0 <= i < n && !is_removed(p, config, i) implies #[trigger]
            places.contains(i) by {
            if i < n - 1 {
                assert(before.contains(i));
                let k = choose|k: int| 0 <= k < before.len() && before[k] == i;
                assert(places[k] == i);
            } else {
                assert(places[places.len() - 1] == i);
            }
        }
    }
}

/// A command that is left is as it was, or a G0 or G1 that lost its feedrate
/// and nothing else.
pub proof fn lemma_only_feedrates_change<N: Scalar>(
    p: Seq<Spanned<Command<N>>>,
    config: OptConfig,
    i: int,
)
    ensures
        effective(p, config, i) == p[i].inner || (is_straight(p[i].inner) && effective(
            p,
            config,
            i,
        ) == without_feed(p[i].inner) && axes_of(p[i].inner)->0.f is Some
            && !config.no_feedrate_strip),
        config.no_feedrate_strip ==> effective(p, config, i) == p[i].inner,
        axes_of(effective(p, config, i)) is Some == axes_of(p[i].inner) is Some,
        axes_of(p[i].inner) matches Some(axes) ==> {
            let left = axes_of(effective(p, config, i))->0;
            left.x == axes.x && left.y == axes.y && left.z == axes.z && left.e == axes.e
        },
{
}

// ── What is removed ───────────────────────────────────────────────────────────

/// A command is removed only for a reason: because a rule finds it redundant, or
/// because a later move on the same axis supersedes it; that move is not redundant
/// itself, and between the two stand only comments, unknown lines, and moves on
/// that axis that a rule finds redundant.
pub proof fn lemma_removal_has_a_reason<N: Scalar>(
    p: Seq<Spanned<Command<N>>>,
    config: OptConfig,
    i: int,
)
    requires
        0 <= i < p.len(),
        is_removed(p, config, i),
    ensures
        rule_at(p, i) is Some || exists|j: int|
            i < j < p.len() && #[trigger] supersedes(p, config, j) == Some(i) && rule_at(p, j)
                is None && forall|k: int|
                i < k < j ==> #[trigger] is_idle(p, travel_axis(p[i].inner), k),
{
    if rule_at(p, i) is None {
        let j = choose|j: int|
            0 <= j < p.len() && #[trigger] supersedes(p, config, j) == Some(i);
        lemma_pending_travel(p, j);
        assert(supersedes(p, config, j) == Some(i));
    }
}

/// Whether no rule is about commands of this form.
pub open spec fn is_out_of_scope<N>(command: Command<N>) -> bool {
    match command {
        Command::RapidMove { .. } | Command::LinearMove { .. } => false,
        Command::SetAbsolute | Command::SetRelative => false,
        Command::MetaCommand { code, .. } => !is_fan(code) && !is_hotend(code) && !is_bed(code),
        _ => true,
    }
}

/// Comments, unknown lines, arcs, G92, other G-codes, and M-codes that set
/// neither the fan nor a temperature are left as they are.
pub proof fn lemma_other_commands_stay<N: Scalar>(
    p: Seq<Spanned<Command<N>>>,
    config: OptConfig,
    i: int,
)
    requires
        0 <= i < p.len(),
        is_out_of_scope(p[i].inner),
    ensures
        !is_removed(p, config, i),
        effective(p, config, i) == p[i].inner,
{
    if superseded_before(p, config, i, p.len() as int) {
        let j = choose|j: int|
            0 <= j < p.len() && #[trigger] supersedes(p, config, j) == Some(i);
        lemma_pending_travel(p, j);
        assert(travel_of(effective(p, config, i)) is None);
    }
}

/// An extruding move is removed only where it neither moves the head nor the
/// extruder, and what is left of the others extrudes as before.
pub proof fn lemma_extrusion_is_kept<N: Scalar>(
    p: Seq<Spanned<Command<N>>>,
    config: OptConfig,
    i: int,
)
    requires
        0 <= i < p.len(),
        p[i].inner matches Command::LinearMove { e, .. } && e is Some,
    ensures
        is_removed(p, config, i) ==> is_zero_delta(axes_of(p[i].inner)->0, state_at(p, i)),
        effective(p, config, i) matches Command::LinearMove { e, .. } && p[i].inner
            matches Command::LinearMove { e: before, .. } && e == before,
{
    if superseded_before(p, config, i, p.len() as int) {
        let j = choose|j: int|
            0 <= j < p.len() && #[trigger] supersedes(p, config, j) == Some(i);
        lemma_pending_travel(p, j);
        assert(travel_of(effective(p, config, i)) is None);
    }
}

// ── What stays in force ───────────────────────────────────────────────────────

proof fn lemma_state_of_prefix<N: Scalar>(
    a: Seq<Spanned<Command<N>>>,
    b: Seq<Spanned<Command<N>>>,
    n: int,
)
    requires
        0 <= n <= a.len(),
        n <= b.len(),
        forall|i: int| 0 <= i < n ==> a[i] == b[i],
    ensures
        state_at(a, n) == state_at(b, n),
    decreases n,
{
    if n > 0 {
        lemma_state_of_prefix(a, b, n - 1);
    }
}

/// Whether two states agree in positioning mode, fan, hotend and bed.
pub open spec fn same_settings<N>(a: Tracker<N>, b: Tracker<N>) -> bool {
    a.is_absolute == b.is_absolute && a.last_mode == b.last_mode && a.fan == b.fan && a.hotend
        == b.hotend && a.bed == b.bed
}

pub proof fn lemma_mode_is_consistent<N: Scalar>(p: Seq<Spanned<Command<N>>>, n: int)
    ensures
        state_at(p, n).last_mode matches Some(absolute) ==> state_at(p, n).is_absolute == absolute,
    decreases n,
{
    if n > 0 {
        lemma_mode_is_consistent(p, n - 1);
    }
}

/// At every point of the program, the commands that are left have set the same
/// positioning mode, fan speed and temperatures as the whole program up to there.
pub proof fn lemma_settings_are_kept<N: Scalar>(
    p: Seq<Spanned<Command<N>>>,
    config: OptConfig,
    n: int,
)
    requires
        0 <= n <= p.len(),
    ensures
        same_settings(
            state_at(kept(p, config, n), kept(p, config, n).len() as int),
            state_at(p, n),
        ),
    decreases n,
{
    if n > 0 {
        lemma_settings_are_kept(p, config, n - 1);
        lemma_mode_is_consistent(p, n - 1);
        let before = kept(p, config, n - 1);
        let after = kept(p, config, n);
        if !is_removed(p, config, n - 1) {
            lemma_state_of_prefix(after, before, before.len() as int);
            assert(after.last().inner == effective(p, config, n - 1));
            assert(after[before.len() as int] == after.last());
        } else {
            lemma_removal_has_a_reason(p, config, n - 1);
            if rule_at(p, n - 1) is None {
                let j = choose|j: int|
                    n - 1 < j < p.len() && #[trigger] supersedes(p, config, j) == Some(n - 1);
                assert(travel_of(effective(p, config, n - 1)) is Some);
                assert(is_straight(p[n - 1].inner));
            }
        }
    }
}

// ── Where the head goes ───────────────────────────────────────────────────────

/// Whether two states have the head and the extruder at the same place, but for
/// the given axis of the head.
pub open spec fn same_place_but<N>(
    a: Tracker<N>,
    b: Tracker<N>,
    lagging: Option<SingleAxis>,
) -> bool {
    &&& a.x == b.x || lagging == Some(SingleAxis::X)
    &&& a.y == b.y || lagging == Some(SingleAxis::Y)
    &&& a.z == b.z || lagging == Some(SingleAxis::Z)
    &&& a.e == b.e
}

/// Whether two states have the head and the extruder at the same place.
pub open spec fn same_place<N>(a: Tracker<N>, b: Tracker<N>) -> bool {
    a.x == b.x && a.y == b.y && a.z == b.z && a.e == b.e
}

/// Whether command `i` leaves the head and the extruder exactly where they are.
pub open spec fn stays_put<N: Scalar>(p: Seq<Spanned<Command<N>>>, i: int) -> bool {
    same_place(state_at(p, i), state_at(p, i + 1))
}

/// Whether the commands that are left lag behind at command `n` because of
/// command `i`: a move from `n` on supersedes it.
pub open spec fn lags<N: Scalar>(
    p: Seq<Spanned<Command<N>>>,
    config: OptConfig,
    i: int,
    n: int,
) -> bool {
    0 <= i < n && exists|j: int| n <= j < p.len() && #[trigger] supersedes(p, config, j) == Some(i)
}

/// The superseded travel move by which the commands that are left lag behind at
/// command `n`, if any.
pub open spec fn lagging<N: Scalar>(
    p: Seq<Spanned<Command<N>>>,
    config: OptConfig,
    n: int,
) -> Option<int> {
    if exists|i: int| lags(p, config, i, n) {
        Some(choose|i: int| lags(p, config, i, n))
    } else {
        None
    }
}

/// The axis on which the commands that are left lag behind at command `n`: that
/// of a travel move that a move from `n` on supersedes.
pub open spec fn lag_at<N: Scalar>(
    p: Seq<Spanned<Command<N>>>,
    config: OptConfig,
    n: int,
) -> Option<SingleAxis> {
    match lagging(p, config, n) {
        Some(i) => travel_axis(p[i].inner),
        None => None,
    }
}

proof fn lemma_always_absolute<N: Scalar>(p: Seq<Spanned<Command<N>>>, n: int)
    requires
        0 <= n <= p.len(),
        !has_relative(p),
    ensures
        state_at(p, n).is_absolute,
    decreases n,
{
    if n > 0 {
        lemma_always_absolute(p, n - 1);
        assert(!(p[n - 1].inner is SetRelative));
    }
}

/// A superseded move is a travel move in a program without relative positioning,
/// and between it and the move on the same axis that supersedes it stands nothing
/// but idle commands.
proof fn lemma_superseding_move<N: Scalar>(
    p: Seq<Spanned<Command<N>>>,
    config: OptConfig,
    i: int,
    j: int,
)
    requires
        0 <= j < p.len(),
        supersedes(p, config, j) == Some(i),
    ensures
        0 <= i < j,
        rule_at(p, i) is None,
        rule_at(p, j) is None,
        !has_relative(p),
        travel_axis(p[i].inner) is Some,
        travel_axis(p[i].inner) == travel_axis(p[j].inner),
        same_option_spec(
            axes_of(effective(p, config, i))->0.f,
            axes_of(effective(p, config, j))->0.f,
        ),
        forall|k: int| i < k < j ==> #[trigger] is_idle(p, travel_axis(p[i].inner), k),
{
    lemma_pending_travel(p, j);
    lemma_only_feedrates_change(p, config, i);
    lemma_only_feedrates_change(p, config, j);
}

/// At every command the lag is due to one move at most.
proof fn lemma_one_lags<N: Scalar>(
    p: Seq<Spanned<Command<N>>>,
    config: OptConfig,
    a: int,
    b: int,
    n: int,
)
    requires
        lags(p, config, a, n),
        lags(p, config, b, n),
    ensures
        a == b,
{
    let to_a = choose|j: int| n <= j < p.len() && #[trigger] supersedes(p, config, j) == Some(a);
    let to_b = choose|j: int| n <= j < p.len() && #[trigger] supersedes(p, config, j) == Some(b);
    lemma_superseding_move(p, config, a, to_a);
    lemma_superseding_move(p, config, b, to_b);
    if a < b {
        assert(is_idle(p, travel_axis(p[a].inner), b));
    } else if b < a {
        assert(is_idle(p, travel_axis(p[b].inner), a));
    }
}

proof fn lemma_lagging<N: Scalar>(
    p: Seq<Spanned<Command<N>>>,
    config: OptConfig,
    i: int,
    n: int,
)
    requires
        lags(p, config, i, n),
    ensures
        lagging(p, config, n) == Some(i),
{
    lemma_one_lags(p, config, i, choose|k: int| lags(p, config, k, n), n);
}

/// How the lag changes at command `n - 1`.
proof fn lemma_lag_step<N: Scalar>(
    p: Seq<Spanned<Command<N>>>,
    config: OptConfig,
    n: int,
)
    requires
        0 < n <= p.len(),
    ensures
        superseded_before(p, config, n - 1, p.len() as int) ==> {
            &&& lagging(p, config, n) == Some(n - 1)
            &&& travel_axis(p[n - 1].inner) is Some
            &&& rule_at(p, n - 1) is None
            &&& !has_relative(p)
            &&& lagging(p, config, n - 1) matches Some(i) ==> supersedes(p, config, n - 1) == Some(
                i,
            )
        },
        !superseded_before(p, config, n - 1, p.len() as int) ==> match lagging(
            p,
            config,
            n - 1,
        ) {
            Some(i) => {
                ||| lagging(p, config, n) == Some(i) && is_idle(
                    p,
                    travel_axis(p[i].inner),
                    n - 1,
                )
                ||| lagging(p, config, n) is None && supersedes(p, config, n - 1) == Some(i)
            },
            None => lagging(p, config, n) is None,
        },
{
    let gone = superseded_before(p, config, n - 1, p.len() as int);
    if gone {
        let j = choose|j: int|
            0 <= j < p.len() && #[trigger] supersedes(p, config, j) == Some(n - 1);
        lemma_superseding_move(p, config, n - 1, j);
        assert(lags(p, config, n - 1, n));
        lemma_lagging(p, config, n - 1, n);
    }
    if let Some(i) = lagging(p, config, n - 1) {
        assert(lags(p, config, i, n - 1));
        let j = choose|j: int|
            n - 1 <= j < p.len() && #[trigger] supersedes(p, config, j) == Some(i);
        lemma_superseding_move(p, config, i, j);
        if j > n - 1 {
            assert(is_idle(p, travel_axis(p[i].inner), n - 1));
            assert(lags(p, config, i, n));
            lemma_lagging(p, config, i, n);
        }
    }
    if !gone {
        if let Some(k) = lagging(p, config, n) {
            assert(lags(p, config, k, n));
            let j = choose|j: int|
                n <= j < p.len() && #[trigger] supersedes(p, config, j) == Some(k);
            if k < n - 1 {
                assert(lags(p, config, k, n - 1));
                lemma_lagging(p, config, k, n - 1);
                lemma_superseding_move(p, config, k, j);
                assert(is_idle(p, travel_axis(p[k].inner), n - 1));
            } else {
                assert(superseded_before(p, config, n - 1, p.len() as int));
            }
        }
    }
}

/// Nothing lags behind a command that is left, but for comments and unknown
/// lines, nor at the end.
proof fn lemma_nothing_lags<N: Scalar>(
    p: Seq<Spanned<Command<N>>>,
    config: OptConfig,
    n: int,
)
    requires
        0 <= n <= p.len(),
        n == p.len() || n > 0 && !is_removed(p, config, n - 1) && !is_transparent(p[n - 1].inner),
    ensures
        lagging(p, config, n) is None,
{
    if let Some(i) = lagging(p, config, n) {
        assert(lags(p, config, i, n));
        let j = choose|j: int| n <= j < p.len() && #[trigger] supersedes(p, config, j) == Some(i);
        lemma_superseding_move(p, config, i, j);
        if i < n - 1 {
            assert(is_idle(p, travel_axis(p[i].inner), n - 1));
        } else {
            assert(superseded_before(p, config, n - 1, p.len() as int));
        }
    }
}

proof fn lemma_place_is_kept_so_far<N: Scalar>(
    p: Seq<Spanned<Command<N>>>,
    config: OptConfig,
    n: int,
)
    requires
        0 <= n <= p.len(),
        forall|i: int| 0 <= i < n && #[trigger] rule_at(p, i) is Some ==> stays_put(p, i),
    ensures
        same_place_but(
            state_at(kept(p, config, n), kept(p, config, n).len() as int),
            state_at(p, n),
            lag_at(p, config, n),
        ),
    decreases n,
{
    if n > 0 {
        lemma_place_is_kept_so_far(p, config, n - 1);
        lemma_settings_are_kept(p, config, n - 1);
        lemma_only_feedrates_change(p, config, n - 1);
        lemma_lag_step(p, config, n);
        let before = kept(p, config, n - 1);
        let after = kept(p, config, n);
        let gone = superseded_before(p, config, n - 1, p.len() as int);
        if !has_relative(p) {
            lemma_always_absolute(p, n - 1);
        }
        if let Some(i) = supersedes(p, config, n - 1) {
            lemma_superseding_move(p, config, i, n - 1);
        }
        if !is_removed(p, config, n - 1) {
            lemma_state_of_prefix(after, before, before.len() as int);
            assert(after[before.len() as int].inner == effective(p, config, n - 1));
        } else if !gone {
            assert(rule_at(p, n - 1) is Some);
            assert(stays_put(p, n - 1));
        }
    }
}

/// The head and the extruder are led to the same places: after every command
/// that is left, but for comments and unknown lines, and at the end of the
/// program, they stand where the whole program has them, as long as the moves
/// that rules 1 to 4 remove leave them exactly where they are.
pub proof fn lemma_place_is_kept<N: Scalar>(
    p: Seq<Spanned<Command<N>>>,
    config: OptConfig,
    n: int,
)
    requires
        0 <= n <= p.len(),
        forall|i: int| 0 <= i < n && #[trigger] rule_at(p, i) is Some ==> stays_put(p, i),
        n == p.len() || n > 0 && !is_removed(p, config, n - 1) && !is_transparent(p[n - 1].inner),
    ensures
        same_place(
            state_at(kept(p, config, n), kept(p, config, n).len() as int),
            state_at(p, n),
        ),
{
    lemma_place_is_kept_so_far(p, config, n);
    lemma_nothing_lags(p, config, n);
}

/// Whether the feedrate of the commands that are left lags behind at command
/// `n`: a travel move that a move from `n` on supersedes has set it.
pub open spec fn feed_lags_at<N: Scalar>(
    p: Seq<Spanned<Command<N>>>,
    config: OptConfig,
    n: int,
) -> bool {
    lagging(p, config, n) matches Some(i) && axes_of(effective(p, config, i))->0.f is Some
}

/// Whether the feedrate that command `i` loses, if any, is exactly the one in force.
pub open spec fn loses_nothing<N: Scalar>(
    p: Seq<Spanned<Command<N>>>,
    config: OptConfig,
    i: int,
) -> bool {
    strip_at(p, config, i) matches Some(f) ==> state_at(p, i).feedrate == Some(f)
}

proof fn lemma_feedrate_is_kept_so_far<N: Scalar>(
    p: Seq<Spanned<Command<N>>>,
    config: OptConfig,
    n: int,
)
    requires
        0 <= n <= p.len(),
        forall|i: int| 0 <= i < n ==> #[trigger] loses_nothing(p, config, i),
    ensures
        feed_lags_at(p, config, n) || state_at(
            kept(p, config, n),
            kept(p, config, n).len() as int,
        ).feedrate == state_at(p, n).feedrate,
    decreases n,
{
    if n > 0 {
        lemma_feedrate_is_kept_so_far(p, config, n - 1);
        lemma_only_feedrates_change(p, config, n - 1);
        lemma_lag_step(p, config, n);
        assert(loses_nothing(p, config, n - 1));
        let before = kept(p, config, n - 1);
        let after = kept(p, config, n);
        if let Some(i) = supersedes(p, config, n - 1) {
            lemma_superseding_move(p, config, i, n - 1);
        }
        if !is_removed(p, config, n - 1) {
            lemma_state_of_prefix(after, before, before.len() as int);
            assert(after[before.len() as int].inner == effective(p, config, n - 1));
        }
    }
}

/// The feedrate is kept: after every command that is left, but for comments and
/// unknown lines, and at the end of the program, the feedrate in force is that of
/// the whole program, as long as the feedrates that rule 8 strips are exactly
/// those in force.
pub proof fn lemma_feedrate_is_kept<N: Scalar>(
    p: Seq<Spanned<Command<N>>>,
    config: OptConfig,
    n: int,
)
    requires
        0 <= n <= p.len(),
        forall|i: int| 0 <= i < n ==> #[trigger] loses_nothing(p, config, i),
        n == p.len() || n > 0 && !is_removed(p, config, n - 1) && !is_transparent(p[n - 1].inner),
    ensures
        state_at(kept(p, config, n), kept(p, config, n).len() as int).feedrate == state_at(
            p,
            n,
        ).feedrate,
{
    lemma_feedrate_is_kept_so_far(p, config, n);
    lemma_nothing_lags(p, config, n);
}

// ── What is reported ──────────────────────────────────────────────────────────

/// A dry run reports the changes of a real run.
pub proof fn lemma_dry_run_reports_the_same<N: Scalar>(
    p: Seq<Spanned<Command<N>>>,
    config: OptConfig,
    n: int,
)
    ensures
        changes_before(p, OptConfig { dry_run: true, ..config }, n) == changes_before(
            p,
            OptConfig { dry_run: false, ..config },
            n,
        ),
    decreases n,
{
    if n > 0 {
        let dry = OptConfig { dry_run: true, ..config };
        let wet = OptConfig { dry_run: false, ..config };
        lemma_dry_run_reports_the_same(p, config, n - 1);
        assert(strip_at(p, dry, n - 1) == strip_at(p, wet, n - 1));
        assert forall|i: int| effective(p, dry, i) == effective(p, wet, i) by {
            assert(strip_at(p, dry, i) == strip_at(p, wet, i));
        }
        assert(supersedes(p, dry, n - 1) == supersedes(p, wet, n - 1));
        assert(changes_at(p, dry, n - 1) == changes_at(p, wet, n - 1));
    }
}

/// Every command that is removed, and every command that loses its feedrate, is
/// reported at its line, and nothing else is.
pub proof fn lemma_every_change_is_reported<N: Scalar>(
    p: Seq<Spanned<Command<N>>>,
    config: OptConfig,
    n: int,
)
    requires
        0 <= n <= p.len(),
    ensures
        forall|i: int|
            0 <= i < n && (#[trigger] rule_at(p, i) is Some || strip_at(p, config, i) is Some
                || superseded_before(p, config, i, n)) ==> exists|k: int|
                0 <= k < changes_before(p, config, n).len() && (#[trigger] changes_before(
                    p,
                    config,
                    n,
                )[k]).line == p[i].line,
        forall|k: int|
            0 <= k < changes_before(p, config, n).len() ==> exists|i: int|
                0 <= i < n && (#[trigger] changes_before(p, config, n)[k]).line == (
                #[trigger] p[i]).line && (rule_at(p, i) is Some || strip_at(p, config, i) is Some
                    || superseded_before(p, config, i, n)),
    decreases n,
{
    if n > 0 {
        lemma_every_change_is_reported(p, config, n - 1);
        lemma_pending_travel(p, n - 1);
        let before = changes_before(p, config, n - 1);
        let here = changes_at(p, config, n - 1);
        let all = changes_before(p, config, n);
        assert(all =~= before + here);
        assert forall|i: int|
            0 <= i < n && (#[trigger] rule_at(p, i) is Some || strip_at(p, config, i) is Some
                || superseded_before(p, config, i, n)) implies exists|k: int|
            0 <= k < all.len() && (#[trigger] all[k]).line == p[i].line by {
            if i < n - 1 && (rule_at(p, i) is Some || strip_at(p, config, i) is Some
                || superseded_before(p, config, i, n - 1)) {
                let k = choose|k: int|
                    0 <= k < before.len() && (#[trigger] before[k]).line == p[i].line;
                assert(all[k] == before[k]);
            } else if i == n - 1 && (rule_at(p, i) is Some || strip_at(p, config, i) is Some) {
                assert(here[0].line == p[i].line);
                assert(all[before.len() as int] == here[0]);
            } else {
                let j = choose|j: int|
                    0 <= j < n && #[trigger] supersedes(p, config, j) == Some(i);
                lemma_pending_travel(p, j);
                if j < n - 1 {
                    assert(superseded_before(p, config, i, n - 1));
                } else {
                    assert(here.last().line == p[i].line);
                    assert(all[all.len() - 1] == here.last());
                }
            }
        }
        assert forall|k: int| 0 <= k < all.len() implies exists|i: int|
            0 <= i < n && (#[trigger] all[k]).line == (#[trigger] p[i]).line && (rule_at(p, i)
                is Some || strip_at(p, config, i) is Some || superseded_before(
                p,
                config,
                i,
                n,
            )) by {
            if k < before.len() {
                assert(all[k] == before[k]);
                let i = choose|i: int|
                    0 <= i < n - 1 && (#[trigger] before[k]).line == (#[trigger] p[i]).line && (
                    rule_at(p, i) is Some || strip_at(p, config, i) is Some || superseded_before(
                        p,
                        config,
                        i,
                        n - 1,
                    ));
                if superseded_before(p, config, i, n - 1) {
                    let j = choose|j: int|
                        0 <= j < n - 1 && #[trigger] supersedes(p, config, j) == Some(i);
                    assert(supersedes(p, config, j) == Some(i));
                }
                assert(all[k].line == p[i].line);
            } else {
                assert(all[k] == here[k - before.len()]);
                match supersedes(p, config, n - 1) {
                    Some(i) => {
                        if k == all.len() - 1 {
                            assert(superseded_before(p, config, i, n));
                            assert(all[k].line == p[i].line);
                        } else {
                            assert(all[k].line == p[n - 1].line);
                        }
                    },
                    None => {
                        assert(all[k].line == p[n - 1].line);
                    },
                }
            }
        }
    }
}

/// Whether the changes are in the order of their lines.
pub open spec fn is_sorted(changes: Seq<Change>) -> bool {
    forall|i: int, j: int|
        0 <= i < j < changes.len() ==> (#[trigger] changes[i]).line <= (#[trigger] changes[j]).line
}

proof fn lemma_slot_parts(sorted: Seq<Change>, line: u32)
    requires
        is_sorted(sorted),
    ensures
        0 <= slot(sorted, line) <= sorted.len(),
        forall|i: int| 0 <= i < slot(sorted, line) ==> (#[trigger] sorted[i]).line <= line,
        forall|i: int| slot(sorted, line) <= i < sorted.len() ==> (#[trigger] sorted[i]).line > line,
    decreases sorted.len(),
{
    lemma_slot_range(sorted, line);
    if sorted.len() > 0 {
        if sorted.last().line <= line {
            assert forall|i: int| 0 <= i < sorted.len() implies (#[trigger] sorted[i]).line
                <= line by {
                if i < sorted.len() - 1 {
                    assert(sorted[i].line <= sorted[sorted.len() - 1].line);
                }
            }
        } else {
            let rest = sorted.drop_last();
            assert forall|i: int, j: int| 0 <= i < j < rest.len() implies (#[trigger] rest[i]).line
                <= (#[trigger] rest[j]).line by {
                assert(rest[i] == sorted[i] && rest[j] == sorted[j]);
            }
            lemma_slot_parts(rest, line);
            assert forall|i: int| 0 <= i < slot(sorted, line) implies (#[trigger] sorted[i]).line
                <= line by {
                assert(rest[i] == sorted[i]);
            }
            assert forall|i: int| slot(sorted, line) <= i < sorted.len() implies (
            #[trigger] sorted[i]).line > line by {
                if i < rest.len() {
                    assert(rest[i] == sorted[i]);
                }
            }
        }
    }
}

/// Changes are reported in the order of their lines, none is lost and none is
/// made up.
pub proof fn lemma_changes_come_by_line(changes: Seq<Change>)
    ensures
        is_sorted(by_line(changes)),
        by_line(changes).len() == changes.len(),
        by_line(changes).to_multiset() == changes.to_multiset(),
    decreases changes.len(),
{
    broadcast use vstd::seq_lib::group_to_multiset_ensures;

    if changes.len() == 0 {
        assert(by_line(changes) =~= changes);
    } else {
        let rest = changes.drop_last();
        let last = changes.last();
        lemma_changes_come_by_line(rest);
        let sorted = by_line(rest);
        let at = slot(sorted, last.line);
        lemma_slot_parts(sorted, last.line);
        let out = by_line(changes);
        assert(out == sorted.insert(at, last));
        assert forall|i: int, j: int| 0 <= i < j < out.len() implies (#[trigger] out[i]).line <= (
        #[trigger] out[j]).line by {
            let a = if i < at {
                i
            } else {
                i - 1
            };
            let b = if j < at {
                j
            } else {
                j - 1
            };
            if i != at && j != at {
                assert(out[i] == sorted[a] && out[j] == sorted[b]);
            } else if i == at {
                assert(out[j] == sorted[b]);
            } else {
                assert(out[i] == sorted[a]);
            }
        }
        assert(changes =~= rest.push(last));
        assert(out.to_multiset() =~= changes.to_multiset());
    }
}

/// Of two changes of one line, the one that was found first comes first: the
/// changes of a line are reported in the order of discovery.
pub proof fn lemma_sorting_is_stable(changes: Seq<Change>, line: u32)
    ensures
        by_line(changes).filter(|c: Change| c.line == line) == changes.filter(
            |c: Change| c.line == line,
        ),
    decreases changes.len(),
{
    let of_line = |c: Change| c.line == line;
    reveal(Seq::filter);
    if changes.len() > 0 {
        let rest = changes.drop_last();
        let last = changes.last();
        lemma_sorting_is_stable(rest, line);
        lemma_changes_come_by_line(rest);
        let sorted = by_line(rest);
        let at = slot(sorted, last.line);
        lemma_slot_parts(sorted, last.line);
        let low = sorted.take(at);
        let high = sorted.skip(at);
        assert(sorted =~= low + high);
        assert(by_line(changes) =~= (low + seq![last]) + high);
        Seq::filter_distributes_over_add(low, high, of_line);
        Seq::filter_distributes_over_add(low + seq![last], high, of_line);
        Seq::filter_distributes_over_add(low, seq![last], of_line);
        assert(seq![last].drop_last() =~= Seq::<Change>::empty());
        if last.line == line {
            assert(high.filter(of_line).len() == 0) by {
                assert forall|i: int| 0 <= i < high.len() implies !of_line(#[trigger] high[i]) by {
                    assert(high[i] == sorted[at + i]);
                }
                high.lemma_all_neg_filter_empty(of_line);
            }
            assert(seq![last].filter(of_line) =~= seq![last]);
            assert(by_line(changes).filter(of_line) =~= sorted.filter(of_line).push(last));
        } else {
            let single = seq![last];
            assert(single.filter(of_line).len() == 0) by {
                assert forall|i: int| 0 <= i < single.len() implies !of_line(
                    #[trigger] single[i],
                ) by {}
                single.lemma_all_neg_filter_empty(of_line);
            }
            assert(by_line(changes).filter(of_line) =~= sorted.filter(of_line));
        }
    } else {
        assert(by_line(changes) =~= changes);
    }
}

// ── Convergence ───────────────────────────────────────────────────────────────

/// The number of commands, and of feedrates in G0 and G1, among the first `n`.
pub open spec fn weight<N>(p: Seq<Spanned<Command<N>>>, n: int) -> nat
    decreases n,
{
    if n <= 0 {
        0
    } else {
        weight(p, n - 1) + 1 + (if is_straight(p[n - 1].inner) && axes_of(p[n - 1].inner)->0.f
            is Some {
            1nat
        } else {
            0nat
        })
    }
}

proof fn lemma_weight_of_prefix<N>(
    a: Seq<Spanned<Command<N>>>,
    b: Seq<Spanned<Command<N>>>,
    n: int,
)
    requires
        0 <= n <= a.len(),
        n <= b.len(),
        forall|i: int| 0 <= i < n ==> a[i] == b[i],
    ensures
        weight(a, n) == weight(b, n),
    decreases n,
{
    if n > 0 {
        lemma_weight_of_prefix(a, b, n - 1);
    }
}

/// The number of the first `n` commands that are removed or lose their feedrate.
pub open spec fn changed<N: Scalar>(
    p: Seq<Spanned<Command<N>>>,
    config: OptConfig,
    n: int,
) -> nat
    decreases n,
{
    if n <= 0 {
        0
    } else if is_removed(p, config, n - 1) || strip_at(p, config, n - 1) is Some {
        changed(p, config, n - 1) + 1
    } else {
        changed(p, config, n - 1)
    }
}

proof fn lemma_changes_lighten<N: Scalar>(
    p: Seq<Spanned<Command<N>>>,
    config: OptConfig,
    n: int,
)
    requires
        0 <= n <= p.len(),
    ensures
        weight(kept(p, config, n), kept(p, config, n).len() as int) + changed(p, config, n)
            <= weight(p, n),
    decreases n,
{
    if n > 0 {
        lemma_changes_lighten(p, config, n - 1);
        let before = kept(p, config, n - 1);
        let after = kept(p, config, n);
        if !is_removed(p, config, n - 1) {
            lemma_weight_of_prefix(after, before, before.len() as int);
            assert(after[before.len() as int].inner == effective(p, config, n - 1));
        }
    }
}

proof fn lemma_changed_counts<N: Scalar>(
    p: Seq<Spanned<Command<N>>>,
    config: OptConfig,
    i: int,
    n: int,
)
    requires
        0 <= i < n,
        is_removed(p, config, i) || strip_at(p, config, i) is Some,
    ensures
        changed(p, config, n) >= 1,
    decreases n,
{
    if i < n - 1 {
        lemma_changed_counts(p, config, i, n - 1);
    }
}

/// Optimization converges: every pass that reports a change leaves fewer
/// commands and feedrates than there were, so that passes that report changes
/// cannot go on for ever.
pub proof fn lemma_optimization_converges<N: Scalar>(
    p: Seq<Spanned<Command<N>>>,
    config: OptConfig,
)
    ensures
        weight(
            kept(p, config, p.len() as int),
            kept(p, config, p.len() as int).len() as int,
        ) <= weight(p, p.len() as int),
        changes_before(p, config, p.len() as int).len() > 0 ==> weight(
            kept(p, config, p.len() as int),
            kept(p, config, p.len() as int).len() as int,
        ) < weight(p, p.len() as int),
{
    let n = p.len() as int;
    lemma_changes_lighten(p, config, n);
    if changes_before(p, config, n).len() > 0 {
        lemma_every_change_is_reported(p, config, n);
        let first = changes_before(p, config, n)[0];
        let i = choose|i: int|
            0 <= i < n && changes_before(p, config, n)[0].line == (#[trigger] p[i]).line && (rule_at(
                p,
                i,
            ) is Some || strip_at(p, config, i) is Some || superseded_before(p, config, i, n));
        assert(is_removed(p, config, i) || strip_at(p, config, i) is Some);
        lemma_changed_counts(p, config, i, n);
    }
}

/// The program after `k` passes of optimization.
pub open spec fn passes<N: Scalar>(
    p: Seq<Spanned<Command<N>>>,
    config: OptConfig,
    k: nat,
) -> Seq<Spanned<Command<N>>>
    decreases k,
{
    if k == 0 {
        p
    } else {
        let q = passes(p, config, (k - 1) as nat);
        kept(q, config, q.len() as int)
    }
}

/// Whether a pass over a program reports nothing.
pub open spec fn is_settled<N: Scalar>(p: Seq<Spanned<Command<N>>>, config: OptConfig) -> bool {
    changes_before(p, config, p.len() as int).len() == 0
}

proof fn lemma_passes_lighten<N: Scalar>(
    p: Seq<Spanned<Command<N>>>,
    config: OptConfig,
    k: nat,
)
    requires
        forall|j: nat| j < k ==> !is_settled(#[trigger] passes(p, config, j), config),
    ensures
        weight(passes(p, config, k), passes(p, config, k).len() as int) + k <= weight(
            p,
            p.len() as int,
        ),
    decreases k,
{
    if k > 0 {
        let before = (k - 1) as nat;
        lemma_passes_lighten(p, config, before);
        assert(!is_settled(passes(p, config, before), config));
        lemma_optimization_converges(passes(p, config, before), config);
    }
}

/// Optimizing again and again comes to an end: after at most as many passes as the
/// program has commands and feedrates, a pass reports nothing.
pub proof fn lemma_passes_come_to_an_end<N: Scalar>(
    p: Seq<Spanned<Command<N>>>,
    config: OptConfig,
)
    ensures
        exists|k: nat|
            k <= weight(p, p.len() as int) && is_settled(#[trigger] passes(p, config, k), config),
{
    let most = weight(p, p.len() as int);
    if forall|k: nat| k <= most ==> !is_settled(#[trigger] passes(p, config, k), config) {
        lemma_passes_lighten(p, config, most + 1);
    }
}

/// Where nothing is reported, nothing is changed.
pub proof fn lemma_no_change_no_effect<N: Scalar>(
    p: Seq<Spanned<Command<N>>>,
    config: OptConfig,
    n: int,
)
    requires
        0 <= n <= p.len(),
        changes_before(p, config, p.len() as int).len() == 0,
    ensures
        kept(p, config, n) == p.take(n),
    decreases n,
{
    if n > 0 {
        lemma_no_change_no_effect(p, config, n - 1);
        lemma_every_change_is_reported(p, config, p.len() as int);
        let i = n - 1;
        assert(!(rule_at(p, i) is Some || strip_at(p, config, i) is Some || superseded_before(
            p,
            config,
            i,
            p.len() as int,
        )));
        assert(p.take(n) =~= p.take(n - 1).push(p[n - 1]));
    } else {
        assert(kept(p, config, n) =~= p.take(n));
    }
}

} // verus!
