//! When each rule of the optimizer applies, told from the commands of the program alone.

use vstd::prelude::*;

use crate::fixed::Fixed;
use crate::models::{Command, Spanned};
use crate::motion::words_of_move;
use crate::optimizer::{
    close, effective, has_relative, is_idle, is_removed, is_straight, lemma_pending_travel,
    pending_travel, rule_at, state_at, strip_at, superseded_before, supersedes, tolerance,
    travel_axis, travel_of, OptConfig, Setting, SingleAxis, Tracker,
};
use crate::scalar::{same_option_spec, Scalar};

verus! {

// ── Repeated commands ─────────────────────────────────────────────────────────

/// Which setting a command is about.
#[derive(PartialEq, Eq, Structural)]
pub enum Family {
    /// The fan: M106 and M107.
    Fan,
    /// The hotend: M104 and M109.
    Hotend,
    /// The bed: M140 and M190.
    Bed,
    /// The positioning mode: G90 and G91.
    Mode,
}

/// The setting that a command is about, if it is about one.
pub open spec fn family_of<N>(command: Command<N>) -> Option<Family> {
    match command {
        Command::SetAbsolute => Some(Family::Mode),
        Command::SetRelative => Some(Family::Mode),
        Command::MetaCommand { code, .. } => if code == 106 || code == 107 {
            Some(Family::Fan)
        } else if code == 104 || code == 109 {
            Some(Family::Hotend)
        } else if code == 140 || code == 190 {
            Some(Family::Bed)
        } else {
            None
        },
        _ => None,
    }
}

/// Whether command `m` is the last before `n` that is about the given setting.
pub open spec fn is_last_of<N>(
    p: Seq<Spanned<Command<N>>>,
    family: Family,
    m: int,
    n: int,
) -> bool {
    &&& 0 <= m < n
    &&& family_of(p[m].inner) == Some(family)
    &&& forall|k: int| m < k < n ==> family_of((#[trigger] p[k]).inner) != Some(family)
}

/// Whether command `n` repeats the last command before it that is about the same
/// setting, letter by letter.
pub open spec fn repeats<N>(p: Seq<Spanned<Command<N>>>, n: int) -> bool {
    exists|m: int|
        #[trigger] is_last_of(p, family_of(p[n].inner)->0, m, n) && p[m].inner == p[n].inner
}

/// The setting that a tracker has for a family of M-codes.
spec fn held<N>(t: Tracker<N>, family: Family) -> Option<Setting> {
    match family {
        Family::Fan => t.fan,
        Family::Hotend => t.hotend,
        Family::Bed => t.bed,
        Family::Mode => None,
    }
}

/// The tracker has what the last command about a setting has set.
proof fn lemma_last_setting<N: Scalar>(p: Seq<Spanned<Command<N>>>, family: Family, n: int)
    requires
        0 <= n <= p.len(),
        family != Family::Mode,
    ensures
        match held(state_at(p, n), family) {
            Some(setting) => exists|m: int| #[trigger]
                is_last_of(p, family, m, n) && p[m].inner == (Command::<N>::MetaCommand {
                    code: setting.code,
                    params: setting.params,
                }),
            None => forall|k: int|
                0 <= k < n ==> family_of((#[trigger] p[k]).inner) != Some(family),
        },
    decreases n,
{
    if n > 0 {
        lemma_last_setting(p, family, n - 1);
        let c = p[n - 1].inner;
        let before = held(state_at(p, n - 1), family);
        let after = held(state_at(p, n), family);
        if family_of(c) == Some(family) {
            assert(is_last_of(p, family, n - 1, n));
        } else {
            assert(after == before);
            if let Some(setting) = before {
                let m = choose|m: int| #[trigger]
                    is_last_of(p, family, m, n - 1) && p[m].inner == (Command::<N>::MetaCommand {
                        code: setting.code,
                        params: setting.params,
                    });
                assert(is_last_of(p, family, m, n));
            }
        }
    }
}

proof fn lemma_last_mode<N: Scalar>(p: Seq<Spanned<Command<N>>>, n: int)
    requires
        0 <= n <= p.len(),
    ensures
        match state_at(p, n).last_mode {
            Some(absolute) => exists|m: int| #[trigger]
                is_last_of(p, Family::Mode, m, n) && (p[m].inner is SetAbsolute) == absolute,
            None => forall|k: int|
                0 <= k < n ==> family_of((#[trigger] p[k]).inner) != Some(Family::Mode),
        },
    decreases n,
{
    if n > 0 {
        lemma_last_mode(p, n - 1);
        let c = p[n - 1].inner;
        if family_of(c) == Some(Family::Mode) {
            assert(is_last_of(p, Family::Mode, n - 1, n));
        } else if let Some(absolute) = state_at(p, n - 1).last_mode {
            let m = choose|m: int| #[trigger]
                is_last_of(p, Family::Mode, m, n - 1) && (p[m].inner is SetAbsolute) == absolute;
            assert(is_last_of(p, Family::Mode, m, n));
        }
    }
}

proof fn lemma_one_last<N>(
    p: Seq<Spanned<Command<N>>>,
    family: Family,
    a: int,
    b: int,
    n: int,
)
    requires
        is_last_of(p, family, a, n),
        is_last_of(p, family, b, n),
    ensures
        a == b,
{
    if a < b {
        assert(family_of(p[b].inner) != Some(family));
    } else if b < a {
        assert(family_of(p[a].inner) != Some(family));
    }
}

/// A mode switch, a fan command or a temperature command is redundant exactly if it
/// repeats the last command about the same setting, letter by letter.
pub proof fn lemma_repetitions_are_redundant<N: Scalar>(
    p: Seq<Spanned<Command<N>>>,
    config: OptConfig,
    n: int,
)
    requires
        0 <= n < p.len(),
        family_of(p[n].inner) is Some,
    ensures
        rule_at(p, n) is Some <==> repeats(p, n),
        is_removed(p, config, n) <==> repeats(p, n),
{
    let family = family_of(p[n].inner)->0;
    if family == Family::Mode {
        lemma_last_mode(p, n);
        if let Some(absolute) = state_at(p, n).last_mode {
            let m = choose|m: int| #[trigger]
                is_last_of(p, Family::Mode, m, n) && (p[m].inner is SetAbsolute) == absolute;
            if repeats(p, n) {
                let k = choose|k: int| #[trigger]
                    is_last_of(p, family, k, n) && p[k].inner == p[n].inner;
                lemma_one_last(p, family, m, k, n);
            }
        }
    } else {
        lemma_last_setting(p, family, n);
        if let Some(setting) = held(state_at(p, n), family) {
            let m = choose|m: int| #[trigger]
                is_last_of(p, family, m, n) && p[m].inner == (Command::<N>::MetaCommand {
                    code: setting.code,
                    params: setting.params,
                });
            if repeats(p, n) {
                let k = choose|k: int| #[trigger]
                    is_last_of(p, family, k, n) && p[k].inner == p[n].inner;
                lemma_one_last(p, family, m, k, n);
            }
        }
    }
    if superseded_before(p, config, n, p.len() as int) {
        let j = choose|j: int|
            0 <= j < p.len() && #[trigger] supersedes(p, config, j) == Some(n);
        lemma_pending_travel(p, j);
    }
}

// ── Moves that lead nowhere ───────────────────────────────────────────────────

/// Whether a word is absent, or less than 0.0001 mm from the position.
pub open spec fn is_there(word: Option<Fixed>, position: Fixed) -> bool {
    word matches Some(v) ==> -100 < v.millionths - position.millionths < 100
}

proof fn lemma_tolerance()
    ensures
        tolerance::<Fixed>().millionths == 100,
{
    assert(Fixed::of_spec(1).millionths == 1_000_000);
    assert(Fixed::of_spec(10_000).millionths == 10_000_000_000);
    assert(1_000_000nat * 1_000_000 / 10_000_000_000 == 100);
}

proof fn lemma_close(a: Fixed, b: Fixed)
    ensures
        close(a, b) == (-100 < a.millionths - b.millionths < 100),
{
    lemma_tolerance();
}

/// A G0 or G1 is redundant exactly if it has no word at all, or if it sets no feedrate
/// and, in absolute positioning, leads every axis that it names to within 0.0001 mm of
/// where it is.
pub proof fn lemma_moves_that_lead_nowhere_are_redundant(
    p: Seq<Spanned<Command<Fixed>>>,
    n: int,
)
    requires
        0 <= n < p.len(),
        p[n].inner is RapidMove || p[n].inner is LinearMove,
    ensures
        ({
            let s = state_at(p, n);
            let w = words_of_move(p[n].inner)->0;
            let is_bare = w.x is None && w.y is None && w.z is None && w.e is None && w.f is None;
            rule_at(p, n) is Some <==> is_bare || (s.is_absolute && w.f is None && is_there(
                w.x,
                s.x,
            ) && is_there(w.y, s.y) && is_there(w.z, s.z) && is_there(w.e, s.e))
        }),
{
    let s = state_at(p, n);
    let w = words_of_move(p[n].inner)->0;
    if let Some(v) = w.x {
        lemma_close(v, s.x);
    }
    if let Some(v) = w.y {
        lemma_close(v, s.y);
    }
    if let Some(v) = w.z {
        lemma_close(v, s.z);
    }
    if let Some(v) = w.e {
        lemma_close(v, s.e);
    }
}

/// Arcs are never redundant, and neither are G92, comments, unknown lines and other
/// G-codes.
pub proof fn lemma_other_commands_are_not_redundant<N: Scalar>(
    p: Seq<Spanned<Command<N>>>,
    n: int,
)
    requires
        0 <= n < p.len(),
        family_of(p[n].inner) is None,
        !(p[n].inner is RapidMove),
        !(p[n].inner is LinearMove),
    ensures
        rule_at(p, n) is None,
{
}

// ── Feedrates that are in force ───────────────────────────────────────────────

/// Whether command `m` is the last move before `n` that names a feedrate.
pub open spec fn is_last_pace<N>(p: Seq<Spanned<Command<N>>>, m: int, n: int) -> bool {
    &&& 0 <= m < n
    &&& words_of_move(p[m].inner) matches Some(w) && w.f is Some
    &&& forall|k: int|
        m < k < n ==> (words_of_move((#[trigger] p[k]).inner) matches Some(w) ==> w.f is None)
}

/// The feedrate in force is the one that was named last.
proof fn lemma_last_pace<N: Scalar>(p: Seq<Spanned<Command<N>>>, n: int)
    requires
        0 <= n <= p.len(),
    ensures
        match state_at(p, n).feedrate {
            Some(f) => exists|m: int| #[trigger]
                is_last_pace(p, m, n) && (words_of_move(p[m].inner)->0).f == Some(f),
            None => forall|k: int|
                0 <= k < n ==> (words_of_move((#[trigger] p[k]).inner) matches Some(w) ==> w.f
                    is None),
        },
    decreases n,
{
    if n > 0 {
        lemma_last_pace(p, n - 1);
        let named = words_of_move(p[n - 1].inner) matches Some(w) && w.f is Some;
        if named {
            assert(is_last_pace(p, n - 1, n));
        } else {
            assert(state_at(p, n).feedrate == state_at(p, n - 1).feedrate);
            if let Some(f) = state_at(p, n - 1).feedrate {
                let m = choose|m: int| #[trigger]
                    is_last_pace(p, m, n - 1) && (words_of_move(p[m].inner)->0).f == Some(f);
                assert(is_last_pace(p, m, n));
            }
        }
    }
}

/// Whether a G0 or G1 at `n` names a feedrate that is less than 0.0001 mm/min from the
/// one that the last move before it has named.
pub open spec fn repeats_the_pace(p: Seq<Spanned<Command<Fixed>>>, n: int) -> bool {
    &&& p[n].inner is RapidMove || p[n].inner is LinearMove
    &&& (words_of_move(p[n].inner)->0).f is Some
    &&& exists|m: int| #[trigger]
        is_last_pace(p, m, n) && -100 < ((words_of_move(p[n].inner)->0).f->0).millionths - ((
        words_of_move(p[m].inner)->0).f->0).millionths < 100
}

/// A feedrate is stripped exactly where it repeats the one in force, unless stripping is
/// switched off or the move is redundant anyway; then the move loses it, and nothing
/// else.
pub proof fn lemma_repeated_feedrates_are_stripped(
    p: Seq<Spanned<Command<Fixed>>>,
    config: OptConfig,
    n: int,
)
    requires
        0 <= n < p.len(),
    ensures
        strip_at(p, config, n) is Some <==> !config.no_feedrate_strip && rule_at(p, n) is None
            && repeats_the_pace(p, n),
        effective(p, config, n) == (if strip_at(p, config, n) is Some {
            match p[n].inner {
                Command::RapidMove { x, y, z, f: _ } => Command::RapidMove { x, y, z, f: None },
                Command::LinearMove { x, y, z, e, f: _ } => Command::LinearMove {
                    x,
                    y,
                    z,
                    e,
                    f: None,
                },
                other => other,
            }
        } else {
            p[n].inner
        }),
{
    lemma_last_pace(p, n);
    if let Some(f) = state_at(p, n).feedrate {
        let m = choose|m: int| #[trigger]
            is_last_pace(p, m, n) && (words_of_move(p[m].inner)->0).f == Some(f);
        if is_straight(p[n].inner) {
            if let Some(own) = (words_of_move(p[n].inner)->0).f {
                lemma_close(own, f);
            }
        }
        if repeats_the_pace(p, n) {
            let k = choose|k: int| #[trigger]
                is_last_pace(p, k, n) && -100 < ((words_of_move(p[n].inner)->0).f->0).millionths
                    - ((words_of_move(p[k].inner)->0).f->0).millionths < 100;
            if k < m {
                assert(words_of_move(p[m].inner) matches Some(w) ==> w.f is None);
            } else if m < k {
                assert(words_of_move(p[k].inner) matches Some(w) ==> w.f is None);
            }
        }
    } else if repeats_the_pace(p, n) {
        let k = choose|k: int| #[trigger]
            is_last_pace(p, k, n) && -100 < ((words_of_move(p[n].inner)->0).f->0).millionths - ((
            words_of_move(p[k].inner)->0).f->0).millionths < 100;
        assert(words_of_move(p[k].inner) matches Some(w) ==> w.f is None);
    }
}

// ── Superseded travel ─────────────────────────────────────────────────────────

/// Whether a command is a G0 or G1 that names X alone, Y alone or Z alone of the axes,
/// and does not name the extruder: 0 for X, 1 for Y, 2 for Z.
pub open spec fn names_only<N>(command: Command<N>, axis: int) -> bool {
    &&& command is RapidMove || command is LinearMove
    &&& words_of_move(command) matches Some(w) && w.e is None && (w.x is Some) == (axis == 0) && (
    w.y is Some) == (axis == 1) && (w.z is Some) == (axis == 2) && 0 <= axis <= 2
}

/// The feedrate that is left of that of command `i`.
pub open spec fn pace_left<N: Scalar>(
    p: Seq<Spanned<Command<N>>>,
    config: OptConfig,
    i: int,
) -> Option<N> {
    if strip_at(p, config, i) is Some {
        None
    } else {
        (words_of_move(p[i].inner)->0).f
    }
}

proof fn lemma_axis<N>(command: Command<N>)
    ensures
        travel_axis(command) == Some(SingleAxis::X) <==> names_only(command, 0),
        travel_axis(command) == Some(SingleAxis::Y) <==> names_only(command, 1),
        travel_axis(command) == Some(SingleAxis::Z) <==> names_only(command, 2),
{
}

spec fn number_of_axis(axis: SingleAxis) -> int {
    match axis {
        SingleAxis::X => 0,
        SingleAxis::Y => 1,
        SingleAxis::Z => 2,
    }
}

/// Travel is superseded only by travel on the same axis: a command that no rule finds
/// redundant is removed only in a program without relative positioning, where it names
/// one axis alone and does not extrude, and a later move does the same on that axis, at
/// the same feedrate.  Between the two stand only comments, unknown lines, and
/// redundant moves on that axis.
pub proof fn lemma_travel_is_superseded_on_its_axis<N: Scalar>(
    p: Seq<Spanned<Command<N>>>,
    config: OptConfig,
    i: int,
) -> (j: int)
    requires
        0 <= i < p.len(),
        is_removed(p, config, i),
        rule_at(p, i) is None,
    ensures
        i < j < p.len(),
        !config.no_travel_merge,
        forall|k: int| 0 <= k < p.len() ==> !((#[trigger] p[k]).inner is SetRelative),
        exists|axis: int|
            names_only(p[i].inner, axis) && #[trigger] names_only(p[j].inner, axis) && forall|
                k: int,
            |
                i < k < j ==> (#[trigger] p[k]).inner is Comment || p[k].inner is Unknown || (
                rule_at(p, k) is Some && names_only(p[k].inner, axis)),
        rule_at(p, j) is None,
        same_option_spec(pace_left(p, config, i), pace_left(p, config, j)),
{
    let j = choose|j: int|
        0 <= j < p.len() && #[trigger] supersedes(p, config, j) == Some(i);
    lemma_pending_travel(p, j);
    let axis = number_of_axis(travel_axis(p[i].inner)->0);
    lemma_axis(p[i].inner);
    lemma_axis(p[j].inner);
    assert(travel_axis(effective(p, config, i)) == travel_axis(p[i].inner));
    assert(travel_axis(effective(p, config, j)) == travel_axis(p[j].inner));
    assert(names_only(p[j].inner, axis));
    assert forall|k: int| i < k < j implies (#[trigger] p[k]).inner is Comment || p[k].inner
        is Unknown || (rule_at(p, k) is Some && names_only(p[k].inner, axis)) by {
        assert(is_idle(p, travel_axis(p[i].inner), k));
        lemma_axis(p[k].inner);
    }
    assert forall|k: int| 0 <= k < p.len() implies !((#[trigger] p[k]).inner is SetRelative) by {
        assert(!has_relative(p));
    }
    j
}

/// Of two travel moves on one axis, neither redundant, with nothing but comments and
/// unknown lines between them and with the same feedrate left, the first is removed,
/// unless merging is switched off or positioning is relative anywhere.
pub proof fn lemma_travel_in_a_row_is_superseded<N: Scalar>(
    p: Seq<Spanned<Command<N>>>,
    config: OptConfig,
    axis: int,
    i: int,
    j: int,
)
    requires
        0 <= i < j < p.len(),
        !config.no_travel_merge,
        forall|k: int| 0 <= k < p.len() ==> !((#[trigger] p[k]).inner is SetRelative),
        names_only(p[i].inner, axis),
        names_only(p[j].inner, axis),
        forall|k: int| i < k < j ==> (#[trigger] p[k]).inner is Comment || p[k].inner is Unknown,
        rule_at(p, i) is None,
        rule_at(p, j) is None,
        same_option_spec(pace_left(p, config, i), pace_left(p, config, j)),
    ensures
        is_removed(p, config, i),
{
    lemma_axis(p[i].inner);
    lemma_axis(p[j].inner);
    lemma_pending(p, i, j);
    assert(!has_relative(p));
    assert(travel_of(effective(p, config, i)) == Some(
        (travel_axis(p[i].inner)->0, pace_left(p, config, i)),
    ));
    assert(travel_of(effective(p, config, j)) == Some(
        (travel_axis(p[j].inner)->0, pace_left(p, config, j)),
    ));
    assert(supersedes(p, config, j) == Some(i));
}

proof fn lemma_pending<N: Scalar>(p: Seq<Spanned<Command<N>>>, i: int, n: int)
    requires
        0 <= i < n,
        travel_axis(p[i].inner) is Some,
        rule_at(p, i) is None,
        forall|k: int| i < k < n ==> (#[trigger] p[k]).inner is Comment || p[k].inner is Unknown,
    ensures
        pending_travel(p, n) == Some(i),
    decreases n,
{
    if n > i + 1 {
        lemma_pending(p, i, n - 1);
        assert(p[n - 1].inner is Comment || p[n - 1].inner is Unknown);
    }
}

} // verus!
