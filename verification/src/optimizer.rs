//! Conservative G-code optimizer.
//!
//! [`optimize`] removes commands that have no effect and feedrates that are
//! already in force.  It reorders nothing.
//!
//! | Rule | What is removed |
//! |------|-----------------|
//! | 1 | G0/G1 without any parameter |
//! | 2 | G90 after G90, G91 after G91 |
//! | 3 | M106/M107 that repeats the last fan command |
//! | 4 | absolute move to the current position without a feedrate |
//! | 5 | M104/M109 or M140/M190 that repeats the last hotend or bed command |
//! | 7 | single-axis travel that the next move on that axis supersedes |
//! | 8 | the `F` of a move whose feedrate is already in force |
//!
//! Collinear merging (rule 6) is the pre-pass [`merge_collinear`]; progress
//! markers are the post-pass [`insert_progress_markers`].

pub mod collinear;
pub mod laws;
pub mod progress;
pub mod rules;
pub mod straight;

use vstd::prelude::*;

use crate::diagnostics::{change_log, push_change, Change, OptimizationChange};
use crate::models::{cow_text, program, Command, GCodeCommand, Point3D, Spanned};
use crate::scalar::{
    or_default, ratio, ratio_spec, same_option, same_option_spec, value_or, zero, zero_spec, Scalar,
};
use crate::text::{owned, push_text, same_text};

pub use crate::optimizer::collinear::merge_collinear;
pub use crate::optimizer::progress::{insert_progress_markers, ProgressInsertionResult};

verus! {

// ── Configuration and result ──────────────────────────────────────────────────

/// What the passes are to do.
#[derive(Debug, Clone, Copy, PartialEq, Eq, Structural)]
pub struct OptConfig {
    /// Report all changes, but leave the commands as they are.
    pub dry_run: bool,
    /// Merge runs of collinear linear moves.
    pub merge_collinear: bool,
    /// Replace the progress markers (M73) by recalculated ones at layer boundaries.
    pub insert_progress: bool,
    /// Keep superseded travel moves (no rule 7).
    pub no_travel_merge: bool,
    /// Keep feedrates that are already in force (no rule 8).
    pub no_feedrate_strip: bool,
    /// Keep existing progress markers, and insert only where there is none.
    pub trust_existing_m73: bool,
}

impl Default for OptConfig {
    fn default() -> (result: Self)
        ensures
            result == (OptConfig {
                dry_run: false,
                merge_collinear: false,
                insert_progress: false,
                no_travel_merge: false,
                no_feedrate_strip: false,
                trust_existing_m73: false,
            }),
    {
        OptConfig {
            dry_run: false,
            merge_collinear: false,
            insert_progress: false,
            no_travel_merge: false,
            no_feedrate_strip: false,
            trust_existing_m73: false,
        }
    }
}

/// The result of a pass.
#[derive(Debug)]
pub struct OptimizationResult<'a, N> {
    /// The commands, changed or, in a dry run, as they were.
    pub commands: Vec<Spanned<GCodeCommand<'a, N>>>,
    /// All changes made, or that would be made in a dry run.
    pub changes: Vec<OptimizationChange>,
}

// ── The state of the machine ──────────────────────────────────────────────────

/// A fan or temperature command: its code and its parameters.
#[verifier::ext_equal]
pub struct Setting {
    pub code: u16,
    pub params: Seq<char>,
}

/// What the commands so far have set.
#[verifier::ext_equal]
pub struct Tracker<N> {
    /// Position of the head, in absolute coordinates.
    pub x: N,
    pub y: N,
    pub z: N,
    /// Position of the extruder.
    pub e: N,
    /// Whether positioning is absolute.
    pub is_absolute: bool,
    /// Whether the last G90 or G91 was a G90, if there was one.
    pub last_mode: Option<bool>,
    /// The last M106 or M107.
    pub fan: Option<Setting>,
    /// The last M104 or M109.
    pub hotend: Option<Setting>,
    /// The last M140 or M190.
    pub bed: Option<Setting>,
    /// The feedrate in force.
    pub feedrate: Option<N>,
}

/// The axes and the feedrate of a move.
pub struct MoveAxes<N> {
    pub x: Option<N>,
    pub y: Option<N>,
    pub z: Option<N>,
    pub e: Option<N>,
    pub f: Option<N>,
}

impl<N: Copy> Copy for MoveAxes<N> {

}

impl<N: Copy> Clone for MoveAxes<N> {
    fn clone(&self) -> (result: Self)
        ensures
            result == *self,
    {
        *self
    }
}

/// The axes and the feedrate of a command, where it is a linear or an arc move.
pub open spec fn axes_of<N>(command: Command<N>) -> Option<MoveAxes<N>> {
    match command {
        Command::RapidMove { x, y, z, f } => Some(MoveAxes { x, y, z, e: None, f }),
        Command::LinearMove { x, y, z, e, f } => Some(MoveAxes { x, y, z, e, f }),
        Command::ArcMoveCW { x, y, z, e, f, .. } => Some(MoveAxes { x, y, z, e, f }),
        Command::ArcMoveCCW { x, y, z, e, f, .. } => Some(MoveAxes { x, y, z, e, f }),
        _ => None,
    }
}

/// What a G92 sets: the positions that it names, or zero for all axes where it names
/// none.
pub open spec fn set_axes<N: Scalar>(
    x: Option<N>,
    y: Option<N>,
    z: Option<N>,
    e: Option<N>,
) -> MoveAxes<N> {
    if x is None && y is None && z is None && e is None {
        MoveAxes {
            x: Some(zero_spec()),
            y: Some(zero_spec()),
            z: Some(zero_spec()),
            e: Some(zero_spec()),
            f: None,
        }
    } else {
        MoveAxes { x, y, z, e, f: None }
    }
}

/// What a G92 sets: the positions that it names, or zero for all axes where it names
/// none.
pub fn axes_set<N: Scalar>(
    x: Option<N>,
    y: Option<N>,
    z: Option<N>,
    e: Option<N>,
) -> (result: MoveAxes<N>)
    ensures
        result == set_axes(x, y, z, e),
{
    if x.is_none() && y.is_none() && z.is_none() && e.is_none() {
        MoveAxes {
            x: Some(zero()),
            y: Some(zero()),
            z: Some(zero()),
            e: Some(zero()),
            f: None,
        }
    } else {
        MoveAxes { x, y, z, e, f: None }
    }
}

/// Whether the command is G0 or G1.
pub open spec fn is_straight<N>(command: Command<N>) -> bool {
    command is RapidMove || command is LinearMove
}

/// Where a coordinate stands after a move.
pub open spec fn moved<N: Scalar>(current: N, target: Option<N>, absolute: bool) -> N {
    if absolute {
        value_or(target, current)
    } else {
        current.plus_spec(value_or(target, zero_spec()))
    }
}

pub open spec fn is_fan(code: u16) -> bool {
    code == 106 || code == 107
}

pub open spec fn is_hotend(code: u16) -> bool {
    code == 104 || code == 109
}

pub open spec fn is_bed(code: u16) -> bool {
    code == 140 || code == 190
}

impl<N: Scalar> Tracker<N> {
    /// The state before the first command: at the origin, in absolute mode.
    pub open spec fn start() -> Self {
        Tracker {
            x: zero_spec(),
            y: zero_spec(),
            z: zero_spec(),
            e: zero_spec(),
            is_absolute: true,
            last_mode: None,
            fan: None,
            hotend: None,
            bed: None,
            feedrate: None,
        }
    }

    /// The state after a command.
    pub open spec fn after(self, command: Command<N>) -> Self {
        match command {
            Command::SetAbsolute => Tracker { is_absolute: true, last_mode: Some(true), ..self },
            Command::SetRelative => Tracker { is_absolute: false, last_mode: Some(false), ..self },
            Command::SetPosition { x, y, z, e } => {
                let set = set_axes(x, y, z, e);
                Tracker {
                    x: value_or(set.x, self.x),
                    y: value_or(set.y, self.y),
                    z: value_or(set.z, self.z),
                    e: value_or(set.e, self.e),
                    ..self
                }
            },
            Command::MetaCommand { code, params } => {
                let setting = Some(Setting { code, params });
                if is_fan(code) {
                    Tracker { fan: setting, ..self }
                } else if is_hotend(code) {
                    Tracker { hotend: setting, ..self }
                } else if is_bed(code) {
                    Tracker { bed: setting, ..self }
                } else {
                    self
                }
            },
            _ => match axes_of(command) {
                Some(axes) => Tracker {
                    x: moved(self.x, axes.x, self.is_absolute),
                    y: moved(self.y, axes.y, self.is_absolute),
                    z: moved(self.z, axes.z, self.is_absolute),
                    e: moved(self.e, axes.e, self.is_absolute),
                    feedrate: if axes.f is Some {
                        axes.f
                    } else {
                        self.feedrate
                    },
                    ..self
                },
                None => self,
            },
        }
    }
}

/// Where the head is in a state.
pub open spec fn position<N>(state: Tracker<N>) -> Point3D<N> {
    Point3D { x: state.x, y: state.y, z: state.z }
}

/// The state before command `n` of the program.
pub open spec fn state_at<N: Scalar>(p: Seq<Spanned<Command<N>>>, n: int) -> Tracker<N>
    decreases n,
{
    if n <= 0 {
        Tracker::start()
    } else {
        state_at(p, n - 1).after(p[n - 1].inner)
    }
}

// ── The rules ─────────────────────────────────────────────────────────────────

/// Positions and feedrates closer than this are the same: 0.0001.
pub open spec fn tolerance<N: Scalar>() -> N {
    ratio_spec(1, 10_000)
}

/// Whether two numbers are the same up to the tolerance.
pub open spec fn close<N: Scalar>(a: N, b: N) -> bool {
    a.minus_spec(b).abs_spec().less_spec(tolerance())
}

/// Whether a coordinate is absent or stands at `current`.
pub open spec fn at_rest<N: Scalar>(target: Option<N>, current: N) -> bool {
    target matches Some(v) ==> close(v, current)
}

/// Whether a move has no parameter at all.
pub open spec fn is_empty_move<N>(axes: MoveAxes<N>) -> bool {
    axes.x is None && axes.y is None && axes.z is None && axes.e is None && axes.f is None
}

/// Whether a move is absolute, sets no feedrate, and leads to where the head is.
pub open spec fn is_zero_delta<N: Scalar>(axes: MoveAxes<N>, state: Tracker<N>) -> bool {
    state.is_absolute && axes.f is None && at_rest(axes.x, state.x) && at_rest(axes.y, state.y)
        && at_rest(axes.z, state.z) && at_rest(axes.e, state.e)
}

/// Why a command is redundant in the given state, if it is: rules 1 to 5.
pub open spec fn redundancy<N: Scalar>(command: Command<N>, state: Tracker<N>) -> Option<
    Seq<char>,
> {
    match command {
        Command::RapidMove { .. } | Command::LinearMove { .. } => {
            let axes = axes_of(command)->0;
            if is_empty_move(axes) {
                Some("empty move with no parameters"@)
            } else if is_zero_delta(axes, state) {
                Some("zero-delta move (no net displacement)"@)
            } else {
                None
            }
        },
        Command::SetAbsolute => if state.last_mode == Some(true) {
            Some("duplicate mode switch (G90/G91 already active)"@)
        } else {
            None
        },
        Command::SetRelative => if state.last_mode == Some(false) {
            Some("duplicate mode switch (G90/G91 already active)"@)
        } else {
            None
        },
        Command::MetaCommand { code, params } => {
            let setting = Some(Setting { code, params });
            if is_fan(code) && state.fan == setting {
                Some("duplicate fan command (same setting already active)"@)
            } else if (is_hotend(code) && state.hotend == setting) || (is_bed(code) && state.bed
                == setting) {
                Some("duplicate temperature command (already set)"@)
            } else {
                None
            }
        },
        _ => None,
    }
}

/// Why command `i` of the program is redundant by rules 1 to 5, if it is.
pub open spec fn rule_at<N: Scalar>(p: Seq<Spanned<Command<N>>>, i: int) -> Option<Seq<char>> {
    redundancy(p[i].inner, state_at(p, i))
}

/// The feedrate of a G0 or G1 that is already in force.
pub open spec fn modal_feed<N: Scalar>(command: Command<N>, state: Tracker<N>) -> Option<N> {
    if is_straight(command) {
        match (axes_of(command)->0.f, state.feedrate) {
            (Some(f), Some(modal)) => if close(f, modal) {
                Some(f)
            } else {
                None
            },
            _ => None,
        }
    } else {
        None
    }
}

/// The feedrate that rule 8 strips from command `i` of the program, if any.
pub open spec fn strip_at<N: Scalar>(
    p: Seq<Spanned<Command<N>>>,
    config: OptConfig,
    i: int,
) -> Option<N> {
    if config.no_feedrate_strip || rule_at(p, i) is Some {
        None
    } else {
        modal_feed(p[i].inner, state_at(p, i))
    }
}

/// A move without its feedrate.
pub open spec fn without_feed<N>(command: Command<N>) -> Command<N> {
    match command {
        Command::RapidMove { x, y, z, .. } => Command::RapidMove { x, y, z, f: None },
        Command::LinearMove { x, y, z, e, .. } => Command::LinearMove { x, y, z, e, f: None },
        _ => command,
    }
}

/// Command `i` of the program as rule 8 leaves it.
pub open spec fn effective<N: Scalar>(
    p: Seq<Spanned<Command<N>>>,
    config: OptConfig,
    i: int,
) -> Command<N> {
    if strip_at(p, config, i) is Some {
        without_feed(p[i].inner)
    } else {
        p[i].inner
    }
}

/// A single axis that a travel move sets.
#[derive(Clone, Copy, PartialEq, Eq, Structural)]
pub enum SingleAxis {
    X,
    Y,
    Z,
}

/// The axis and the feedrate of a G0 or G1 that sets one of X, Y and Z, and does not extrude.
pub open spec fn travel_of<N>(command: Command<N>) -> Option<(SingleAxis, Option<N>)> {
    if !is_straight(command) {
        None
    } else {
        let axes = axes_of(command)->0;
        if axes.e is Some {
            None
        } else if axes.x is Some && axes.y is None && axes.z is None {
            Some((SingleAxis::X, axes.f))
        } else if axes.x is None && axes.y is Some && axes.z is None {
            Some((SingleAxis::Y, axes.f))
        } else if axes.x is None && axes.y is None && axes.z is Some {
            Some((SingleAxis::Z, axes.f))
        } else {
            None
        }
    }
}

/// Whether two travel moves set the same axis with the same feedrate.
pub open spec fn same_travel<N: Scalar>(
    a: Option<(SingleAxis, Option<N>)>,
    b: Option<(SingleAxis, Option<N>)>,
) -> bool {
    match (a, b) {
        (Some((axis_a, f_a)), Some((axis_b, f_b))) => axis_a == axis_b && same_option_spec(
            f_a,
            f_b,
        ),
        _ => false,
    }
}

/// Whether a command stands between two moves without parting them.
pub open spec fn is_transparent<N>(command: Command<N>) -> bool {
    command is Comment || command is Unknown
}

/// The axis of a travel move.
pub open spec fn travel_axis<N>(command: Command<N>) -> Option<SingleAxis> {
    match travel_of(command) {
        Some((axis, _)) => Some(axis),
        None => None,
    }
}

/// Whether command `k` parts no travel moves on the given axis: it is a comment
/// or an unknown line, or a move on that axis that the rules remove.
pub open spec fn is_idle<N: Scalar>(
    p: Seq<Spanned<Command<N>>>,
    axis: Option<SingleAxis>,
    k: int,
) -> bool {
    is_transparent(p[k].inner) || rule_at(p, k) is Some && travel_axis(p[k].inner) == axis
}

/// The travel move before `n` that the next one on its axis can supersede:
/// nothing but idle commands stands behind it.
pub open spec fn pending_travel<N: Scalar>(p: Seq<Spanned<Command<N>>>, n: int) -> Option<int>
    decreases n,
{
    if n <= 0 {
        None
    } else if travel_axis(p[n - 1].inner) is Some && rule_at(p, n - 1) is None {
        Some(n - 1)
    } else {
        match pending_travel(p, n - 1) {
            Some(i) => if is_idle(p, travel_axis(p[i].inner), n - 1) {
                Some(i)
            } else {
                None
            },
            None => None,
        }
    }
}

/// Whether the program switches to relative positioning anywhere.
pub open spec fn has_relative<N>(p: Seq<Spanned<Command<N>>>) -> bool {
    exists|i: int| 0 <= i < p.len() && (#[trigger] p[i]).inner is SetRelative
}

/// Whether rule 7 applies to the program.
pub open spec fn merges_travel<N>(p: Seq<Spanned<Command<N>>>, config: OptConfig) -> bool {
    !config.no_travel_merge && !has_relative(p)
}

/// The travel move that command `j` supersedes by rule 7, if any.
pub open spec fn supersedes<N: Scalar>(
    p: Seq<Spanned<Command<N>>>,
    config: OptConfig,
    j: int,
) -> Option<int> {
    match pending_travel(p, j) {
        Some(i) => if merges_travel(p, config) && rule_at(p, j) is None && same_travel(
            travel_of(effective(p, config, i)),
            travel_of(effective(p, config, j)),
        ) {
            Some(i)
        } else {
            None
        },
        None => None,
    }
}

/// Whether one of the commands before `n` supersedes command `i`.
pub open spec fn superseded_before<N: Scalar>(
    p: Seq<Spanned<Command<N>>>,
    config: OptConfig,
    i: int,
    n: int,
) -> bool {
    exists|j: int| 0 <= j < n && #[trigger] supersedes(p, config, j) == Some(i)
}

/// Whether command `i` of the program is removed.
pub open spec fn is_removed<N: Scalar>(
    p: Seq<Spanned<Command<N>>>,
    config: OptConfig,
    i: int,
) -> bool {
    rule_at(p, i) is Some || superseded_before(p, config, i, p.len() as int)
}

/// What is left of the first `n` commands of the program.
pub open spec fn kept<N: Scalar>(
    p: Seq<Spanned<Command<N>>>,
    config: OptConfig,
    n: int,
) -> Seq<Spanned<Command<N>>>
    decreases n,
{
    if n <= 0 {
        Seq::empty()
    } else if is_removed(p, config, n - 1) {
        kept(p, config, n - 1)
    } else {
        kept(p, config, n - 1).push(
            Spanned {
                inner: effective(p, config, n - 1),
                line: p[n - 1].line,
                byte_offset: p[n - 1].byte_offset,
            },
        )
    }
}

/// The changes that are found at command `j`.
pub open spec fn changes_at<N: Scalar>(
    p: Seq<Spanned<Command<N>>>,
    config: OptConfig,
    j: int,
) -> Seq<Change> {
    let own = match rule_at(p, j) {
        Some(description) => seq![Change { line: p[j].line, description }],
        None => match strip_at(p, config, j) {
            Some(f) => seq![
                Change {
                    line: p[j].line,
                    description: "redundant feedrate F"@ + f.fixed_spec(0) + " (already modal)"@,
                },
            ],
            None => Seq::empty(),
        },
    };
    match supersedes(p, config, j) {
        Some(i) => own.push(
            Change {
                line: p[i].line,
                description: "redundant same-axis travel (superseded by next move)"@,
            },
        ),
        None => own,
    }
}

/// The changes that are found in the first `n` commands, in the order of discovery.
pub open spec fn changes_before<N: Scalar>(
    p: Seq<Spanned<Command<N>>>,
    config: OptConfig,
    n: int,
) -> Seq<Change>
    decreases n,
{
    if n <= 0 {
        Seq::empty()
    } else {
        changes_before(p, config, n - 1) + changes_at(p, config, n - 1)
    }
}

// ── Sorting changes by line ───────────────────────────────────────────────────

/// How many changes at the front of `sorted` have a line of at most `line`.
pub open spec fn slot(sorted: Seq<Change>, line: u32) -> int
    decreases sorted.len(),
{
    if sorted.len() == 0 {
        0
    } else if sorted.last().line <= line {
        sorted.len() as int
    } else {
        slot(sorted.drop_last(), line)
    }
}

/// The changes by line, those of one line in the order in which they came.
pub open spec fn by_line(changes: Seq<Change>) -> Seq<Change>
    decreases changes.len(),
{
    if changes.len() == 0 {
        Seq::empty()
    } else {
        let sorted = by_line(changes.drop_last());
        sorted.insert(slot(sorted, changes.last().line), changes.last())
    }
}

pub proof fn lemma_slot_range(sorted: Seq<Change>, line: u32)
    ensures
        0 <= slot(sorted, line) <= sorted.len(),
    decreases sorted.len(),
{
    if sorted.len() > 0 {
        lemma_slot_range(sorted.drop_last(), line);
    }
}

fn insert_by_line(sorted: &mut Vec<OptimizationChange>, change: OptimizationChange)
    ensures
        change_log(final(sorted)@) == change_log(old(sorted)@).insert(
            slot(change_log(old(sorted)@), change.line),
            change@,
        ),
{
    let ghost log = change_log(sorted@);
    let mut at: usize = sorted.len();
    proof {
        assert(log.take(at as int) =~= log);
    }
    while at > 0 && sorted[at - 1].line > change.line
        invariant
            at <= sorted.len(),
            log == change_log(sorted@),
            slot(log, change.line) == slot(log.take(at as int), change.line),
        decreases at,
    {
        proof {
            assert(log.take(at as int).drop_last() =~= log.take(at - 1));
        }
        at = at - 1;
    }
    proof {
        assert(slot(log, change.line) == at) by {
            if at > 0 {
                assert(log.take(at as int).last() == log[at - 1]);
            }
        }
    }
    sorted.insert(at, change);
    proof {
        assert(change_log(sorted@) =~= log.insert(at as int, change@));
    }
}

fn sort_by_line(changes: Vec<OptimizationChange>) -> (result: Vec<OptimizationChange>)
    ensures
        change_log(result@) == by_line(change_log(changes@)),
{
    let ghost all = changes@;
    let ghost log = change_log(changes@);
    let mut sorted: Vec<OptimizationChange> = Vec::new();
    proof {
        assert(change_log(sorted@) =~= by_line(log.take(0)));
    }
    for change in it: changes
        invariant
            it.seq() == all,
            log == change_log(all),
            change_log(sorted@) == by_line(log.take(it.index() as int)),
    {
        let ghost i = it.index() as int;
        insert_by_line(&mut sorted, change);
        proof {
            assert(log.take(i + 1).drop_last() =~= log.take(i));
            assert(log.take(i + 1).last() == log[i]);
        }
    }
    proof {
        assert(log.take(log.len() as int) =~= log);
    }
    sorted
}

// ── The pass ──────────────────────────────────────────────────────────────────

/// What the commands so far have set; text is borrowed from the commands.
struct PassState<'b, N> {
    x: N,
    y: N,
    z: N,
    e: N,
    is_absolute: bool,
    last_mode: Option<bool>,
    fan: Option<(u16, &'b str)>,
    hotend: Option<(u16, &'b str)>,
    bed: Option<(u16, &'b str)>,
    feedrate: Option<N>,
}

spec fn setting_of(held: Option<(u16, &str)>) -> Option<Setting> {
    match held {
        Some((code, params)) => Some(Setting { code, params: params@ }),
        None => None,
    }
}

impl<'b, N> View for PassState<'b, N> {
    type V = Tracker<N>;

    closed spec fn view(&self) -> Tracker<N> {
        Tracker {
            x: self.x,
            y: self.y,
            z: self.z,
            e: self.e,
            is_absolute: self.is_absolute,
            last_mode: self.last_mode,
            fan: setting_of(self.fan),
            hotend: setting_of(self.hotend),
            bed: setting_of(self.bed),
            feedrate: self.feedrate,
        }
    }
}

/// The axes and the feedrate of a command, where it is a linear or an arc move.
pub fn move_axes<N: Scalar>(command: &GCodeCommand<'_, N>) -> (result: Option<MoveAxes<N>>)
    ensures
        result == axes_of(command@),
{
    match command {
        GCodeCommand::RapidMove { x, y, z, f } => Some(
            MoveAxes { x: *x, y: *y, z: *z, e: None, f: *f },
        ),
        GCodeCommand::LinearMove { x, y, z, e, f } => Some(
            MoveAxes { x: *x, y: *y, z: *z, e: *e, f: *f },
        ),
        GCodeCommand::ArcMoveCW { x, y, z, e, f, .. } => Some(
            MoveAxes { x: *x, y: *y, z: *z, e: *e, f: *f },
        ),
        GCodeCommand::ArcMoveCCW { x, y, z, e, f, .. } => Some(
            MoveAxes { x: *x, y: *y, z: *z, e: *e, f: *f },
        ),
        _ => None,
    }
}

fn straight<N>(command: &GCodeCommand<'_, N>) -> (result: bool)
    ensures
        result == is_straight(command@),
{
    match command {
        GCodeCommand::RapidMove { .. } | GCodeCommand::LinearMove { .. } => true,
        _ => false,
    }
}

/// Where a coordinate stands after a move.
pub fn move_to<N: Scalar>(current: N, target: Option<N>, absolute: bool) -> (result: N)
    ensures
        result == moved(current, target, absolute),
{
    if absolute {
        or_default(target, current)
    } else {
        current.plus(or_default(target, zero()))
    }
}

fn is_close<N: Scalar>(a: N, b: N) -> (result: bool)
    ensures
        result == close(a, b),
{
    a.minus(b).abs().less(ratio(1, 10_000))
}

fn rests<N: Scalar>(target: Option<N>, current: N) -> (result: bool)
    ensures
        result == at_rest(target, current),
{
    match target {
        Some(v) => is_close(v, current),
        None => true,
    }
}

fn same_setting(held: Option<(u16, &str)>, code: u16, params: &str) -> (result: bool)
    ensures
        result == (setting_of(held) == Some(Setting { code, params: params@ })),
{
    match held {
        Some((held_code, held_params)) => held_code == code && same_text(held_params, params),
        None => false,
    }
}

impl<'b, N: Scalar> PassState<'b, N> {
    fn new() -> (result: Self)
        ensures
            result@ == Tracker::<N>::start(),
    {
        PassState {
            x: zero(),
            y: zero(),
            z: zero(),
            e: zero(),
            is_absolute: true,
            last_mode: None,
            fan: None,
            hotend: None,
            bed: None,
            feedrate: None,
        }
    }

    /// Where the head is, and where the extruder stands.
    fn place(&self) -> (result: (Point3D<N>, N))
        ensures
            result.0 == position(self@),
            result.1 == self@.e,
    {
        (Point3D { x: self.x, y: self.y, z: self.z }, self.e)
    }

    /// Takes a command into account.  Redundant commands count as well.
    fn update(&mut self, command: &'b GCodeCommand<'_, N>)
        ensures
            final(self)@ == old(self)@.after(command@),
    {
        match command {
            GCodeCommand::SetAbsolute => {
                self.is_absolute = true;
                self.last_mode = Some(true);
            },
            GCodeCommand::SetRelative => {
                self.is_absolute = false;
                self.last_mode = Some(false);
            },
            GCodeCommand::SetPosition { x, y, z, e } => {
                let set = axes_set(*x, *y, *z, *e);
                self.x = or_default(set.x, self.x);
                self.y = or_default(set.y, self.y);
                self.z = or_default(set.z, self.z);
                self.e = or_default(set.e, self.e);
            },
            GCodeCommand::MetaCommand { code, params } => {
                let held = Some((*code, cow_text(params)));
                if *code == 106 || *code == 107 {
                    self.fan = held;
                } else if *code == 104 || *code == 109 {
                    self.hotend = held;
                } else if *code == 140 || *code == 190 {
                    self.bed = held;
                }
            },
            _ => {
                if let Some(axes) = move_axes(command) {
                    self.x = move_to(self.x, axes.x, self.is_absolute);
                    self.y = move_to(self.y, axes.y, self.is_absolute);
                    self.z = move_to(self.z, axes.z, self.is_absolute);
                    self.e = move_to(self.e, axes.e, self.is_absolute);
                    if axes.f.is_some() {
                        self.feedrate = axes.f;
                    }
                }
            },
        }
    }

    /// Whether a move is absolute, sets no feedrate, and leads to where the head is.
    fn zero_delta(&self, axes: MoveAxes<N>) -> (result: bool)
        ensures
            result == is_zero_delta(axes, self@),
    {
        self.is_absolute && axes.f.is_none() && rests(axes.x, self.x) && rests(axes.y, self.y)
            && rests(axes.z, self.z) && rests(axes.e, self.e)
    }

    /// Why a command is redundant, if it is: rules 1 to 5.
    fn check_rules(&self, command: &GCodeCommand<'_, N>) -> (result: Option<&'static str>)
        ensures
            match result {
                Some(description) => redundancy(command@, self@) == Some(description@),
                None => redundancy(command@, self@) is None,
            },
    {
        match command {
            GCodeCommand::RapidMove { .. } | GCodeCommand::LinearMove { .. } => {
                match move_axes(command) {
                    Some(axes) => {
                        if axes.x.is_none() && axes.y.is_none() && axes.z.is_none()
                            && axes.e.is_none() && axes.f.is_none() {
                            Some("empty move with no parameters")
                        } else if self.zero_delta(axes) {
                            Some("zero-delta move (no net displacement)")
                        } else {
                            None
                        }
                    },
                    None => None,
                }
            },
            GCodeCommand::SetAbsolute => match self.last_mode {
                Some(true) => Some("duplicate mode switch (G90/G91 already active)"),
                _ => None,
            },
            GCodeCommand::SetRelative => match self.last_mode {
                Some(false) => Some("duplicate mode switch (G90/G91 already active)"),
                _ => None,
            },
            GCodeCommand::MetaCommand { code, params } => {
                let text = cow_text(params);
                if (*code == 106 || *code == 107) && same_setting(self.fan, *code, text) {
                    Some("duplicate fan command (same setting already active)")
                } else if ((*code == 104 || *code == 109) && same_setting(
                    self.hotend,
                    *code,
                    text,
                )) || ((*code == 140 || *code == 190) && same_setting(self.bed, *code, text)) {
                    Some("duplicate temperature command (already set)")
                } else {
                    None
                }
            },
            _ => None,
        }
    }

    /// The feedrate of a G0 or G1 that is already in force.
    fn redundant_feed(&self, command: &GCodeCommand<'_, N>) -> (result: Option<N>)
        ensures
            result == modal_feed(command@, self@),
    {
        if !straight(command) {
            return None;
        }
        match move_axes(command) {
            Some(axes) => match (axes.f, self.feedrate) {
                (Some(f), Some(modal)) => if is_close(f, modal) {
                    Some(f)
                } else {
                    None
                },
                _ => None,
            },
            None => None,
        }
    }
}

fn strip_feed<'a, N: Scalar>(command: GCodeCommand<'a, N>) -> (result: GCodeCommand<'a, N>)
    ensures
        result@ == without_feed(command@),
{
    match command {
        GCodeCommand::RapidMove { x, y, z, .. } => GCodeCommand::RapidMove { x, y, z, f: None },
        GCodeCommand::LinearMove { x, y, z, e, .. } => GCodeCommand::LinearMove {
            x,
            y,
            z,
            e,
            f: None,
        },
        other => other,
    }
}

/// The axis and the feedrate of a single-axis travel move, with its feedrate stripped or not.
fn single_axis_travel<N: Scalar>(command: &GCodeCommand<'_, N>, stripped: bool) -> (result: Option<
    (SingleAxis, Option<N>),
>)
    ensures
        result == travel_of(
            if stripped {
                without_feed(command@)
            } else {
                command@
            },
        ),
{
    if !straight(command) {
        return None;
    }
    match move_axes(command) {
        Some(axes) => {
            let f = if stripped {
                None
            } else {
                axes.f
            };
            if axes.e.is_some() {
                None
            } else if axes.x.is_some() && axes.y.is_none() && axes.z.is_none() {
                Some((SingleAxis::X, f))
            } else if axes.x.is_none() && axes.y.is_some() && axes.z.is_none() {
                Some((SingleAxis::Y, f))
            } else if axes.x.is_none() && axes.y.is_none() && axes.z.is_some() {
                Some((SingleAxis::Z, f))
            } else {
                None
            }
        },
        None => None,
    }
}

fn axis_of_travel<N: Scalar>(command: &GCodeCommand<'_, N>) -> (result: Option<SingleAxis>)
    ensures
        result == travel_axis(command@),
{
    match single_axis_travel(command, false) {
        Some((axis, _)) => Some(axis),
        None => None,
    }
}

fn same_axis(a: Option<SingleAxis>, b: Option<SingleAxis>) -> (result: bool)
    ensures
        result == (a == b),
{
    match (a, b) {
        (Some(x), Some(y)) => x == y,
        (None, None) => true,
        _ => false,
    }
}

fn transparent<N>(command: &GCodeCommand<'_, N>) -> (result: bool)
    ensures
        result == is_transparent(command@),
{
    match command {
        GCodeCommand::Comment { .. } | GCodeCommand::Unknown { .. } => true,
        _ => false,
    }
}

fn travels_alike<N: Scalar>(
    a: Option<(SingleAxis, Option<N>)>,
    b: Option<(SingleAxis, Option<N>)>,
) -> (result: bool)
    ensures
        result == same_travel(a, b),
{
    match (a, b) {
        (Some((axis_a, f_a)), Some((axis_b, f_b))) => axis_a == axis_b && same_option(f_a, f_b),
        _ => false,
    }
}

/// Whether the program switches to relative positioning anywhere.
pub fn uses_relative<N: Scalar>(commands: &Vec<Spanned<GCodeCommand<'_, N>>>) -> (result: bool)
    ensures
        result == has_relative(program(commands@)),
{
    let ghost p = program(commands@);
    let mut i: usize = 0;
    while i < commands.len()
        invariant
            i <= commands.len(),
            p == program(commands@),
            forall|j: int| 0 <= j < i ==> !((#[trigger] p[j]).inner is SetRelative),
        decreases commands.len() - i,
    {
        let found = matches!(commands[i].inner, GCodeCommand::SetRelative);
        proof {
            assert(p[i as int] == commands@[i as int]@);
            assert(found == (p[i as int].inner is SetRelative));
        }
        if found {
            return true;
        }
        i = i + 1;
    }
    false
}

fn feed_change<N: Scalar>(line: u32, f: N) -> (result: OptimizationChange)
    ensures
        result@ == (Change {
            line,
            description: "redundant feedrate F"@ + f.fixed_spec(0) + " (already modal)"@,
        }),
{
    let mut description = String::new();
    push_text(&mut description, "redundant feedrate F");
    push_text(&mut description, f.fixed(0).as_str());
    push_text(&mut description, " (already modal)");
    OptimizationChange { line, description }
}

/// What the pass found: which commands go, which lose their feedrate, and the changes.
struct Findings {
    /// Redundant by rules 1 to 5.
    ruled: Vec<bool>,
    /// Superseded by a later move.
    superseded: Vec<bool>,
    /// Without their feedrate.
    stripped: Vec<bool>,
    /// The changes in the order of discovery.
    changes: Vec<OptimizationChange>,
}

fn scan<N: Scalar>(commands: &Vec<Spanned<GCodeCommand<'_, N>>>, config: &OptConfig) -> (result:
    Findings)
    ensures
        result.ruled.len() == commands.len(),
        result.superseded.len() == commands.len(),
        result.stripped.len() == commands.len(),
        forall|i: int|
            0 <= i < commands.len() ==> #[trigger] result.ruled[i] == (rule_at(
                program(commands@),
                i,
            ) is Some),
        forall|i: int|
            0 <= i < commands.len() ==> #[trigger] result.superseded[i] == superseded_before(
                program(commands@),
                *config,
                i,
                commands.len() as int,
            ),
        forall|i: int|
            0 <= i < commands.len() ==> #[trigger] result.stripped[i] == (strip_at(
                program(commands@),
                *config,
                i,
            ) is Some),
        change_log(result.changes@) == changes_before(
            program(commands@),
            *config,
            commands.len() as int,
        ),
{
    let ghost p = program(commands@);
    let merges = !config.no_travel_merge && !uses_relative(commands);
    let mut ruled: Vec<bool> = Vec::new();
    let mut superseded: Vec<bool> = Vec::new();
    let mut stripped: Vec<bool> = Vec::new();
    let mut changes: Vec<OptimizationChange> = Vec::new();
    let mut state: PassState<'_, N> = PassState::new();
    let mut pending: Option<usize> = None;
    let mut idx: usize = 0;
    proof {
        assert(change_log(changes@) =~= changes_before(p, *config, 0));
    }
    while idx < commands.len()
        invariant
            idx <= commands.len(),
            p == program(commands@),
            merges == merges_travel(p, *config),
            ruled.len() == idx,
            superseded.len() == idx,
            stripped.len() == idx,
            state@ == state_at(p, idx as int),
            match pending {
                Some(i) => pending_travel(p, idx as int) == Some(i as int) && i < idx,
                None => pending_travel(p, idx as int) is None,
            },
            forall|i: int| 0 <= i < idx ==> #[trigger] ruled[i] == (rule_at(p, i) is Some),
            forall|i: int|
                0 <= i < idx ==> #[trigger] superseded[i] == superseded_before(
                    p,
                    *config,
                    i,
                    idx as int,
                ),
            forall|i: int|
                0 <= i < idx ==> #[trigger] stripped[i] == (strip_at(p, *config, i) is Some),
            change_log(changes@) == changes_before(p, *config, idx as int),
        decreases commands.len() - idx,
    {
        let line = commands[idx].line;
        let ghost log = change_log(changes@);
        let ghost held = superseded@;
        proof {
            assert(p[idx as int] == commands@[idx as int]@);
        }
        let command = &commands[idx].inner;
        let rule = state.check_rules(command);
        let mut feed: Option<N> = None;
        match rule {
            Some(description) => {
                push_change(
                    &mut changes,
                    OptimizationChange { line, description: owned(description) },
                );
            },
            None => {
                if !config.no_feedrate_strip {
                    feed = state.redundant_feed(command);
                    if let Some(f) = feed {
                        push_change(&mut changes, feed_change(line, f));
                    }
                }
            },
        }
        proof {
            assert(feed == strip_at(p, *config, idx as int));
        }
        ruled.push(rule.is_some());
        stripped.push(feed.is_some());
        superseded.push(false);
        let mut hit: Option<usize> = None;
        if let Some(prev) = pending {
            if merges && rule.is_none() {
                proof {
                    assert(p[prev as int] == commands@[prev as int]@);
                    assert(stripped[prev as int] == (strip_at(p, *config, prev as int) is Some));
                }
                let earlier = single_axis_travel(&commands[prev].inner, stripped[prev]);
                let later = single_axis_travel(command, feed.is_some());
                if travels_alike(earlier, later) {
                    hit = Some(prev);
                }
            }
        }
        proof {
            assert(match hit {
                Some(i) => supersedes(p, *config, idx as int) == Some(i as int),
                None => supersedes(p, *config, idx as int) is None,
            });
        }
        if let Some(prev) = hit {
            superseded.set(prev, true);
            push_change(
                &mut changes,
                OptimizationChange {
                    line: commands[prev].line,
                    description: owned("redundant same-axis travel (superseded by next move)"),
                },
            );
        }
        proof {
            lemma_superseded_step(p, *config, idx as int);
            assert forall|i: int| 0 <= i < idx + 1 implies #[trigger] superseded[i]
                == superseded_before(p, *config, i, idx + 1) by {
                if i < idx {
                    assert(held[i] == superseded_before(p, *config, i, idx as int));
                }
            }
            assert(change_log(changes@) =~= log + changes_at(p, *config, idx as int));
        }
        let axis = axis_of_travel(command);
        if axis.is_some() && rule.is_none() {
            pending = Some(idx);
        } else if let Some(prev) = pending {
            proof {
                assert(p[prev as int] == commands@[prev as int]@);
            }
            let idle = transparent(command) || rule.is_some() && same_axis(
                axis,
                axis_of_travel(&commands[prev].inner),
            );
            if !idle {
                pending = None;
            }
        }
        state.update(command);
        idx = idx + 1;
    }
    Findings { ruled, superseded, stripped, changes }
}

/// A pending travel move is not redundant, and nothing but idle commands stands behind it.
pub proof fn lemma_pending_travel<N: Scalar>(p: Seq<Spanned<Command<N>>>, n: int)
    ensures
        pending_travel(p, n) matches Some(i) ==> {
            &&& 0 <= i < n
            &&& travel_axis(p[i].inner) is Some
            &&& rule_at(p, i) is None
            &&& forall|k: int| i < k < n ==> #[trigger] is_idle(p, travel_axis(p[i].inner), k)
        },
    decreases n,
{
    if n > 0 {
        lemma_pending_travel(p, n - 1);
    }
}

proof fn lemma_superseded_step<N: Scalar>(
    p: Seq<Spanned<Command<N>>>,
    config: OptConfig,
    n: int,
)
    requires
        0 <= n,
    ensures
        forall|i: int| #[trigger]
            superseded_before(p, config, i, n + 1) == (superseded_before(p, config, i, n)
                || supersedes(p, config, n) == Some(i)),
        !superseded_before(p, config, n, n),
        supersedes(p, config, n) != Some(n),
{
    lemma_pending_travel(p, n);
    assert forall|i: int| #[trigger]
        superseded_before(p, config, i, n + 1) == (superseded_before(p, config, i, n)
            || supersedes(p, config, n) == Some(i)) by {
        if superseded_before(p, config, i, n) {
            let j = choose|j: int| 0 <= j < n && #[trigger] supersedes(p, config, j) == Some(i);
            assert(supersedes(p, config, j) == Some(i));
        }
    }
    if superseded_before(p, config, n, n) {
        let j = choose|j: int| 0 <= j < n && #[trigger] supersedes(p, config, j) == Some(n);
        lemma_pending_travel(p, j);
    }
}

/// Removes the commands that have no effect, and the feedrates that are already in force.
///
/// In a dry run the commands stay as they are; the changes are reported all the
/// same.  Changes come in the order of their lines.
pub fn optimize<'a, N: Scalar>(
    commands: Vec<Spanned<GCodeCommand<'a, N>>>,
    config: &OptConfig,
) -> (result: OptimizationResult<'a, N>)
    ensures
        config.dry_run ==> result.commands@ == commands@,
        !config.dry_run ==> program(result.commands@) == kept(
            program(commands@),
            *config,
            commands.len() as int,
        ),
        change_log(result.changes@) == by_line(
            changes_before(program(commands@), *config, commands.len() as int),
        ),
{
    let ghost p = program(commands@);
    let ghost all = commands@;
    let found = scan(&commands, config);
    let changes = sort_by_line(found.changes);
    if config.dry_run {
        return OptimizationResult { commands, changes };
    }
    let mut output: Vec<Spanned<GCodeCommand<'a, N>>> = Vec::new();
    let mut idx: usize = 0;
    proof {
        assert(program(output@) =~= kept(p, *config, 0));
    }
    for spanned in it: commands
        invariant
            it.seq() == all,
            p == program(all),
            idx == it.index(),
            found.ruled.len() == all.len(),
            found.superseded.len() == all.len(),
            found.stripped.len() == all.len(),
            forall|i: int|
                0 <= i < all.len() ==> #[trigger] found.ruled[i] == (rule_at(p, i) is Some),
            forall|i: int|
                0 <= i < all.len() ==> #[trigger] found.superseded[i] == superseded_before(
                    p,
                    *config,
                    i,
                    all.len() as int,
                ),
            forall|i: int|
                0 <= i < all.len() ==> #[trigger] found.stripped[i] == (strip_at(p, *config, i)
                    is Some),
            program(output@) == kept(p, *config, idx as int),
    {
        let ghost before = output@;
        proof {
            assert(p[idx as int] == spanned@);
        }
        if !found.ruled[idx] && !found.superseded[idx] {
            let kept_command = if found.stripped[idx] {
                Spanned {
                    inner: strip_feed(spanned.inner),
                    line: spanned.line,
                    byte_offset: spanned.byte_offset,
                }
            } else {
                spanned
            };
            output.push(kept_command);
            proof {
                assert(program(output@) =~= program(before).push(kept_command@));
            }
        }
        idx = idx + 1;
    }
    OptimizationResult { commands: output, changes }
}

} // verus!
