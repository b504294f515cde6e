//! Merging of collinear linear moves (rule 6).
//!
//! A run is three or more consecutive G1 commands that lie on one line in space,
//! from where the first begins to the target of the last, with one feedrate and
//! with extrusion in proportion to distance.  A run is replaced by one move that
//! leads where it leads.

use vstd::prelude::*;

use crate::diagnostics::{change_log, push_change, Change, OptimizationChange};
use crate::geometry::{length, length_of, vector, vector_between};
use crate::models::{program, Command, GCodeCommand, Point3D, Spanned};
use crate::optimizer::{
    axes_of, close, has_relative, is_close, move_axes, position, state_at, uses_relative, MoveAxes,
    OptConfig, OptimizationResult, PassState,
};
use crate::scalar::{is_vanishing, ratio, ratio_spec, vanishes, Scalar};
use crate::text::owned;

verus! {

// ── Geometry ──────────────────────────────────────────────────────────────────

/// The cross product of two vectors.
pub open spec fn cross<N: Scalar>(a: Point3D<N>, b: Point3D<N>) -> Point3D<N> {
    Point3D {
        x: a.y.times_spec(b.z).minus_spec(a.z.times_spec(b.y)),
        y: a.z.times_spec(b.x).minus_spec(a.x.times_spec(b.z)),
        z: a.x.times_spec(b.y).minus_spec(a.y.times_spec(b.x)),
    }
}

/// Lengths below this count as none.
pub open spec fn negligible<N: Scalar>() -> N {
    ratio_spec(1, 1_000_000_000_000)
}

/// The distance of `c` from the line through `a` and `b`: the length of the
/// cross product over the length of the segment; infinite where the segment
/// has no length.
pub open spec fn distance_from_line<N: Scalar>(a: Point3D<N>, b: Point3D<N>, c: Point3D<N>) -> N {
    let ab = vector(a, b);
    if vanishes(length(ab), negligible()) {
        N::infinity_spec()
    } else {
        length(cross(ab, vector(a, c))).over_spec(length(ab))
    }
}

fn perpendicular_distance<N: Scalar>(a: Point3D<N>, b: Point3D<N>, c: Point3D<N>) -> (result: N)
    ensures
        result == distance_from_line(a, b, c),
{
    let ab = vector_between(a, b);
    let ab_len = length_of(ab);
    if is_vanishing(ab_len, ratio(1, 1_000_000_000_000)) {
        return N::infinity();
    }
    let ac = vector_between(a, c);
    let product = Point3D {
        x: ab.y.times(ac.z).minus(ab.z.times(ac.y)),
        y: ab.z.times(ac.x).minus(ab.x.times(ac.z)),
        z: ab.x.times(ac.y).minus(ab.y.times(ac.x)),
    };
    length_of(product).over(ab_len)
}

// ── Runs ──────────────────────────────────────────────────────────────────────

/// The axes and the feedrate of command `i` of the program.
pub open spec fn axes_at<N>(p: Seq<Spanned<Command<N>>>, i: int) -> MoveAxes<N> {
    axes_of(p[i].inner)->0
}

/// Whether the feedrates are both absent, or both present and the same.
pub open spec fn feeds_match<N: Scalar>(a: Option<N>, b: Option<N>) -> bool {
    match (a, b) {
        (None, None) => true,
        (Some(x), Some(y)) => close(x, y),
        _ => false,
    }
}

/// Where the head is before command `i`.
pub open spec fn head_at<N: Scalar>(p: Seq<Spanned<Command<N>>>, i: int) -> Point3D<N> {
    position(state_at(p, i))
}

/// Where the extruder stands before command `i`.
pub open spec fn extruder_at<N: Scalar>(p: Seq<Spanned<Command<N>>>, i: int) -> N {
    state_at(p, i).e
}

/// Whether `c` lies on the line through `a` and `b`: within 0.001 mm.
pub open spec fn on_line<N: Scalar>(a: Point3D<N>, b: Point3D<N>, c: Point3D<N>) -> bool {
    !ratio_spec::<N>(1, 1_000).less_spec(distance_from_line(a, b, c))
}

/// Whether the G1 at `i` continues the run that begins with the G1 at `start`:
/// it has the same feedrate, names Z and the extruder or does not, like the first,
/// and leads to a point on the line through the first two targets of the run; for
/// the second G1, the point at which the run begins is on that line.
///
/// On axes that a G1 does not name the head stays where it is.
pub open spec fn joins<N: Scalar>(p: Seq<Spanned<Command<N>>>, start: int, i: int) -> bool {
    let first = axes_at(p, start);
    let next = axes_at(p, i);
    &&& feeds_match(first.f, next.f)
    &&& first.z is Some == next.z is Some
    &&& first.e is Some == next.e is Some
    &&& on_line(
        head_at(p, start + 1),
        head_at(p, start + 2),
        if i == start + 1 {
            head_at(p, start)
        } else {
            head_at(p, i + 1)
        },
    )
}

/// The length of the way from where the run begins to where command `i` leads.
pub open spec fn way<N: Scalar>(p: Seq<Spanned<Command<N>>>, start: int, i: int) -> N {
    length(vector(head_at(p, start), head_at(p, i + 1)))
}

/// Where the extruder is to stand at command `i` of the run, in proportion to the way.
pub open spec fn proportional_e<N: Scalar>(
    p: Seq<Spanned<Command<N>>>,
    start: int,
    end: int,
    i: int,
) -> N {
    let e0 = extruder_at(p, start);
    let total_e = extruder_at(p, end).minus_spec(e0);
    e0.plus_spec(total_e.times_spec(way(p, start, i).over_spec(way(p, start, end - 1))))
}

/// Whether the extruder moves in proportion to distance along the run.
pub open spec fn is_proportional<N: Scalar>(
    p: Seq<Spanned<Command<N>>>,
    start: int,
    end: int,
) -> bool {
    &&& !vanishes(way(p, start, end - 1), negligible())
    &&& forall|i: int|
        start <= i < end ==> !ratio_spec::<N>(1, 1_000).less_spec(
            extruder_at(p, i + 1).minus_spec(
                #[trigger] proportional_e(p, start, end, i),
            ).abs_spec(),
        )
}

/// Whether the G1 commands from `start` up to `end` are merged.
pub open spec fn is_merged<N: Scalar>(
    p: Seq<Spanned<Command<N>>>,
    start: int,
    end: int,
) -> bool {
    end - start >= 3 && (axes_at(p, start).e is None || is_proportional(p, start, end))
}

/// The runs found so far, and where the current one begins.
#[verifier::ext_equal]
pub struct RunState {
    /// Beginning and end of each run.
    pub runs: Seq<(int, int)>,
    /// Beginning of the current run.
    pub start: int,
}

/// The runs once the current one ends at `end`.
pub open spec fn closed_runs<N: Scalar>(
    p: Seq<Spanned<Command<N>>>,
    s: RunState,
    end: int,
) -> Seq<(int, int)> {
    if is_merged(p, s.start, end) {
        s.runs.push((s.start, end))
    } else {
        s.runs
    }
}

/// The runs among the first `n` commands.
pub open spec fn runs_before<N: Scalar>(p: Seq<Spanned<Command<N>>>, n: int) -> RunState
    decreases n,
{
    if n <= 0 {
        RunState { runs: Seq::empty(), start: 0 }
    } else {
        let before = runs_before(p, n - 1);
        if !(p[n - 1].inner is LinearMove) {
            RunState { runs: closed_runs(p, before, n - 1), start: n }
        } else if before.start == n - 1 || joins(p, before.start, n - 1) {
            before
        } else {
            RunState { runs: closed_runs(p, before, n - 1), start: n - 1 }
        }
    }
}

/// The runs of the program that are merged, in order.  There are none in a
/// program that uses relative positioning, where targets are no positions.
pub open spec fn collinear_runs<N: Scalar>(p: Seq<Spanned<Command<N>>>) -> Seq<(int, int)> {
    if has_relative(p) {
        Seq::empty()
    } else {
        closed_runs(p, runs_before(p, p.len() as int), p.len() as int)
    }
}

/// The later of two positions, where there is one.
pub open spec fn later<N>(a: Option<N>, b: Option<N>) -> Option<N> {
    if b is Some {
        b
    } else {
        a
    }
}

/// The axes that the commands from `start` up to `end` name, each with the position
/// that was named last, and the feedrate of the first.
pub open spec fn named<N>(p: Seq<Spanned<Command<N>>>, start: int, end: int) -> MoveAxes<N>
    decreases end - start,
{
    if end <= start {
        MoveAxes { x: None, y: None, z: None, e: None, f: axes_at(p, start).f }
    } else {
        let before = named(p, start, end - 1);
        let axes = axes_at(p, end - 1);
        MoveAxes {
            x: later(before.x, axes.x),
            y: later(before.y, axes.y),
            z: later(before.z, axes.z),
            e: later(before.e, axes.e),
            f: before.f,
        }
    }
}

/// The move that stands for a run: it leads where the run leads on every axis that
/// the run names, with the feedrate and the place of the first command.
pub open spec fn merged_move<N>(
    p: Seq<Spanned<Command<N>>>,
    start: int,
    end: int,
) -> Spanned<Command<N>> {
    let axes = named(p, start, end);
    Spanned {
        inner: Command::LinearMove { x: axes.x, y: axes.y, z: axes.z, e: axes.e, f: axes.f },
        line: p[start].line,
        byte_offset: p[start].byte_offset,
    }
}

/// The program with each run replaced by one move.
pub open spec fn merged<N>(
    p: Seq<Spanned<Command<N>>>,
    runs: Seq<(int, int)>,
    n: int,
) -> Seq<Spanned<Command<N>>>
    decreases runs.len(),
{
    if runs.len() == 0 {
        p.take(n)
    } else {
        let (start, end) = runs.last();
        merged(p, runs.drop_last(), start).push(merged_move(p, start, end)) + p.subrange(end, n)
    }
}

/// A change for every command of a run but the first.
pub open spec fn run_changes<N>(
    p: Seq<Spanned<Command<N>>>,
    start: int,
    end: int,
) -> Seq<Change> {
    Seq::new(
        (end - start - 1) as nat,
        |k: int|
            Change {
                line: p[start + 1 + k].line,
                description: "collinear move merged into preceding run"@,
            },
    )
}

/// The changes of all runs.
pub open spec fn merge_changes<N>(
    p: Seq<Spanned<Command<N>>>,
    runs: Seq<(int, int)>,
) -> Seq<Change>
    decreases runs.len(),
{
    if runs.len() == 0 {
        Seq::empty()
    } else {
        merge_changes(p, runs.drop_last()) + run_changes(p, runs.last().0, runs.last().1)
    }
}

/// Whether the runs are nonempty, in order, apart, and end by `n`.
pub open spec fn in_order(runs: Seq<(int, int)>, n: int) -> bool {
    &&& forall|k: int|
        0 <= k < runs.len() ==> 0 <= (#[trigger] runs[k]).0 && runs[k].0 + 3 <= runs[k].1
            && runs[k].1 <= n
    &&& forall|k: int, m: int|
        0 <= k < m < runs.len() ==> (#[trigger] runs[k]).1 <= (#[trigger] runs[m]).0
}

/// Runs are in order, and consist of G1 commands.
pub proof fn lemma_runs_in_order<N: Scalar>(p: Seq<Spanned<Command<N>>>, n: int)
    requires
        0 <= n <= p.len(),
    ensures
        in_order(runs_before(p, n).runs, runs_before(p, n).start),
        0 <= runs_before(p, n).start <= n,
        forall|i: int|
            runs_before(p, n).start <= i < n ==> (#[trigger] p[i]).inner is LinearMove,
        forall|k: int, i: int|
            0 <= k < runs_before(p, n).runs.len() && runs_before(p, n).runs[k].0 <= i
                < runs_before(p, n).runs[k].1 ==> (#[trigger] p[i]).inner is LinearMove
                && #[trigger] runs_before(p, n).runs[k] == runs_before(p, n).runs[k],
    decreases n,
{
    if n > 0 {
        lemma_runs_in_order(p, n - 1);
    }
}

fn feedrates_match<N: Scalar>(a: Option<N>, b: Option<N>) -> (result: bool)
    ensures
        result == feeds_match(a, b),
{
    match (a, b) {
        (None, None) => true,
        (Some(x), Some(y)) => is_close(x, y),
        _ => false,
    }
}

/// The axes and the feedrate of a G1.
fn linear_axes<N: Scalar>(commands: &Vec<Spanned<GCodeCommand<'_, N>>>, i: usize) -> (result:
    MoveAxes<N>)
    requires
        i < commands.len(),
        program(commands@)[i as int].inner is LinearMove,
    ensures
        result == axes_at(program(commands@), i as int),
{
    proof {
        assert(program(commands@)[i as int] == commands@[i as int]@);
    }
    match move_axes(&commands[i].inner) {
        Some(axes) => axes,
        None => MoveAxes { x: None, y: None, z: None, e: None, f: None },
    }
}

/// Whether the points are where the head is, and the extruder stands, before each of
/// the commands and behind the last.
spec fn tracks<N: Scalar>(points: Seq<(Point3D<N>, N)>, p: Seq<Spanned<Command<N>>>) -> bool {
    &&& points.len() == p.len() + 1
    &&& forall|i: int|
        0 <= i <= p.len() ==> (#[trigger] points[i]).0 == head_at(p, i) && points[i].1
            == extruder_at(p, i)
}

fn track<N: Scalar>(commands: &Vec<Spanned<GCodeCommand<'_, N>>>) -> (result: Vec<(Point3D<N>, N)>)
    ensures
        tracks(result@, program(commands@)),
{
    let ghost p = program(commands@);
    let mut state: PassState<'_, N> = PassState::new();
    let mut points: Vec<(Point3D<N>, N)> = Vec::new();
    points.push(state.place());
    let mut i: usize = 0;
    while i < commands.len()
        invariant
            i <= commands.len(),
            p == program(commands@),
            state@ == state_at(p, i as int),
            points.len() == i + 1,
            forall|k: int|
                0 <= k <= i ==> (#[trigger] points[k]).0 == head_at(p, k) && points[k].1
                    == extruder_at(p, k),
        decreases commands.len() - i,
    {
        proof {
            assert(p[i as int] == commands@[i as int]@);
        }
        state.update(&commands[i].inner);
        points.push(state.place());
        i = i + 1;
    }
    points
}

fn continues_run<N: Scalar>(
    commands: &Vec<Spanned<GCodeCommand<'_, N>>>,
    points: &Vec<(Point3D<N>, N)>,
    start: usize,
    i: usize,
) -> (result: bool)
    requires
        start < i < commands.len(),
        tracks(points@, program(commands@)),
        forall|k: int|
            start <= k <= i ==> (#[trigger] program(commands@)[k]).inner is LinearMove,
    ensures
        result == joins(program(commands@), start as int, i as int),
{
    let first = linear_axes(commands, start);
    let next = linear_axes(commands, i);
    if !feedrates_match(first.f, next.f) || first.z.is_some() != next.z.is_some()
        || first.e.is_some() != next.e.is_some() {
        return false;
    }
    let point = if i == start + 1 {
        points[start].0
    } else {
        points[i + 1].0
    };
    let distance = perpendicular_distance(points[start + 1].0, points[start + 2].0, point);
    !ratio::<N>(1, 1_000).less(distance)
}

fn extrusion_proportional<N: Scalar>(
    points: &Vec<(Point3D<N>, N)>,
    start: usize,
    end: usize,
    Ghost(p): Ghost<Seq<Spanned<Command<N>>>>,
) -> (result: bool)
    requires
        start < end <= p.len(),
        tracks(points@, p),
    ensures
        result == is_proportional(p, start as int, end as int),
{
    let (origin, e0) = points[start];
    let total_e = points[end].1.minus(e0);
    let total_way = length_of(vector_between(origin, points[end].0));
    if is_vanishing(total_way, ratio(1, 1_000_000_000_000)) {
        return false;
    }
    let mut i: usize = start;
    while i < end
        invariant
            start <= i <= end <= p.len(),
            tracks(points@, p),
            origin == head_at(p, start as int),
            e0 == extruder_at(p, start as int),
            total_e == extruder_at(p, end as int).minus_spec(e0),
            total_way == way(p, start as int, end - 1),
            forall|k: int|
                start <= k < i ==> !ratio_spec::<N>(1, 1_000).less_spec(
                    extruder_at(p, k + 1).minus_spec(
                        #[trigger] proportional_e(p, start as int, end as int, k),
                    ).abs_spec(),
                ),
        decreases end - i,
    {
        let (point, e) = points[i + 1];
        let expected = e0.plus(
            total_e.times(length_of(vector_between(origin, point)).over(total_way)),
        );
        proof {
            assert(expected == proportional_e(p, start as int, end as int, i as int));
        }
        if ratio::<N>(1, 1_000).less(e.minus(expected).abs()) {
            return false;
        }
        i = i + 1;
    }
    true
}

spec fn run_views(runs: Seq<(usize, usize)>) -> Seq<(int, int)> {
    runs.map_values(|r: (usize, usize)| (r.0 as int, r.1 as int))
}

/// Ends the current run at `end`, and keeps it where it is to be merged.
fn flush_run<N: Scalar>(
    commands: &Vec<Spanned<GCodeCommand<'_, N>>>,
    points: &Vec<(Point3D<N>, N)>,
    runs: &mut Vec<(usize, usize)>,
    start: usize,
    end: usize,
)
    requires
        start <= end <= commands.len(),
        tracks(points@, program(commands@)),
        forall|k: int|
            start <= k < end ==> (#[trigger] program(commands@)[k]).inner is LinearMove,
    ensures
        run_views(final(runs)@) == closed_runs(
            program(commands@),
            RunState { runs: run_views(old(runs)@), start: start as int },
            end as int,
        ),
{
    if end - start >= 3 {
        let extrudes = linear_axes(commands, start).e.is_some();
        if !extrudes || extrusion_proportional(points, start, end, Ghost(program(commands@))) {
            runs.push((start, end));
            proof {
                assert(run_views(runs@) =~= run_views(old(runs)@).push((start as int, end as int)));
            }
        }
    }
}

fn find_collinear_runs<N: Scalar>(commands: &Vec<Spanned<GCodeCommand<'_, N>>>) -> (result: Vec<
    (usize, usize),
>)
    ensures
        run_views(result@) == collinear_runs(program(commands@)),
        in_order(run_views(result@), commands.len() as int),
        forall|k: int, i: int|
            0 <= k < result.len() && result[k].0 <= i < result[k].1 ==> (#[trigger] program(
                commands@,
            )[i]).inner is LinearMove && #[trigger] result[k] == result[k],
{
    let ghost p = program(commands@);
    let mut runs: Vec<(usize, usize)> = Vec::new();
    if uses_relative(commands) {
        proof {
            assert(run_views(runs@) =~= Seq::<(int, int)>::empty());
        }
        return runs;
    }
    let points = track(commands);
    let mut start: usize = 0;
    let mut i: usize = 0;
    proof {
        assert(run_views(runs@) =~= runs_before(p, 0).runs);
    }
    while i < commands.len()
        invariant
            start <= i <= commands.len(),
            p == program(commands@),
            tracks(points@, p),
            run_views(runs@) == runs_before(p, i as int).runs,
            start == runs_before(p, i as int).start,
        decreases commands.len() - i,
    {
        proof {
            lemma_runs_in_order(p, i as int);
            assert(p[i as int] == commands@[i as int]@);
        }
        let linear = matches!(commands[i].inner, GCodeCommand::LinearMove { .. });
        proof {
            assert(linear == (p[i as int].inner is LinearMove));
        }
        if !linear {
            flush_run(commands, &points, &mut runs, start, i);
            start = i + 1;
        } else if start != i && !continues_run(commands, &points, start, i) {
            flush_run(commands, &points, &mut runs, start, i);
            start = i;
        }
        i = i + 1;
    }
    proof {
        lemma_runs_in_order(p, i as int);
    }
    flush_run(commands, &points, &mut runs, start, commands.len());
    proof {
        let s = runs_before(p, i as int);
        let all = run_views(runs@);
        assert(all == closed_runs(p, s, i as int));
        assert forall|k: int, j: int|
            0 <= k < runs.len() && runs[k].0 <= j < runs[k].1 implies (#[trigger] p[j]).inner
            is LinearMove && #[trigger] runs[k] == runs[k] by {
            assert(all[k] == (runs[k].0 as int, runs[k].1 as int));
            if k < s.runs.len() {
                assert(all[k] == s.runs[k]);
            }
        }
    }
    runs
}

fn later_of<N: Scalar>(a: Option<N>, b: Option<N>) -> (result: Option<N>)
    ensures
        result == later(a, b),
{
    if b.is_some() {
        b
    } else {
        a
    }
}

/// The axes that the commands from `start` up to `end` name, each with the position
/// that was named last, and the feedrate of the first.
fn named_axes<N: Scalar>(
    commands: &Vec<Spanned<GCodeCommand<'_, N>>>,
    start: usize,
    end: usize,
) -> (result: MoveAxes<N>)
    requires
        start < end <= commands.len(),
        forall|k: int|
            start <= k < end ==> (#[trigger] program(commands@)[k]).inner is LinearMove,
    ensures
        result == named(program(commands@), start as int, end as int),
{
    let ghost p = program(commands@);
    let mut all = MoveAxes { x: None, y: None, z: None, e: None, f: linear_axes(commands, start).f };
    let mut i: usize = start;
    while i < end
        invariant
            start <= i <= end <= commands.len(),
            p == program(commands@),
            forall|k: int| start <= k < end ==> (#[trigger] p[k]).inner is LinearMove,
            all == named(p, start as int, i as int),
        decreases end - i,
    {
        let axes = linear_axes(commands, i);
        all =
        MoveAxes {
            x: later_of(all.x, axes.x),
            y: later_of(all.y, axes.y),
            z: later_of(all.z, axes.z),
            e: later_of(all.e, axes.e),
            f: all.f,
        };
        i = i + 1;
    }
    all
}

proof fn lemma_merged_extends<N>(p: Seq<Spanned<Command<N>>>, runs: Seq<(int, int)>, n: int)
    requires
        0 <= n < p.len(),
        in_order(runs, n),
    ensures
        merged(p, runs, n + 1) == merged(p, runs, n).push(p[n]),
{
    if runs.len() == 0 {
        assert(p.take(n + 1) =~= p.take(n).push(p[n]));
    } else {
        let (start, end) = runs.last();
        assert(runs[runs.len() - 1] == (start, end));
        assert(p.subrange(end, n + 1) =~= p.subrange(end, n).push(p[n]));
        assert(merged(p, runs, n + 1) =~= merged(p, runs, n).push(p[n]));
    }
}

/// Replaces each run of collinear linear moves by one move.
///
/// Does nothing unless `config.merge_collinear` is set.  In a dry run the
/// commands stay as they are; the changes are reported all the same.
pub fn merge_collinear<'a, N: Scalar>(
    commands: Vec<Spanned<GCodeCommand<'a, N>>>,
    config: &OptConfig,
) -> (result: OptimizationResult<'a, N>)
    ensures
        !config.merge_collinear ==> result.commands@ == commands@ && result.changes.len() == 0,
        config.merge_collinear ==> change_log(result.changes@) == merge_changes(
            program(commands@),
            collinear_runs(program(commands@)),
        ),
        config.merge_collinear && config.dry_run ==> result.commands@ == commands@,
        config.merge_collinear && !config.dry_run ==> program(result.commands@) == merged(
            program(commands@),
            collinear_runs(program(commands@)),
            commands.len() as int,
        ),
{
    let mut changes: Vec<OptimizationChange> = Vec::new();
    if !config.merge_collinear {
        return OptimizationResult { commands, changes };
    }
    let ghost p = program(commands@);
    let ghost all = commands@;
    let runs = find_collinear_runs(&commands);
    let ghost views = run_views(runs@);
    let mut r: usize = 0;
    proof {
        assert(change_log(changes@) =~= merge_changes(p, views.take(0)));
    }
    while r < runs.len()
        invariant
            r <= runs.len(),
            p == program(commands@),
            views == run_views(runs@),
            in_order(views, commands.len() as int),
            change_log(changes@) == merge_changes(p, views.take(r as int)),
        decreases runs.len() - r,
    {
        let (start, end) = runs[r];
        let ghost log = change_log(changes@);
        proof {
            assert(views[r as int] == (start as int, end as int));
        }
        let mut i: usize = start + 1;
        proof {
            assert(change_log(changes@) =~= log + run_changes(p, start as int, end as int).take(0));
        }
        while i < end
            invariant
                start < i <= end <= commands.len(),
                p == program(commands@),
                change_log(changes@) == log + run_changes(p, start as int, end as int).take(
                    i - start - 1,
                ),
            decreases end - i,
        {
            let ghost list = run_changes(p, start as int, end as int);
            proof {
                assert(p[i as int] == commands@[i as int]@);
                assert(list.take(i - start) =~= list.take(i - start - 1).push(list[i - start - 1]));
            }
            push_change(
                &mut changes,
                OptimizationChange {
                    line: commands[i].line,
                    description: owned("collinear move merged into preceding run"),
                },
            );
            i = i + 1;
            proof {
                assert(change_log(changes@) =~= log + list.take(i - start - 1));
            }
        }
        r = r + 1;
        proof {
            let list = run_changes(p, start as int, end as int);
            assert(list.take(end - start - 1) =~= list);
            assert(views.take(r as int).drop_last() =~= views.take(r - 1));
            assert(views.take(r as int).last() == views[r - 1]);
        }
    }
    proof {
        assert(views.take(r as int) =~= views);
    }
    if config.dry_run {
        return OptimizationResult { commands, changes };
    }
    // The targets of the merged moves, before the commands are taken apart.
    let mut moves: Vec<MoveAxes<N>> = Vec::new();
    let mut k: usize = 0;
    while k < runs.len()
        invariant
            k <= runs.len(),
            moves.len() == k,
            p == program(commands@),
            views == run_views(runs@),
            in_order(views, commands.len() as int),
            forall|m: int, i: int|
                0 <= m < runs.len() && runs[m].0 <= i < runs[m].1 ==> (#[trigger] p[i]).inner
                    is LinearMove && #[trigger] runs[m] == runs[m],
            forall|m: int|
                0 <= m < k ==> (#[trigger] moves[m]) == named(p, views[m].0, views[m].1),
        decreases runs.len() - k,
    {
        let (start, end) = runs[k];
        proof {
            assert(views[k as int] == (start as int, end as int));
            assert(runs[k as int] == runs[k as int]);
            assert forall|i: int| start <= i < end implies (#[trigger] p[i]).inner is LinearMove by {
                assert(runs[k as int] == runs[k as int]);
            }
        }
        moves.push(named_axes(&commands, start, end));
        k = k + 1;
    }
    let mut output: Vec<Spanned<GCodeCommand<'a, N>>> = Vec::new();
    let count: usize = commands.len();
    let mut next: usize = 0;
    let mut idx: usize = 0;
    proof {
        assert(views.take(0) =~= Seq::<(int, int)>::empty());
        assert(program(output@) =~= merged(p, views.take(0), 0));
    }
    for spanned in it: commands
        invariant
            it.seq() == all,
            all.len() == count,
            p == program(all),
            idx == it.index(),
            views == run_views(runs@),
            in_order(views, all.len() as int),
            moves.len() == runs.len(),
            next <= runs.len(),
            next < runs.len() ==> idx < views[next as int].1,
            next > 0 ==> views[next - 1].1 <= idx,
            forall|m: int|
                0 <= m < runs.len() ==> (#[trigger] moves[m]) == named(p, views[m].0, views[m].1),
            program(output@) == if next < runs.len() && views[next as int].0 < idx {
                merged(p, views.take(next as int), views[next as int].0).push(
                    merged_move(p, views[next as int].0, views[next as int].1),
                )
            } else {
                merged(p, views.take(next as int), idx as int)
            },
    {
        let ghost before = output@;
        let line = spanned.line;
        let byte_offset = spanned.byte_offset;
        proof {
            assert(p[idx as int] == spanned@);
            assert forall|m: int| 0 <= m < next implies (#[trigger] views[m]).1 <= idx by {
                if m < next - 1 {
                    assert(views[m].1 <= views[next - 1].0);
                    assert(views[next - 1].0 + 3 <= views[next - 1].1);
                }
            }
            assert(in_order(views.take(next as int), idx as int));
            lemma_merged_extends(p, views.take(next as int), idx as int);
            if next < runs.len() {
                assert(views[next as int] == (
                    runs[next as int].0 as int,
                    runs[next as int].1 as int,
                ));
            }
        }
        if next < runs.len() && idx >= runs[next].0 {
            if idx == runs[next].0 {
                let axes = moves[next];
                let merged_command = Spanned {
                    inner: GCodeCommand::LinearMove {
                        x: axes.x,
                        y: axes.y,
                        z: axes.z,
                        e: axes.e,
                        f: axes.f,
                    },
                    line,
                    byte_offset,
                };
                output.push(merged_command);
                proof {
                    assert(merged_command@ == merged_move(
                        p,
                        views[next as int].0,
                        views[next as int].1,
                    ));
                    assert(program(output@) =~= program(before).push(merged_command@));
                }
            }
            if idx + 1 == runs[next].1 {
                next = next + 1;
                proof {
                    let done = views.take(next as int);
                    assert(done.drop_last() =~= views.take(next - 1));
                    assert(done.last() == views[next - 1]);
                    assert(p.subrange(idx + 1, idx + 1) =~= Seq::<Spanned<Command<N>>>::empty());
                    assert(merged(p, done, idx + 1) =~= program(output@));
                    if next < runs.len() {
                        assert(views[next - 1].1 <= views[next as int].0);
                        assert(views[next as int].0 + 3 <= views[next as int].1);
                    }
                }
            }
        } else {
            output.push(spanned);
            proof {
                assert(program(output@) =~= program(before).push(p[idx as int]));
            }
        }
        idx = idx + 1;
    }
    proof {
        if next < runs.len() {
            assert(views[next as int].1 <= all.len());
        }
        assert(views.take(next as int) =~= views);
    }
    OptimizationResult { commands: output, changes }
}

// ── Laws ──────────────────────────────────────────────────────────────────────

/// Each run makes the program shorter by all its commands but one.
pub proof fn lemma_merge_shortens<N: Scalar>(
    p: Seq<Spanned<Command<N>>>,
    runs: Seq<(int, int)>,
    n: int,
)
    requires
        0 <= n <= p.len(),
        in_order(runs, n),
    ensures
        merged(p, runs, n).len() + merge_changes(p, runs).len() == n,
    decreases runs.len(),
{
    if runs.len() > 0 {
        let (start, end) = runs.last();
        assert(runs[runs.len() - 1] == (start, end));
        let rest = runs.drop_last();
        assert forall|k: int| 0 <= k < rest.len() implies 0 <= (#[trigger] rest[k]).0 && rest[k].0
            + 3 <= rest[k].1 && rest[k].1 <= start by {
            assert(rest[k] == runs[k]);
            assert(runs[k].1 <= runs[runs.len() - 1].0);
        }
        assert forall|k: int, m: int| 0 <= k < m < rest.len() implies (#[trigger] rest[k]).1 <= (
        #[trigger] rest[m]).0 by {
            assert(rest[k] == runs[k] && rest[m] == runs[m]);
        }
        lemma_merge_shortens(p, rest, start);
    }
}

/// The runs of a program are in order.
pub proof fn lemma_collinear_runs_in_order<N: Scalar>(p: Seq<Spanned<Command<N>>>)
    ensures
        in_order(collinear_runs(p), p.len() as int),
        forall|k: int, i: int|
            0 <= k < collinear_runs(p).len() && (#[trigger] collinear_runs(p)[k]).0 <= i
                < collinear_runs(p)[k].1 ==> (#[trigger] p[i]).inner is LinearMove,
{
    lemma_runs_in_order(p, p.len() as int);
}

proof fn lemma_runs_are_joined_so_far<N: Scalar>(p: Seq<Spanned<Command<N>>>, n: int)
    ensures
        forall|i: int|
            runs_before(p, n).start < i < n ==> #[trigger] joins(p, runs_before(p, n).start, i),
        forall|k: int, i: int|
            0 <= k < runs_before(p, n).runs.len() && runs_before(p, n).runs[k].0 < i
                < runs_before(p, n).runs[k].1 ==> #[trigger] joins(
                p,
                runs_before(p, n).runs[k].0,
                i,
            ),
    decreases n,
{
    if n > 0 {
        lemma_runs_are_joined_so_far(p, n - 1);
        let before = runs_before(p, n - 1);
        let now = runs_before(p, n);
        assert forall|i: int| now.start < i < n implies #[trigger] joins(p, now.start, i) by {
            if i < n - 1 {
                assert(joins(p, before.start, i));
            }
        }
        assert forall|k: int, i: int|
            0 <= k < now.runs.len() && now.runs[k].0 < i < now.runs[k].1 implies #[trigger] joins(
            p,
            now.runs[k].0,
            i,
        ) by {
            if k < before.runs.len() {
                assert(now.runs[k] == before.runs[k]);
                assert(joins(p, before.runs[k].0, i));
            } else {
                assert(now.runs[k] == (before.start, n - 1));
                assert(joins(p, before.start, i));
            }
        }
    }
}

/// Every command of a run but the first continues it.
pub proof fn lemma_runs_are_joined<N: Scalar>(p: Seq<Spanned<Command<N>>>)
    ensures
        forall|k: int, i: int|
            0 <= k < collinear_runs(p).len() && collinear_runs(p)[k].0 < i < collinear_runs(
                p,
            )[k].1 ==> #[trigger] joins(p, collinear_runs(p)[k].0, i),
{
    let n = p.len() as int;
    let s = runs_before(p, n);
    let all = collinear_runs(p);
    lemma_runs_are_joined_so_far(p, n);
    assert forall|k: int, i: int|
        0 <= k < all.len() && all[k].0 < i < all[k].1 implies #[trigger] joins(p, all[k].0, i) by {
        if k < s.runs.len() {
            assert(all[k] == s.runs[k]);
            assert(joins(p, s.runs[k].0, i));
        } else {
            assert(all[k] == (s.start, n));
            assert(joins(p, s.start, i));
        }
    }
}

/// Whether a command is anything but a G1.
pub open spec fn no_linear<N>() -> spec_fn(Spanned<Command<N>>) -> bool {
    |s: Spanned<Command<N>>| !(s.inner is LinearMove)
}

proof fn lemma_linear_part_is_filtered<N>(p: Seq<Spanned<Command<N>>>, start: int, end: int)
    requires
        0 <= start <= end <= p.len(),
        forall|i: int| start <= i < end ==> (#[trigger] p[i]).inner is LinearMove,
    ensures
        p.take(end).filter(no_linear()) == p.take(start).filter(no_linear()),
    decreases end - start,
{
    reveal(Seq::filter);
    if start < end {
        lemma_linear_part_is_filtered(p, start, end - 1);
        assert(p.take(end).drop_last() =~= p.take(end - 1));
        assert(p.take(end).last() == p[end - 1]);
    } else {
        assert(p.take(end) =~= p.take(start));
    }
}

/// Merging touches no command but G1: all others stay, in their order.
pub proof fn lemma_merge_keeps_other_commands<N: Scalar>(
    p: Seq<Spanned<Command<N>>>,
    runs: Seq<(int, int)>,
    n: int,
)
    requires
        0 <= n <= p.len(),
        in_order(runs, n),
        forall|k: int, i: int|
            0 <= k < runs.len() && (#[trigger] runs[k]).0 <= i < runs[k].1 ==> (#[trigger] p[i]).inner
                is LinearMove,
    ensures
        merged(p, runs, n).filter(no_linear()) == p.take(n).filter(no_linear()),
    decreases runs.len(),
{
    if runs.len() > 0 {
        let (start, end) = runs.last();
        assert(runs[runs.len() - 1] == (start, end));
        let rest = runs.drop_last();
        assert forall|k: int| 0 <= k < rest.len() implies 0 <= (#[trigger] rest[k]).0 && rest[k].0
            + 3 <= rest[k].1 && rest[k].1 <= start by {
            assert(rest[k] == runs[k]);
            assert(runs[k].1 <= runs[runs.len() - 1].0);
        }
        assert forall|k: int, m: int| 0 <= k < m < rest.len() implies (#[trigger] rest[k]).1 <= (
        #[trigger] rest[m]).0 by {
            assert(rest[k] == runs[k] && rest[m] == runs[m]);
        }
        assert forall|k: int, i: int|
            0 <= k < rest.len() && (#[trigger] rest[k]).0 <= i < rest[k].1 implies (
        #[trigger] p[i]).inner is LinearMove by {
            assert(rest[k] == runs[k]);
        }
        lemma_merge_keeps_other_commands(p, rest, start);
        let head = merged(p, rest, start);
        let one = merged_move(p, start, end);
        let tail = p.subrange(end, n);
        Seq::filter_distributes_over_add(head.push(one), tail, no_linear());
        assert(head.push(one).filter(no_linear()) == head.filter(no_linear())) by {
            reveal(Seq::filter);
            assert(head.push(one).drop_last() =~= head);
        }
        lemma_linear_part_is_filtered(p, start, end);
        assert(p.take(n) =~= p.take(end) + tail);
        Seq::filter_distributes_over_add(p.take(end), tail, no_linear());
    }
}

/// A program keeps all its commands but G1, in their order, under merging.
pub proof fn lemma_only_linear_moves_merge<N: Scalar>(p: Seq<Spanned<Command<N>>>)
    ensures
        merged(p, collinear_runs(p), p.len() as int).filter(no_linear()) == p.filter(no_linear()),
{
    lemma_collinear_runs_in_order(p);
    lemma_merge_keeps_other_commands(p, collinear_runs(p), p.len() as int);
    assert(p.take(p.len() as int) =~= p);
}

/// Where all commands of a run name the extruder, or none does, the merged move leads
/// it where the last command leads it; likewise for Z.
pub proof fn lemma_merged_move_ends_the_run<N: Scalar>(
    p: Seq<Spanned<Command<N>>>,
    start: int,
    end: int,
)
    requires
        start < end,
        forall|i: int| start < i < end ==> #[trigger] joins(p, start, i),
    ensures
        named(p, start, end).e == axes_at(p, end - 1).e,
        named(p, start, end).z == axes_at(p, end - 1).z,
        named(p, start, end).f == axes_at(p, start).f,
    decreases end - start,
{
    reveal_with_fuel(named, 2);
    if end - start > 1 {
        lemma_merged_move_ends_the_run(p, start, end - 1);
        assert(joins(p, start, end - 1));
        if end - start > 2 {
            assert(joins(p, start, end - 2));
        }
    }
}

} // verus!
