//! What fitted arcs draw, told from the moves of the program and the words of the
//! arcs alone.
//!
//! All laws are about decimal numbers, and are stated over whole numbers of
//! millionths.

use vstd::prelude::*;

use crate::analyzer::curves::lemma_angle_is_small;
use crate::arc_fitter::{
    arc_change, arc_command, circle_of, fit_state, fitted, is_arc, is_steady, least_span, on_circle,
    original, rates, runs_clockwise, same_pace, singular, span_of, turn, turns, window_points,
    CandidatePoint, Circle, FitState,
};
use crate::diagnostics::Change;
use crate::fixed::exact::{lemma_distance, lemma_product, square_distance};
use crate::fixed::{point_angle, Fixed};
use crate::geometry::{arc_span_spec, bearing, distance};
use crate::models::{Command, Spanned};
use crate::optimizer::{axes_of, has_relative, state_at, Tracker};
use crate::scalar::{ratio_spec, same_option_spec, sum_of, vanishes, Scalar};

verus! {

// ── What an arc has to be ─────────────────────────────────────────────────────

/// The position of the head in the plane before command `n`, in millionths.
pub open spec fn head(p: Seq<Spanned<Command<Fixed>>>, n: int) -> (int, int) {
    (state_at(p, n).x.millionths as int, state_at(p, n).y.millionths as int)
}

/// The feedrate of the G1 at `k`: its own, or the one in force, or 1500 mm/min, in
/// millionths.
pub open spec fn pace(p: Seq<Spanned<Command<Fixed>>>, k: int) -> int {
    match (axes_of(p[k].inner)->0.f, state_at(p, k).feedrate) {
        (Some(f), _) => f.millionths as int,
        (None, Some(f)) => f.millionths as int,
        (None, None) => 1_500_000_000,
    }
}

/// The square of the distance of two points, in millionths of millionths.
pub open spec fn square_between(a: (int, int), b: (int, int)) -> int {
    (b.0 - a.0) * (b.0 - a.0) + (b.1 - a.1) * (b.1 - a.1)
}

/// Twice the area that the head sweeps over as seen from `centre`, between commands `a`
/// and `b`: positive where it goes counter-clockwise.
pub open spec fn swept(
    p: Seq<Spanned<Command<Fixed>>>,
    centre: (int, int),
    a: int,
    b: int,
) -> int
    decreases b - a,
{
    if b <= a {
        0
    } else {
        let from = head(p, b - 1);
        let to = head(p, b);
        swept(p, centre, a, b - 1) + ((from.0 - centre.0) * (to.1 - centre.1) - (from.1 - centre.1)
            * (to.0 - centre.0))
    }
}

/// The words of an arc.
pub struct ArcWords<N> {
    pub clockwise: bool,
    pub x: Option<N>,
    pub y: Option<N>,
    pub z: Option<N>,
    pub e: Option<N>,
    pub f: Option<N>,
    pub i: Option<N>,
    pub j: Option<N>,
}

/// The words of a command, where it is an arc.
pub open spec fn words_of_arc<N>(command: Command<N>) -> Option<ArcWords<N>> {
    match command {
        Command::ArcMoveCW { x, y, z, e, f, i, j } => Some(
            ArcWords { clockwise: true, x, y, z, e, f, i, j },
        ),
        Command::ArcMoveCCW { x, y, z, e, f, i, j } => Some(
            ArcWords { clockwise: false, x, y, z, e, f, i, j },
        ),
        _ => None,
    }
}

/// The centre that an arc names: its I and J count from where the head is.
pub open spec fn named_centre(start: (int, int), words: ArcWords<Fixed>) -> (int, int) {
    (start.0 + (words.i->0).millionths, start.1 + (words.j->0).millionths)
}

/// Whether the head is on one circle about `centre` before each of the commands from
/// `a` to `b`: its distance from the centre is that of a radius between 0.5 and 1000 mm,
/// up to the tolerance and two millionths of rounding.
pub open spec fn is_on_one_circle(
    p: Seq<Spanned<Command<Fixed>>>,
    centre: (int, int),
    tolerance: int,
    a: int,
    b: int,
) -> bool {
    exists|r: int|
        500_000 <= r <= 1_000_000_000 && #[trigger] is_about(p, centre, r, tolerance, a, b)
}

/// Whether the head is at distance `r` from `centre` before each of the commands from
/// `a` to `b`.
pub open spec fn is_about(
    p: Seq<Spanned<Command<Fixed>>>,
    centre: (int, int),
    r: int,
    tolerance: int,
    a: int,
    b: int,
) -> bool {
    forall|k: int|
        a <= k <= b ==> {
            let s = square_between(centre, #[trigger] head(p, k));
            &&& tolerance <= r ==> (r - tolerance) * (r - tolerance) <= s
            &&& s < (r + tolerance + 1) * (r + tolerance + 1) + 2_000_000
        }
}

/// Whether an arc draws what the G1 moves from `a` up to `b` drew.
///
/// It begins where they begin and ends where they end, at their height, extruding to
/// where they extrude to, about the centre of one circle that all their ends lie on, at
/// their pace, and in the direction in which they go around the centre.
pub open spec fn draws(
    p: Seq<Spanned<Command<Fixed>>>,
    tolerance: int,
    a: int,
    b: int,
    arc: Command<Fixed>,
) -> bool {
    let words = words_of_arc(arc)->0;
    let centre = named_centre(head(p, a), words);
    &&& words_of_arc(arc) is Some
    &&& a + 3 <= b
    &&& forall|k: int|
        a <= k < b ==> (#[trigger] p[k]).inner is LinearMove && axes_of(p[k].inner)->0.e is Some
            && axes_of(p[k].inner)->0.z == words.z
    &&& words.x is Some && words.y is Some && words.i is Some && words.j is Some
    &&& ((words.x->0).millionths as int, (words.y->0).millionths as int) == head(p, b)
    &&& words.e == axes_of(p[b - 1].inner)->0.e
    &&& is_on_one_circle(p, centre, tolerance, a, b)
    &&& words.f is Some
    &&& forall|k: int|
        a <= k < b ==> -100_000 < #[trigger] pace(p, k) - (words.f->0).millionths < 100_000
    &&& goes_around(p, tolerance, a, b, centre, words.clockwise)
    &&& turn_about(centre, head(p, a), head(p, b), words.clockwise) >= 261_799
    &&& extrudes_steadily(p, a, b)
}

/// The angle at which `point` lies as seen from `centre`, in millionths of a radian.
pub open spec fn angle_of(centre: (int, int), point: (int, int)) -> int {
    point_angle(point.1 - centre.1, point.0 - centre.0)
}

/// The angle from one point to another around `centre` in the given direction, in
/// millionths of a radian; a full turn where they lie at the same angle.
pub open spec fn turn_about(
    centre: (int, int),
    from: (int, int),
    to: (int, int),
    clockwise: bool,
) -> int {
    let d = if clockwise {
        angle_of(centre, from) - angle_of(centre, to)
    } else {
        angle_of(centre, to) - angle_of(centre, from)
    };
    if d > 0 {
        d
    } else if d + 6_283_185 > 0 {
        d + 6_283_185
    } else {
        6_283_185
    }
}

/// How far the G1 at `k` pushes the extruder, in millionths.
pub open spec fn pushed(p: Seq<Spanned<Command<Fixed>>>, k: int) -> int {
    (axes_of(p[k].inner)->0.e->0).millionths - state_at(p, k).e.millionths
}

/// The length of the way of the G1 at `k` in the plane, in millionths.
pub open spec fn plane_way(p: Seq<Spanned<Command<Fixed>>>, k: int) -> int {
    distance(
        (state_at(p, k).x, state_at(p, k).y),
        (state_at(p, k + 1).x, state_at(p, k + 1).y),
    ).millionths as int
}

/// What the G1 at `k` pushes per millimetre, in millionths, rounded down.
pub open spec fn flow(p: Seq<Spanned<Command<Fixed>>>, k: int) -> int {
    (pushed(p, k) * 1_000_000) / plane_way(p, k)
}

/// Whether the G1 at `k` has a length and pushes forward, neither beyond any printer.
pub open spec fn is_printing(p: Seq<Spanned<Command<Fixed>>>, k: int) -> bool {
    &&& -500_000_000_000 <= state_at(p, k).e.millionths <= 500_000_000_000
    &&& 0 < pushed(p, k) <= 500_000_000_000
    &&& 0 < plane_way(p, k)
    &&& 1 <= flow(p, k) <= 1_000_000_000_000
}

/// Whether, where all moves from `a` up to `b` print, what any two of them push per
/// millimetre differs by at most one part in 49: each is within one percent of the mean.
pub open spec fn extrudes_steadily(p: Seq<Spanned<Command<Fixed>>>, a: int, b: int) -> bool {
    (b - a <= 1_000_000 && forall|k: int| a <= k < b ==> #[trigger] is_printing(p, k))
        ==> forall|k: int, l: int|
        a <= k < b && a <= l < b ==> 49 * (#[trigger] flow(p, k) - #[trigger] flow(p, l)) <= flow(
            p,
            l,
        )
}

/// Whether the head goes around `centre` in the given direction, up to rounding.
pub open spec fn goes_around(
    p: Seq<Spanned<Command<Fixed>>>,
    tolerance: int,
    a: int,
    b: int,
    centre: (int, int),
    clockwise: bool,
) -> bool {
    b - a <= 1_000_000 && tolerance <= 1_000_000_000 ==> if clockwise {
        swept(p, centre, a, b) < 2_000_000 * (b - a)
    } else {
        swept(p, centre, a, b) > -2_000_000 * (b - a) - 1_000_000
    }
}

/// Whether `out` is the first `n` commands of `p`, with runs of G1 moves replaced by
/// arcs that draw what they drew: the command at `k` of `out` stands for those from
/// `cuts[k]` up to `cuts[k + 1]` of `p`.
pub open spec fn redraws(
    out: Seq<Spanned<Command<Fixed>>>,
    p: Seq<Spanned<Command<Fixed>>>,
    tolerance: int,
    cuts: Seq<int>,
    n: int,
) -> bool {
    &&& cuts.len() == out.len() + 1
    &&& cuts[0] == 0
    &&& cuts.last() == n
    &&& forall|k: int| 0 <= k < out.len() ==> #[trigger] stands_at(out, p, tolerance, cuts, k)
}

/// Whether the command at `k` of `out` stands for those from `cuts[k]` up to
/// `cuts[k + 1]` of `p`.
pub open spec fn stands_at(
    out: Seq<Spanned<Command<Fixed>>>,
    p: Seq<Spanned<Command<Fixed>>>,
    tolerance: int,
    cuts: Seq<int>,
    k: int,
) -> bool {
    ||| cuts[k + 1] == cuts[k] + 1 && out[k] == p[cuts[k]]
    ||| draws(p, tolerance, cuts[k], cuts[k + 1], out[k].inner) && out[k].line == p[cuts[k]].line
}

/// The lines of `p` where the runs that became one command begin, among the first `n`
/// that `cuts` makes.
pub open spec fn replaced_lines(
    p: Seq<Spanned<Command<Fixed>>>,
    cuts: Seq<int>,
    n: int,
) -> Seq<u32>
    decreases n,
{
    if n <= 0 {
        Seq::empty()
    } else if cuts[n] > cuts[n - 1] + 1 {
        replaced_lines(p, cuts, n - 1).push(p[cuts[n - 1]].line)
    } else {
        replaced_lines(p, cuts, n - 1)
    }
}

/// Whether there is one change for each run that was replaced, in order, which names
/// the line where the run begins.
pub open spec fn records(
    changes: Seq<Change>,
    p: Seq<Spanned<Command<Fixed>>>,
    cuts: Seq<int>,
) -> bool {
    let lines = replaced_lines(p, cuts, cuts.len() - 1);
    &&& changes.len() == lines.len()
    &&& forall|k: int| 0 <= k < lines.len() ==> (#[trigger] changes[k]).line == lines[k]
}

// ── Proof ─────────────────────────────────────────────────────────────────────

proof fn lemma_replaced_lines_of_prefix(
    p: Seq<Spanned<Command<Fixed>>>,
    cuts: Seq<int>,
    more: Seq<int>,
    n: int,
)
    requires
        n < cuts.len() <= more.len(),
        forall|k: int| 0 <= k <= n ==> more[k] == #[trigger] cuts[k],
    ensures
        replaced_lines(p, more, n) == replaced_lines(p, cuts, n),
    decreases n,
{
    if n > 0 {
        lemma_replaced_lines_of_prefix(p, cuts, more, n - 1);
        assert(more[n] == cuts[n]);
        assert(more[n - 1] == cuts[n - 1]);
    }
}

/// Commands that stand for themselves replace nothing.
proof fn lemma_single_cuts_replace_nothing(
    p: Seq<Spanned<Command<Fixed>>>,
    cuts: Seq<int>,
    m: int,
    n: int,
)
    requires
        0 <= m <= n < cuts.len(),
        forall|k: int| m < k <= n ==> #[trigger] cuts[k] == cuts[m] + (k - m),
    ensures
        replaced_lines(p, cuts, n) == replaced_lines(p, cuts, m),
    decreases n,
{
    if m < n {
        lemma_single_cuts_replace_nothing(p, cuts, m, n - 1);
        assert(cuts[n] == cuts[m] + (n - m));
        if n - 1 > m {
            assert(cuts[n - 1] == cuts[m] + (n - 1 - m));
        }
    }
}

/// Whether the window holds the last moves before `n`, as the program has them.
pub open spec fn holds_the_last_moves(
    p: Seq<Spanned<Command<Fixed>>>,
    s: FitState<Fixed>,
    n: int,
) -> bool {
    let w = s.window.len() as int;
    &&& w <= n
    &&& s.x == state_at(p, n).x
    &&& s.y == state_at(p, n).y
    &&& s.feed == state_at(p, n).feedrate
    &&& s.e == state_at(p, n).e
    &&& forall|k: int| 0 <= k < w ==> #[trigger] is_move_at(p, s.window[k], n - w + k)
}

/// Whether a point is that of the G1 at `k`.
pub open spec fn is_move_at(
    p: Seq<Spanned<Command<Fixed>>>,
    pt: CandidatePoint<Fixed>,
    k: int,
) -> bool {
    &&& original(pt) == p[k]
    &&& pt.from == (state_at(p, k).x, state_at(p, k).y)
    &&& pt.to == (state_at(p, k + 1).x, state_at(p, k + 1).y)
    &&& pt.feedrate.millionths == pace(p, k)
    &&& pt.e_delta == (match pt.e {
        Some(v) => Some(v.minus_spec(state_at(p, k).e)),
        None => None,
    })
}

proof fn lemma_absolute(p: Seq<Spanned<Command<Fixed>>>, n: int)
    requires
        0 <= n <= p.len(),
        !has_relative(p),
    ensures
        state_at(p, n).is_absolute,
    decreases n,
{
    if n > 0 {
        lemma_absolute(p, n - 1);
        assert(!(p[n - 1].inner is SetRelative));
    }
}

proof fn lemma_point_is_the_move(
    p: Seq<Spanned<Command<Fixed>>>,
    s: FitState<Fixed>,
    n: int,
)
    requires
        0 <= n < p.len(),
        !has_relative(p),
        p[n].inner is LinearMove,
        s.x == state_at(p, n).x,
        s.y == state_at(p, n).y,
        s.e == state_at(p, n).e,
        s.feed == state_at(p, n).feedrate,
    ensures
        is_move_at(p, s.point(p[n]), n),
{
    lemma_absolute(p, n);
    assert(Fixed::of_spec(1_500).millionths == 1_500_000_000);
}

/// The pass has the head where the optimizer has it, and the same feedrate in force.
proof fn lemma_pass_tracks<N: Scalar>(
    s: FitState<N>,
    t: Tracker<N>,
    c: Spanned<Command<N>>,
    tolerance: N,
)
    requires
        t.is_absolute,
        s.x == t.x,
        s.y == t.y,
        s.e == t.e,
        s.feed == t.feedrate,
    ensures
        s.after(c, tolerance).x == t.after(c.inner).x,
        s.after(c, tolerance).y == t.after(c.inner).y,
        s.after(c, tolerance).e == t.after(c.inner).e,
        s.after(c, tolerance).feed == t.after(c.inner).feedrate,
{
}

proof fn lemma_window_after<N: Scalar>(s: FitState<N>, c: Spanned<Command<N>>, tolerance: N)
    ensures
        !(c.inner is LinearMove) ==> s.after(c, tolerance).window.len() == 0,
        c.inner is LinearMove ==> s.after(c, tolerance).window == s.window.push(s.point(c))
            || s.after(c, tolerance).window == seq![s.point(c)],
{
    if c.inner is LinearMove {
        let pt = s.point(c);
        let done = s.flushed(tolerance);
        assert(done.window.push(pt) =~= seq![pt]);
    }
}

/// The window holds the last moves of the program.
pub proof fn lemma_window_holds_the_last_moves(
    p: Seq<Spanned<Command<Fixed>>>,
    tolerance: Fixed,
    n: int,
)
    requires
        0 <= n <= p.len(),
        !has_relative(p),
    ensures
        holds_the_last_moves(p, fit_state(p, tolerance, n), n),
    decreases n,
{
    if n > 0 {
        lemma_window_holds_the_last_moves(p, tolerance, n - 1);
        lemma_absolute(p, n - 1);
        let s = fit_state(p, tolerance, n - 1);
        let after = fit_state(p, tolerance, n);
        let c = p[n - 1];
        assert(after == s.after(c, tolerance));
        lemma_pass_tracks(s, state_at(p, n - 1), c, tolerance);
        lemma_window_after(s, c, tolerance);
        if c.inner is LinearMove {
            lemma_point_is_the_move(p, s, n - 1);
        }
        lemma_window_moves_on(p, s, after, n);
    }
}

proof fn lemma_window_moves_on(
    p: Seq<Spanned<Command<Fixed>>>,
    s: FitState<Fixed>,
    after: FitState<Fixed>,
    n: int,
)
    requires
        0 < n,
        holds_the_last_moves(p, s, n - 1),
        after.window.len() == 0 || is_move_at(p, s.point(p[n - 1]), n - 1) && (after.window
            == s.window.push(s.point(p[n - 1])) || after.window == seq![s.point(p[n - 1])]),
        after.x == state_at(p, n).x,
        after.y == state_at(p, n).y,
        after.e == state_at(p, n).e,
        after.feed == state_at(p, n).feedrate,
    ensures
        holds_the_last_moves(p, after, n),
{
    let w = s.window.len() as int;
    let pt = s.point(p[n - 1]);
    assert forall|k: int| 0 <= k < after.window.len() implies #[trigger] is_move_at(
        p,
        after.window[k],
        n - after.window.len() + k,
    ) by {
        if after.window == s.window.push(pt) && k < w {
            assert(is_move_at(p, s.window[k], n - 1 - w + k));
        }
    }
}

/// A point that is on the circle is at its distance from the centre.
proof fn lemma_on_circle(point: (Fixed, Fixed), circle: Circle<Fixed>, tolerance: Fixed)
    requires
        on_circle(point, circle, tolerance),
        500_000 <= circle.r.millionths <= 1_000_000_000,
        tolerance.millionths <= 1_000_000_000_000,
    ensures
        ({
            let s = square_distance((circle.cx, circle.cy), point);
            let r = circle.r.millionths as int;
            let t = tolerance.millionths as int;
            &&& t <= r ==> (r - t) * (r - t) <= s
            &&& s < (r + t + 1) * (r + t + 1) + 2_000_000
        }),
{
    let centre = (circle.cx, circle.cy);
    let d = distance(centre, point).millionths as int;
    let r = circle.r.millionths as int;
    let t = tolerance.millionths as int;
    lemma_distance(centre, point);
    let s = square_distance(centre, point);
    assert(d - r <= t && r - d <= t);
    assert(d <= 3_000_000_000_000);
    if t <= r {
        assert((r - t) * (r - t) <= d * d) by (nonlinear_arith)
            requires
                0 <= r - t <= d,
        ;
    }
    assert((d + 1) * (d + 1) <= (r + t + 1) * (r + t + 1)) by (nonlinear_arith)
        requires
            0 <= d + 1 <= r + t + 1,
    ;
}

/// A coordinate is no further than the distance.
proof fn lemma_coordinate_within(dx: int, dy: int, bound: int)
    requires
        dx * dx + dy * dy < bound * bound,
        0 <= bound,
    ensures
        -bound < dx < bound,
        -bound < dy < bound,
{
    assert(-bound < dx < bound) by (nonlinear_arith)
        requires
            dx * dx + dy * dy < bound * bound,
            0 <= bound,
    ;
    assert(-bound < dy < bound) by (nonlinear_arith)
        requires
            dx * dx + dy * dy < bound * bound,
            0 <= bound,
    ;
}

proof fn lemma_near_the_centre(centre: (Fixed, Fixed), point: (Fixed, Fixed), reach: int)
    requires
        square_distance(centre, point) < (reach + 1) * (reach + 1) + 2_000_000,
        0 <= reach <= 1_001_000_000_000,
    ensures
        -1_001_000_010_000 < point.0.millionths - centre.0.millionths < 1_001_000_010_000,
        -1_001_000_010_000 < point.1.millionths - centre.1.millionths < 1_001_000_010_000,
        reach <= 2_000_000_000 ==> -2_000_010_000 < point.0.millionths - centre.0.millionths
            < 2_000_010_000 && -2_000_010_000 < point.1.millionths - centre.1.millionths
            < 2_000_010_000,
{
    let dx = point.0.millionths - centre.0.millionths;
    let dy = point.1.millionths - centre.1.millionths;
    let bound = reach + 10_000;
    assert((reach + 1) * (reach + 1) + 2_000_000 < bound * bound) by (nonlinear_arith)
        requires
            bound == reach + 10_000,
            reach >= 0,
    ;
    lemma_coordinate_within(dx, dy, bound);
}

/// The sum of the cross products is the area that the head sweeps over, up to rounding.
proof fn lemma_turns(
    p: Seq<Spanned<Command<Fixed>>>,
    points: Seq<(Fixed, Fixed)>,
    centre: (Fixed, Fixed),
    a: int,
    m: int,
)
    requires
        1 <= m <= points.len(),
        m <= 1_000_001,
        forall|k: int|
            0 <= k < points.len()
                ==> ((#[trigger] points[k]).0.millionths as int, points[k].1.millionths as int)
                == head(p, a + k) && -2_000_010_000 < points[k].0.millionths - centre.0.millionths
                < 2_000_010_000 && -2_000_010_000 < points[k].1.millionths - centre.1.millionths
                < 2_000_010_000,
    ensures
        ({
            let sum = turns(points, centre, m).millionths as int;
            let area = swept(
                p,
                (centre.0.millionths as int, centre.1.millionths as int),
                a,
                a + m - 1,
            );
            &&& -9_000_000_000_000 * (m - 1) <= sum <= 9_000_000_000_000 * (m - 1)
            &&& -2_000_000 * (m - 1) <= sum * 1_000_000 - area <= 2_000_000 * (m - 1)
        }),
    decreases m,
{
    if m > 1 {
        lemma_turns(p, points, centre, a, m - 1);
        let before = turns(points, centre, m - 1);
        let one = turn(points[m - 2], points[m - 1], centre);
        assert(((points[m - 2]).0.millionths as int, points[m - 2].1.millionths as int)
            == head(p, a + (m - 2)));
        assert(((points[m - 1]).0.millionths as int, points[m - 1].1.millionths as int)
            == head(p, a + (m - 1)));
        lemma_turn(points[m - 2], points[m - 1], centre);
        assert(turns(points, centre, m) == before.plus_spec(one));
        assert(a + m - 1 - 1 == a + (m - 2));
    }
}

/// One cross product, up to rounding.
proof fn lemma_turn(from: (Fixed, Fixed), to: (Fixed, Fixed), centre: (Fixed, Fixed))
    requires
        -2_000_010_000 < from.0.millionths - centre.0.millionths < 2_000_010_000,
        -2_000_010_000 < from.1.millionths - centre.1.millionths < 2_000_010_000,
        -2_000_010_000 < to.0.millionths - centre.0.millionths < 2_000_010_000,
        -2_000_010_000 < to.1.millionths - centre.1.millionths < 2_000_010_000,
    ensures
        ({
            let one = turn(from, to, centre).millionths as int;
            let exact = (from.0.millionths - centre.0.millionths) * (to.1.millionths
                - centre.1.millionths) - (from.1.millionths - centre.1.millionths) * (
            to.0.millionths - centre.0.millionths);
            &&& -9_000_000_000_000 <= one <= 9_000_000_000_000
            &&& -2_000_000 <= one * 1_000_000 - exact <= 2_000_000
        }),
{
    let ax = from.0.minus_spec(centre.0);
    let ay = from.1.minus_spec(centre.1);
    let bx = to.0.minus_spec(centre.0);
    let by = to.1.minus_spec(centre.1);
    lemma_product(ax, by);
    lemma_product(ay, bx);
    lemma_product_bound(ax.millionths as int, by.millionths as int);
    lemma_product_bound(ay.millionths as int, bx.millionths as int);
    assert(turn(from, to, centre) == ax.times_spec(by).minus_spec(ay.times_spec(bx)));
}

proof fn lemma_product_bound(x: int, y: int)
    requires
        -2_000_010_000 < x < 2_000_010_000,
        -2_000_010_000 < y < 2_000_010_000,
    ensures
        -4_000_100_000_000_000_000 < x * y < 4_000_100_000_000_000_000,
{
    assert(-4_000_100_000_000_000_000 < x * y < 4_000_100_000_000_000_000) by (nonlinear_arith)
        requires
            -2_000_010_000 < x < 2_000_010_000,
            -2_000_010_000 < y < 2_000_010_000,
    ;
}

/// The bounds of radii, spans and paces as numbers.
proof fn lemma_bounds()
    ensures
        ratio_spec::<Fixed>(1, 2).millionths == 500_000,
        ratio_spec::<Fixed>(1, 10).millionths == 100_000,
        Fixed::of_spec(1_000).millionths == 1_000_000_000,
{
    assert(Fixed::of_spec(1).millionths == 1_000_000);
    assert(Fixed::of_spec(2).millionths == 2_000_000);
    assert(Fixed::of_spec(10).millionths == 10_000_000);
    assert(1_000_000nat * 1_000_000 / 2_000_000 == 500_000);
    assert(1_000_000nat * 1_000_000 / 10_000_000 == 100_000);
}

/// Where the points of a window are those of the moves from `a` up to `b`, its circle
/// is one that the head is on.
proof fn lemma_window_is_on_one_circle(
    p: Seq<Spanned<Command<Fixed>>>,
    points: Seq<(Fixed, Fixed)>,
    circle: Circle<Fixed>,
    tolerance: Fixed,
    a: int,
    b: int,
)
    requires
        points.len() == b - a + 1,
        forall|k: int|
            0 <= k < points.len()
                ==> ((#[trigger] points[k]).0.millionths as int, points[k].1.millionths as int)
                == head(p, a + k),
        forall|k: int|
            0 <= k < points.len() ==> on_circle(#[trigger] points[k], circle, tolerance),
        500_000 <= circle.r.millionths <= 1_000_000_000,
        tolerance.millionths <= 1_000_000_000_000,
    ensures
        is_on_one_circle(
            p,
            (circle.cx.millionths as int, circle.cy.millionths as int),
            tolerance.millionths as int,
            a,
            b,
        ),
{
    let centre = (circle.cx.millionths as int, circle.cy.millionths as int);
    let r = circle.r.millionths as int;
    let t = tolerance.millionths as int;
    assert forall|k: int| a <= k <= b implies {
        let s = square_between(centre, #[trigger] head(p, k));
        &&& t <= r ==> (r - t) * (r - t) <= s
        &&& s < (r + t + 1) * (r + t + 1) + 2_000_000
    } by {
        let point = points[k - a];
        assert((point.0.millionths as int, point.1.millionths as int) == head(p, a + (k - a)));
        lemma_on_circle(point, circle, tolerance);
    }
    assert(is_about(p, centre, r, t, a, b));
}

/// The points of a window are where its moves lead.
proof fn lemma_window_points(p: Seq<Spanned<Command<Fixed>>>, window: Seq<CandidatePoint<Fixed>>,
    a: int)
    requires
        window.len() > 0,
        forall|k: int| 0 <= k < window.len() ==> #[trigger] is_move_at(p, window[k], a + k),
    ensures
        window_points(window).len() == window.len() + 1,
        forall|k: int|
            0 <= k <= window.len()
                ==> ((#[trigger] window_points(window)[k]).0.millionths as int,
                window_points(window)[k].1.millionths as int)
                == head(p, a + k),
{
    let points = window_points(window);
    assert forall|k: int| 0 <= k <= window.len()
        implies ((#[trigger] points[k]).0.millionths as int, points[k].1.millionths as int)
        == head(p, a + k) by {
        if k == 0 {
            assert(is_move_at(p, window[0], a + 0));
        } else {
            assert(is_move_at(p, window[k - 1], a + (k - 1)));
        }
    }
}

/// What is known of a window that is an arc, and the words of that arc.
proof fn lemma_arc_facts<N: Scalar>(window: Seq<CandidatePoint<N>>, tolerance: N)
    requires
        is_arc(window, tolerance),
    ensures
        ({
            let points = window_points(window);
            let circle = circle_of(points)->0;
            &&& window.len() >= 3
            &&& !circle.r.less_spec(ratio_spec(1, 2))
            &&& !N::of_spec(1_000).less_spec(circle.r)
            &&& forall|k: int|
                0 <= k < points.len() ==> on_circle(#[trigger] points[k], circle, tolerance)
            &&& forall|k: int|
                0 <= k < window.len() ==> (#[trigger] window[k]).e_delta is Some
                    && same_option_spec(window[k].z, window[0].z) && same_pace(
                    window[k].feedrate,
                    window[0].feedrate,
                )
            &&& !span_of(points, circle).less_spec(least_span())
            &&& is_steady(rates(window, window.len() as int))
            &&& words_of_arc(arc_command(window).inner) == Some(
                ArcWords {
                    clockwise: runs_clockwise(points, (circle.cx, circle.cy)),
                    x: Some(window.last().to.0),
                    y: Some(window.last().to.1),
                    z: window.last().z,
                    e: window.last().e,
                    f: Some(window[0].feedrate),
                    i: Some(circle.cx.minus_spec(window[0].from.0)),
                    j: Some(circle.cy.minus_spec(window[0].from.1)),
                },
            )
        }),
        arc_command(window).line == window[0].line,
{
}

/// The head goes around the centre as the sum of the cross products says.
proof fn lemma_goes_around(
    p: Seq<Spanned<Command<Fixed>>>,
    points: Seq<(Fixed, Fixed)>,
    circle: Circle<Fixed>,
    tolerance: Fixed,
    a: int,
    b: int,
)
    requires
        a < b,
        points.len() == b - a + 1,
        forall|k: int|
            0 <= k < points.len()
                ==> ((#[trigger] points[k]).0.millionths as int, points[k].1.millionths as int)
                == head(p, a + k),
        forall|k: int|
            0 <= k < points.len() ==> on_circle(#[trigger] points[k], circle, tolerance),
        500_000 <= circle.r.millionths <= 1_000_000_000,
        0 <= tolerance.millionths,
    ensures
        goes_around(
            p,
            tolerance.millionths as int,
            a,
            b,
            (circle.cx.millionths as int, circle.cy.millionths as int),
            runs_clockwise(points, (circle.cx, circle.cy)),
        ),
{
    let c = (circle.cx, circle.cy);
    let t = tolerance.millionths as int;
    if b - a <= 1_000_000 && t <= 1_000_000_000 {
        assert forall|k: int| 0 <= k < points.len()
            implies ((#[trigger] points[k]).0.millionths as int, points[k].1.millionths as int)
            == head(p, a + k) && -2_000_010_000 < points[k].0.millionths - c.0.millionths
            < 2_000_010_000 && -2_000_010_000 < points[k].1.millionths - c.1.millionths
            < 2_000_010_000 by {
            lemma_on_circle(points[k], circle, tolerance);
            lemma_near_the_centre(c, points[k], circle.r.millionths + t);
        }
        lemma_turns(p, points, c, a, points.len() as int);
    }
}

/// A tolerance that a point meets is not negative.
proof fn lemma_tolerance_is_met(point: (Fixed, Fixed), circle: Circle<Fixed>, tolerance: Fixed)
    requires
        on_circle(point, circle, tolerance),
    ensures
        0 <= tolerance.millionths,
{
}

/// I and J lead from the start to the centre.
proof fn lemma_offsets(start: (Fixed, Fixed), circle: Circle<Fixed>, tolerance: Fixed)
    requires
        on_circle(start, circle, tolerance),
        500_000 <= circle.r.millionths <= 1_000_000_000,
        tolerance.millionths <= 1_000_000_000_000,
    ensures
        start.0.millionths + circle.cx.minus_spec(start.0).millionths == circle.cx.millionths,
        start.1.millionths + circle.cy.minus_spec(start.1).millionths == circle.cy.millionths,
{
    lemma_tolerance_is_met(start, circle, tolerance);
    lemma_on_circle(start, circle, tolerance);
    lemma_near_the_centre(
        (circle.cx, circle.cy),
        start,
        circle.r.millionths + tolerance.millionths,
    );
}

proof fn lemma_same_pace(a: Fixed, b: Fixed)
    requires
        same_pace(a, b),
    ensures
        -100_000 < a.millionths - b.millionths < 100_000,
{
    lemma_bounds();
}

proof fn lemma_same_height(a: Option<Fixed>, b: Option<Fixed>)
    requires
        same_option_spec(a, b),
    ensures
        a == b,
{
}

/// An arc draws what the moves of its window drew.
#[verifier::rlimit(30)]
proof fn lemma_arc_draws(
    p: Seq<Spanned<Command<Fixed>>>,
    window: Seq<CandidatePoint<Fixed>>,
    tolerance: Fixed,
    a: int,
)
    requires
        is_arc(window, tolerance),
        tolerance.millionths <= 1_000_000_000_000,
        forall|k: int| 0 <= k < window.len() ==> #[trigger] is_move_at(p, window[k], a + k),
    ensures
        draws(
            p,
            tolerance.millionths as int,
            a,
            a + window.len(),
            arc_command(window).inner,
        ),
        arc_command(window).line == p[a].line,
{
    let b = a + window.len();
    let points = window_points(window);
    let circle = circle_of(points)->0;
    let arc = arc_command(window);
    let last = window.len() - 1;
    lemma_arc_facts(window, tolerance);
    lemma_bounds();
    let words = words_of_arc(arc.inner)->0;
    lemma_window_points(p, window, a);
    lemma_window_is_on_one_circle(p, points, circle, tolerance, a, b);
    assert(is_move_at(p, window[0], a + 0));
    assert(is_move_at(p, window[last], a + last));
    assert(window.last() == window[last]);
    assert(on_circle(points[0], circle, tolerance));
    lemma_tolerance_is_met(points[0], circle, tolerance);
    lemma_offsets(points[0], circle, tolerance);
    assert(points[0] == window[0].from);
    assert((points[0].0.millionths as int, points[0].1.millionths as int) == head(p, a + 0));
    assert(named_centre(head(p, a), words) == (
        circle.cx.millionths as int,
        circle.cy.millionths as int,
    ));
    lemma_same_height(window[last].z, window[0].z);
    assert forall|k: int| a <= k < b implies (#[trigger] p[k]).inner is LinearMove && axes_of(
        p[k].inner,
    )->0.e is Some && axes_of(p[k].inner)->0.z == words.z by {
        let pt = window[k - a];
        assert(is_move_at(p, window[k - a], a + (k - a)));
        assert(original(pt) == p[k]);
        lemma_same_height(pt.z, window[0].z);
    }
    assert forall|k: int| a <= k < b implies -100_000 < #[trigger] pace(p, k) - (
    words.f->0).millionths < 100_000 by {
        let pt = window[k - a];
        assert(is_move_at(p, window[k - a], a + (k - a)));
        lemma_same_pace(pt.feedrate, window[0].feedrate);
    }
    lemma_goes_around(p, points, circle, tolerance, a, b);
    lemma_spans_enough(p, points, circle, tolerance, a, b);
    lemma_extrudes_steadily(p, window, a);
}

/// The smallest span in millionths of a radian.
pub proof fn lemma_least_span()
    ensures
        least_span::<Fixed>().millionths == 261_799,
{
    assert(Fixed::of_spec(15).millionths == 15_000_000);
    assert(15_000_000nat * 3_141_593 / 1_000_000 == 47_123_895);
    assert(Fixed::of_spec(180).millionths == 180_000_000);
    assert(47_123_895nat * 1_000_000 / 180_000_000 == 261_799);
    assert(Fixed::of_spec(1).millionths == 1_000_000);
    assert(Fixed::of_spec(1_000_000_000).millionths == 1_000_000_000_000_000);
    assert(1_000_000nat * 1_000_000 / 1_000_000_000_000_000 == 0);
}

/// The bearing of a point near the centre is its angle.
pub proof fn lemma_bearing(centre: (Fixed, Fixed), point: (Fixed, Fixed))
    requires
        -1_001_000_010_000 < point.0.millionths - centre.0.millionths < 1_001_000_010_000,
        -1_001_000_010_000 < point.1.millionths - centre.1.millionths < 1_001_000_010_000,
    ensures
        bearing(centre, point).millionths == point_angle(
            point.1.millionths - centre.1.millionths,
            point.0.millionths - centre.0.millionths,
        ),
{
    lemma_angle_is_small(
        point.1.millionths - centre.1.millionths,
        point.0.millionths - centre.0.millionths,
    );
}

proof fn lemma_spans_enough(
    p: Seq<Spanned<Command<Fixed>>>,
    points: Seq<(Fixed, Fixed)>,
    circle: Circle<Fixed>,
    tolerance: Fixed,
    a: int,
    b: int,
)
    requires
        a < b,
        points.len() == b - a + 1,
        forall|k: int|
            0 <= k < points.len()
                ==> ((#[trigger] points[k]).0.millionths as int, points[k].1.millionths as int)
                == head(p, a + k),
        forall|k: int|
            0 <= k < points.len() ==> on_circle(#[trigger] points[k], circle, tolerance),
        500_000 <= circle.r.millionths <= 1_000_000_000,
        0 <= tolerance.millionths <= 1_000_000_000_000,
        !span_of(points, circle).less_spec(least_span()),
    ensures
        turn_about(
            (circle.cx.millionths as int, circle.cy.millionths as int),
            head(p, a),
            head(p, b),
            runs_clockwise(points, (circle.cx, circle.cy)),
        ) >= 261_799,
{
    let c = (circle.cx, circle.cy);
    let last = b - a;
    let reach = circle.r.millionths + tolerance.millionths;
    lemma_least_span();
    assert(points.last() == points[last]);
    lemma_on_circle(points[0], circle, tolerance);
    lemma_near_the_centre(c, points[0], reach);
    lemma_on_circle(points[last], circle, tolerance);
    lemma_near_the_centre(c, points[last], reach);
    lemma_bearing(c, points[0]);
    lemma_bearing(c, points[last]);
    assert((points[0].0.millionths as int, points[0].1.millionths as int) == head(p, a + 0));
    assert((points[last].0.millionths as int, points[last].1.millionths as int) == head(p, a
        + last));
    let cw = runs_clockwise(points, c);
    let from = bearing(c, points[0]);
    let to = bearing(c, points[last]);
    assert(span_of(points, circle) == arc_span_spec(from, to, cw));
    lemma_angle_is_small(
        points[0].1.millionths - c.1.millionths,
        points[0].0.millionths - c.0.millionths,
    );
    lemma_angle_is_small(
        points[last].1.millionths - c.1.millionths,
        points[last].0.millionths - c.0.millionths,
    );
    lemma_span_of_angles(from, to, cw);
}

/// The span between two angles.
pub proof fn lemma_span_of_angles(from: Fixed, to: Fixed, clockwise: bool)
    requires
        -3_141_593 <= from.millionths <= 3_141_593,
        -3_141_593 <= to.millionths <= 3_141_593,
    ensures
        ({
            let d = if clockwise {
                from.millionths - to.millionths
            } else {
                to.millionths - from.millionths
            };
            arc_span_spec(from, to, clockwise).millionths == if d > 0 {
                d
            } else if d + 6_283_185 > 0 {
                d + 6_283_185
            } else {
                6_283_185
            }
        }),
{
    let tiny = ratio_spec::<Fixed>(1, 10_000_000_000);
    assert(Fixed::of_spec(10_000_000_000).millionths == 10_000_000_000_000_000);
    assert(1_000_000nat * 1_000_000 / 10_000_000_000_000_000 == 0);
    assert(tiny.millionths == 0);
}

/// The rates of a window whose moves all print are their flows.
pub proof fn lemma_rates(
    p: Seq<Spanned<Command<Fixed>>>,
    window: Seq<CandidatePoint<Fixed>>,
    a: int,
    n: int,
)
    requires
        0 <= n <= window.len(),
        forall|k: int| 0 <= k < window.len() ==> #[trigger] is_move_at(p, window[k], a + k),
        forall|k: int| 0 <= k < window.len() ==> (#[trigger] window[k]).e is Some,
        forall|k: int| a <= k < a + window.len() ==> #[trigger] is_printing(p, k),
    ensures
        rates(window, n).len() == n,
        forall|k: int| 0 <= k < n ==> (#[trigger] rates(window, n)[k]).millionths == flow(p, a + k),
    decreases n,
{
    if n > 0 {
        lemma_rates(p, window, a, n - 1);
        let k = n - 1;
        let pt = window[k];
        assert(is_move_at(p, window[k], a + k));
        assert(window[k].e is Some);
        assert(is_printing(p, a + k));
        lemma_rate(p, pt, a + k);
        let before = rates(window, n - 1);
        let len = distance(pt.from, pt.to);
        let now = rates(window, n);
        assert(now == before.push((pt.e_delta->0).over_spec(len)));
    }
}

proof fn lemma_rate(p: Seq<Spanned<Command<Fixed>>>, pt: CandidatePoint<Fixed>, k: int)
    requires
        is_move_at(p, pt, k),
        pt.e is Some,
        is_printing(p, k),
    ensures
        pt.e_delta is Some,
        singular::<Fixed>().less_spec(distance(pt.from, pt.to)),
        (pt.e_delta->0).over_spec(distance(pt.from, pt.to)).millionths == flow(p, k),
{
    assert(Fixed::of_spec(10_000_000_000).millionths == 10_000_000_000_000_000);
    assert(1_000_000nat * 1_000_000 / 10_000_000_000_000_000 == 0);
    assert(singular::<Fixed>().millionths == 0);
    assert((pt.e_delta->0).millionths == pushed(p, k));
}

/// The sum of bounded rates is exact.
proof fn lemma_sum_of_rates(list: Seq<Fixed>, n: int)
    requires
        0 <= n <= list.len(),
        n <= 1_000_000,
        forall|k: int| 0 <= k < list.len() ==> 1 <= (#[trigger] list[k]).millionths
            <= 1_000_000_000_000,
    ensures
        n <= sum_of(list, n).millionths <= n * 1_000_000_000_000,
    decreases n,
{
    if n > 0 {
        lemma_sum_of_rates(list, n - 1);
        assert(1 <= list[n - 1].millionths);
    }
}

/// Rates that are each within one percent of a mean are close to each other.
proof fn lemma_close_rates(x: int, y: int, mean: int)
    requires
        mean >= 1,
        y >= 1,
        (x - mean) * 1_000_000 < 10_001 * mean,
        (mean - y) * 1_000_000 < 10_001 * mean,
    ensures
        49 * (x - y) <= y,
{
}

/// What it means that a rate is within one percent of the mean.
proof fn lemma_within_one_percent(rate: Fixed, mean: Fixed)
    requires
        1 <= rate.millionths <= 1_000_000_000_000,
        1 <= mean.millionths <= 1_000_000_000_000,
        rate.minus_spec(mean).over_spec(mean).abs_spec().at_most_spec(ratio_spec(1, 100)),
    ensures
        (rate.millionths - mean.millionths) * 1_000_000 < 10_001 * mean.millionths,
        (mean.millionths - rate.millionths) * 1_000_000 < 10_001 * mean.millionths,
{
    assert(Fixed::of_spec(1).millionths == 1_000_000);
    assert(Fixed::of_spec(100).millionths == 100_000_000);
    assert(1_000_000nat * 1_000_000 / 100_000_000 == 10_000);
    let d = rate.millionths - mean.millionths;
    let size = if d < 0 {
        -d
    } else {
        d
    };
    let m = mean.millionths as int;
    let q = (size * 1_000_000) / m;
    assert(q <= size * 1_000_000) by (nonlinear_arith)
        requires
            q == (size * 1_000_000) / m,
            m >= 1,
            size >= 0,
    ;
    assert(q >= 0) by (nonlinear_arith)
        requires
            q == (size * 1_000_000) / m,
            m >= 1,
            size >= 0,
    ;
    assert(rate.minus_spec(mean).millionths == d);
    assert(rate.minus_spec(mean).over_spec(mean).abs_spec().millionths == q);
    assert(size * 1_000_000 < 10_001 * m) by (nonlinear_arith)
        requires
            (size * 1_000_000) / m <= 10_000,
            m >= 1,
    ;
}

proof fn lemma_extrudes_steadily(
    p: Seq<Spanned<Command<Fixed>>>,
    window: Seq<CandidatePoint<Fixed>>,
    a: int,
)
    requires
        window.len() >= 3,
        forall|k: int| 0 <= k < window.len() ==> #[trigger] is_move_at(p, window[k], a + k),
        forall|k: int| 0 <= k < window.len() ==> (#[trigger] window[k]).e_delta is Some,
        is_steady(rates(window, window.len() as int)),
    ensures
        extrudes_steadily(p, a, a + window.len()),
{
    let n = window.len() as int;
    let b = a + n;
    if b - a <= 1_000_000 && forall|k: int| a <= k < b ==> #[trigger] is_printing(p, k) {
        assert forall|k: int| 0 <= k < n implies (#[trigger] window[k]).e is Some by {
            assert(is_move_at(p, window[k], a + k));
            assert(window[k].e_delta is Some);
        }
        lemma_rates(p, window, a, n);
        let list = rates(window, n);
        assert forall|k: int| 0 <= k < list.len() implies 1 <= (#[trigger] list[k]).millionths
            <= 1_000_000_000_000 by {
            assert(is_printing(p, a + k));
        }
        lemma_sum_of_rates(list, n);
        let sum = sum_of(list, n);
        let count = Fixed::count_spec(n as u64);
        assert(count.millionths == n * 1_000_000);
        let mean = sum.over_spec(count);
        lemma_mean(sum.millionths as int, n);
        assert(mean.millionths == (sum.millionths * 1_000_000) / (n * 1_000_000));
        assert(1 <= mean.millionths <= 1_000_000_000_000);
        assert(!vanishes(mean.abs_spec(), singular())) by {
            assert(Fixed::of_spec(10_000_000_000).millionths == 10_000_000_000_000_000);
            assert(1_000_000nat * 1_000_000 / 10_000_000_000_000_000 == 0);
        }
        assert forall|k: int, l: int| a <= k < b && a <= l < b implies 49 * (#[trigger] flow(p, k)
            - #[trigger] flow(p, l)) <= flow(p, l) by {
            assert(list[k - a].millionths == flow(p, a + (k - a)));
            assert(list[l - a].millionths == flow(p, a + (l - a)));
            lemma_within_one_percent(list[k - a], mean);
            lemma_within_one_percent(list[l - a], mean);
            lemma_close_rates(flow(p, k), flow(p, l), mean.millionths as int);
        }
    }
}

proof fn lemma_mean(sum: int, n: int)
    requires
        1 <= n <= 1_000_000,
        n <= sum <= n * 1_000_000_000_000,
    ensures
        1 <= (sum * 1_000_000) / (n * 1_000_000) <= 1_000_000_000_000,
{
    assert((sum * 1_000_000) / (n * 1_000_000) == sum / n) by (nonlinear_arith)
        requires
            n >= 1,
            sum >= 0,
    ;
    assert(1 <= sum / n <= 1_000_000_000_000) by (nonlinear_arith)
        requires
            1 <= n,
            n <= sum <= n * 1_000_000_000_000,
    ;
}

/// Emitting the window goes on with the drawing.
#[verifier::rlimit(30)]
proof fn lemma_flush_redraws(
    p: Seq<Spanned<Command<Fixed>>>,
    s: FitState<Fixed>,
    tolerance: Fixed,
    cuts: Seq<int>,
    n: int,
) -> (more: Seq<int>)
    requires
        tolerance.millionths <= 1_000_000_000_000,
        holds_the_last_moves(p, s, n),
        redraws(s.out, p, tolerance.millionths as int, cuts, n - s.window.len()),
        records(s.changes, p, cuts),
    ensures
        redraws(s.flushed(tolerance).out, p, tolerance.millionths as int, more, n),
        records(s.flushed(tolerance).changes, p, more),
{
    let w = s.window.len() as int;
    let t = tolerance.millionths as int;
    let out = s.flushed(tolerance).out;
    if is_arc(s.window, tolerance) {
        let more = cuts.push(n);
        lemma_arc_draws(p, s.window, tolerance, n - w);
        assert forall|k: int| 0 <= k < out.len() implies #[trigger] stands_at(
            out,
            p,
            t,
            more,
            k,
        ) by {
            if k < s.out.len() {
                assert(stands_at(s.out, p, t, cuts, k));
            }
        }
        lemma_replaced_lines_of_prefix(p, cuts, more, cuts.len() - 1);
        assert(is_move_at(p, s.window[0], n - w + 0));
        assert(arc_change(s.window).line == p[n - w].line);
        more
    } else {
        let more = Seq::new(
            cuts.len() + s.window.len(),
            |k: int|
                if k < cuts.len() {
                    cuts[k]
                } else {
                    n - w + (k - cuts.len() + 1)
                },
        );
        assert forall|k: int| 0 <= k < out.len() implies #[trigger] stands_at(
            out,
            p,
            t,
            more,
            k,
        ) by {
            if k < s.out.len() {
                assert(stands_at(s.out, p, t, cuts, k));
            } else {
                let m = k - s.out.len();
                assert(is_move_at(p, s.window[m], n - w + m));
                assert(out[k] == original(s.window[m]));
            }
        }
        lemma_replaced_lines_of_prefix(p, cuts, more, cuts.len() - 1);
        lemma_single_cuts_replace_nothing(p, more, cuts.len() - 1, more.len() - 1);
        more
    }
}

proof fn lemma_redraws_push(
    out: Seq<Spanned<Command<Fixed>>>,
    p: Seq<Spanned<Command<Fixed>>>,
    tolerance: int,
    changes: Seq<Change>,
    cuts: Seq<int>,
    n: int,
) -> (more: Seq<int>)
    requires
        redraws(out, p, tolerance, cuts, n),
        records(changes, p, cuts),
    ensures
        redraws(out.push(p[n]), p, tolerance, more, n + 1),
        records(changes, p, more),
{
    let more = cuts.push(n + 1);
    let longer = out.push(p[n]);
    assert forall|k: int| 0 <= k < longer.len() implies #[trigger] stands_at(
        longer,
        p,
        tolerance,
        more,
        k,
    ) by {
        if k < out.len() {
            assert(stands_at(out, p, tolerance, cuts, k));
        }
    }
    lemma_replaced_lines_of_prefix(p, cuts, more, cuts.len() - 1);
    more
}

proof fn lemma_pass_redraws(
    p: Seq<Spanned<Command<Fixed>>>,
    tolerance: Fixed,
    n: int,
) -> (cuts: Seq<int>)
    requires
        0 <= n <= p.len(),
        !has_relative(p),
        tolerance.millionths <= 1_000_000_000_000,
    ensures
        redraws(
            fit_state(p, tolerance, n).out,
            p,
            tolerance.millionths as int,
            cuts,
            n - fit_state(p, tolerance, n).window.len(),
        ),
        records(fit_state(p, tolerance, n).changes, p, cuts),
    decreases n,
{
    let t = tolerance.millionths as int;
    if n <= 0 {
        seq![0int]
    } else {
        let cuts = lemma_pass_redraws(p, tolerance, n - 1);
        lemma_window_holds_the_last_moves(p, tolerance, n - 1);
        let s = fit_state(p, tolerance, n - 1);
        let after = fit_state(p, tolerance, n);
        let done = s.flushed(tolerance);
        let c = p[n - 1];
        assert(after == s.after(c, tolerance));
        let more = lemma_flush_redraws(p, s, tolerance, cuts, n - 1);
        lemma_out_after(s, c, tolerance);
        if !(c.inner is LinearMove) {
            lemma_redraws_push(done.out, p, t, done.changes, more, n - 1)
        } else if after.out == s.out && after.window.len() == s.window.len() + 1
            && after.changes == s.changes {
            cuts
        } else {
            more
        }
    }
}

/// What a command does to what has been emitted, and to the size of the window.
proof fn lemma_out_after<N: Scalar>(s: FitState<N>, c: Spanned<Command<N>>, tolerance: N)
    ensures
        ({
            let after = s.after(c, tolerance);
            let done = s.flushed(tolerance);
            &&& !(c.inner is LinearMove) ==> after.out == done.out.push(c) && after.window.len()
                == 0 && after.changes == done.changes
            &&& c.inner is LinearMove ==> {
                ||| after.out == s.out && after.window.len() == s.window.len() + 1
                    && after.changes == s.changes
                ||| after.out == done.out && after.window.len() == 1 && after.changes
                    == done.changes
            }
        }),
{
    if c.inner is LinearMove {
        let pt = s.point(c);
        let done = s.flushed(tolerance);
        assert(done.flushed(tolerance).out =~= done.out);
    }
}

// ── The law ───────────────────────────────────────────────────────────────────

/// Arc fitting redraws the program: what comes out is the program, command by command,
/// with runs of three or more G1 moves replaced by arcs.  Each arc begins where its run
/// begins, names a centre from which every end of a move in the run is equally far up
/// to the tolerance, goes around it in the direction of the run, and ends where the run
/// ends, with its extrusion, height and pace.  It turns by 15 degrees or more, and each
/// run that is replaced has its change, which names the line where the run begins.
pub proof fn lemma_fitting_redraws_the_program(
    p: Seq<Spanned<Command<Fixed>>>,
    tolerance: Fixed,
) -> (cuts: Seq<int>)
    requires
        !has_relative(p),
        tolerance.millionths <= 1_000_000_000_000,
    ensures
        redraws(
            fitted(p, tolerance).out,
            p,
            tolerance.millionths as int,
            cuts,
            p.len() as int,
        ),
        records(fitted(p, tolerance).changes, p, cuts),
{
    let n = p.len() as int;
    let cuts = lemma_pass_redraws(p, tolerance, n);
    lemma_window_holds_the_last_moves(p, tolerance, n);
    lemma_flush_redraws(p, fit_state(p, tolerance, n), tolerance, cuts, n)
}

} // verus!
