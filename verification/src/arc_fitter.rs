//! Arc fitting: runs of G1 moves along a circle become one G2 or G3.
//!
//! A window slides over consecutive G1 commands.  It grows by one command at a
//! time for as long as its points lie on an arc; when a command breaks the arc,
//! the window is emitted, as an arc or as it was, and a new one begins.

pub mod circles;
pub mod complete;
pub mod firmware;
pub mod laws;
pub mod recovery;

use vstd::prelude::*;

use crate::diagnostics::{
    change_log, findings, push_change, Change, Diagnostic, Finding, OptimizationChange, Severity,
};
use crate::geometry::{arc_span, arc_span_spec, bearing, bearing_of, distance, distance_of};
use crate::models::{cow_text, program, Command, GCodeCommand, Spanned};
use crate::optimizer::{axes_set, has_relative, set_axes, uses_relative};
use crate::scalar::{
    is_vanishing, or_default, ratio, ratio_spec, same_option, same_option_spec, sum_of, total,
    value_or, vanishes, zero, zero_spec, Scalar,
};
use crate::text::{decimal, has_text, holds_text, lower_ascii, lower_of, push_decimal, push_text};

verus! {

// ── Configuration and result ──────────────────────────────────────────────────

/// The largest radial deviation by default: 0.02 mm.
pub open spec fn default_tolerance_spec<N: Scalar>() -> N {
    ratio_spec(2, 100)
}

/// The largest radial deviation by default: 0.02 mm.
pub fn default_arc_tolerance_mm<N: Scalar>() -> (result: N)
    ensures
        result == default_tolerance_spec::<N>(),
{
    ratio(2, 100)
}

/// What arc fitting is to do.
#[derive(Debug)]
pub struct ArcFitConfig<N> {
    /// Whether arcs are fitted at all.
    pub enabled: bool,
    /// Largest deviation of a point from the fitted circle in millimetres.
    pub tolerance_mm: N,
}

impl<N: Copy> Copy for ArcFitConfig<N> {

}

impl<N: Copy> Clone for ArcFitConfig<N> {
    fn clone(&self) -> (result: Self)
        ensures
            result == *self,
    {
        *self
    }
}

impl<N: Scalar> Default for ArcFitConfig<N> {
    fn default() -> (result: Self)
        ensures
            result == (ArcFitConfig { enabled: false, tolerance_mm: default_tolerance_spec::<N>() }),
    {
        ArcFitConfig { enabled: false, tolerance_mm: default_arc_tolerance_mm() }
    }
}

impl<N: Scalar> ArcFitConfig<N> {
    /// Whether the tolerance can be worked with: it is finite and positive.
    pub open spec fn is_valid(self) -> bool {
        self.tolerance_mm.is_finite_spec() && zero_spec::<N>().less_spec(self.tolerance_mm)
    }

    /// Refuses a tolerance that is not finite or not positive.
    pub fn validate(&self) -> (result: Result<(), String>)
        ensures
            result is Ok <==> self.is_valid(),
            result matches Err(message) ==> message@
                == "arc tolerance must be a finite number greater than 0 mm, got "@
                + self.tolerance_mm.display_spec(),
    {
        if self.tolerance_mm.is_finite() && zero::<N>().less(self.tolerance_mm) {
            return Ok(());
        }
        let mut message = String::new();
        push_text(&mut message, "arc tolerance must be a finite number greater than 0 mm, got ");
        push_text(&mut message, self.tolerance_mm.display().as_str());
        Err(message)
    }
}

/// The result of arc fitting.
#[derive(Debug)]
pub struct ArcFitResult<'a, N> {
    /// The commands, with arcs in place of the moves that they stand for.
    pub commands: Vec<Spanned<GCodeCommand<'a, N>>>,
    /// One change per fitted arc.
    pub changes: Vec<OptimizationChange>,
    /// `W004` where the firmware may not support arcs.
    pub diagnostics: Vec<Diagnostic>,
}

// ── Circles ───────────────────────────────────────────────────────────────────

/// A circle in the plane.
#[derive(Debug)]
pub struct Circle<N> {
    /// X coordinate of the centre.
    pub cx: N,
    /// Y coordinate of the centre.
    pub cy: N,
    /// Radius.
    pub r: N,
}

impl<N: Copy> Copy for Circle<N> {

}

impl<N: Copy> Clone for Circle<N> {
    fn clone(&self) -> (result: Self)
        ensures
            result == *self,
    {
        *self
    }
}

/// Determinants below this count as zero: 1e-10.
pub open spec fn singular<N: Scalar>() -> N {
    ratio_spec(1, 10_000_000_000)
}

/// `a * p + b * q + c * r`
pub open spec fn combine<N: Scalar>(a: N, p: N, b: N, q: N, c: N, r: N) -> N {
    a.times_spec(p).plus_spec(b.times_spec(q)).plus_spec(c.times_spec(r))
}

/// The squared distance of a point from the origin.
pub open spec fn square<N: Scalar>(p: (N, N)) -> N {
    p.0.times_spec(p.0).plus_spec(p.1.times_spec(p.1))
}

/// The circle through three points; `None` where they lie on a line.
pub open spec fn circumcircle<N: Scalar>(p0: (N, N), p1: (N, N), p2: (N, N)) -> Option<
    Circle<N>,
> {
    let y12 = p1.1.minus_spec(p2.1);
    let y20 = p2.1.minus_spec(p0.1);
    let y01 = p0.1.minus_spec(p1.1);
    let d = N::of_spec(2).times_spec(combine(p0.0, y12, p1.0, y20, p2.0, y01));
    if vanishes(d.abs_spec(), singular()) {
        None
    } else {
        let cx = combine(square(p0), y12, square(p1), y20, square(p2), y01).over_spec(d);
        let cy = combine(
            square(p0),
            p2.0.minus_spec(p1.0),
            square(p1),
            p0.0.minus_spec(p2.0),
            square(p2),
            p1.0.minus_spec(p0.0),
        ).over_spec(d);
        Some(Circle { cx, cy, r: distance((cx, cy), p0) })
    }
}

fn combination<N: Scalar>(a: N, p: N, b: N, q: N, c: N, r: N) -> (result: N)
    ensures
        result == combine(a, p, b, q, c, r),
{
    a.times(p).plus(b.times(q)).plus(c.times(r))
}

fn square_of<N: Scalar>(p: (N, N)) -> (result: N)
    ensures
        result == square(p),
{
    p.0.times(p.0).plus(p.1.times(p.1))
}

/// The circle through three points; `None` where they lie on a line.
pub fn fit_circle_3point<N: Scalar>(p0: (N, N), p1: (N, N), p2: (N, N)) -> (result: Option<
    Circle<N>,
>)
    ensures
        result == circumcircle(p0, p1, p2),
{
    let y12 = p1.1.minus(p2.1);
    let y20 = p2.1.minus(p0.1);
    let y01 = p0.1.minus(p1.1);
    let d = N::of(2).times(combination(p0.0, y12, p1.0, y20, p2.0, y01));
    if is_vanishing(d.abs(), ratio(1, 10_000_000_000)) {
        return None;
    }
    let sq0 = square_of(p0);
    let sq1 = square_of(p1);
    let sq2 = square_of(p2);
    let cx = combination(sq0, y12, sq1, y20, sq2, y01).over(d);
    let cy = combination(
        sq0,
        p2.0.minus(p1.0),
        sq1,
        p0.0.minus(p2.0),
        sq2,
        p1.0.minus(p0.0),
    ).over(d);
    Some(Circle { cx, cy, r: distance_of((cx, cy), p0) })
}

/// The circle of a sequence of points: through the first, the middle and the last.
pub open spec fn circle_of<N: Scalar>(points: Seq<(N, N)>) -> Option<Circle<N>> {
    if points.len() <= 2 {
        None
    } else {
        circumcircle(points[0], points[points.len() as int / 2], points.last())
    }
}

/// The circle of a sequence of points: through the first, the middle and the last.
///
/// `None` for fewer than three points, and where those three lie on a line.
pub fn fit_circle<N: Scalar>(points: &[(N, N)]) -> (result: Option<Circle<N>>)
    ensures
        result == circle_of(points@),
{
    if points.len() <= 2 {
        return None;
    }
    let middle: usize = points.len() / 2;
    fit_circle_3point(points[0], points[middle], points[points.len() - 1])
}

/// The sums over the points that the least-squares fit is made of.
pub struct PrattSums<N> {
    pub x: N,
    pub y: N,
    pub xx: N,
    pub yy: N,
    pub xy: N,
    /// The sum of `b = -(x² + y²)`.
    pub b: N,
    pub xb: N,
    pub yb: N,
}

impl<N: Copy> Copy for PrattSums<N> {

}

impl<N: Copy> Clone for PrattSums<N> {
    fn clone(&self) -> (result: Self)
        ensures
            result == *self,
    {
        *self
    }
}

/// The sums over the first `n` points.
pub open spec fn pratt_sums<N: Scalar>(points: Seq<(N, N)>, n: int) -> PrattSums<N>
    decreases n,
{
    if n <= 0 {
        PrattSums {
            x: zero_spec(),
            y: zero_spec(),
            xx: zero_spec(),
            yy: zero_spec(),
            xy: zero_spec(),
            b: zero_spec(),
            xb: zero_spec(),
            yb: zero_spec(),
        }
    } else {
        let s = pratt_sums(points, n - 1);
        let (x, y) = points[n - 1];
        let b = square((x, y)).negate_spec();
        PrattSums {
            x: s.x.plus_spec(x),
            y: s.y.plus_spec(y),
            xx: s.xx.plus_spec(x.times_spec(x)),
            yy: s.yy.plus_spec(y.times_spec(y)),
            xy: s.xy.plus_spec(x.times_spec(y)),
            b: s.b.plus_spec(b),
            xb: s.xb.plus_spec(x.times_spec(b)),
            yb: s.yb.plus_spec(y.times_spec(b)),
        }
    }
}

/// The determinant `a * d - b * c`.
pub open spec fn minor<N: Scalar>(a: N, d: N, b: N, c: N) -> N {
    a.times_spec(d).minus_spec(b.times_spec(c))
}

/// The determinant of a matrix with the top row `a`, `b`, `c` and the minors `p`, `q`, `r`.
pub open spec fn determinant<N: Scalar>(a: N, p: N, b: N, q: N, c: N, r: N) -> N {
    a.times_spec(p).minus_spec(b.times_spec(q)).plus_spec(c.times_spec(r))
}

/// The circle `x² + y² + D x + E y + F = 0` of least algebraic distance from the
/// points: Cramer's rule on the normal equations.  `None` where the equations
/// are singular or the circle has no radius.
pub open spec fn pratt_circle<N: Scalar>(points: Seq<(N, N)>) -> Option<Circle<N>> {
    let s = pratt_sums(points, points.len() as int);
    let n = N::count_spec(points.len() as u64);
    let det = determinant(
        s.xx,
        minor(s.yy, n, s.y, s.y),
        s.xy,
        minor(s.xy, n, s.y, s.x),
        s.x,
        minor(s.xy, s.y, s.yy, s.x),
    );
    let det_d = determinant(
        s.xb,
        minor(s.yy, n, s.y, s.y),
        s.xy,
        minor(s.yb, n, s.y, s.b),
        s.x,
        minor(s.yb, s.y, s.yy, s.b),
    );
    let det_e = determinant(
        s.xx,
        minor(s.yb, n, s.y, s.b),
        s.xb,
        minor(s.xy, n, s.y, s.x),
        s.x,
        minor(s.xy, s.b, s.yb, s.x),
    );
    let det_f = determinant(
        s.xx,
        minor(s.yy, s.b, s.y, s.yb),
        s.xy,
        minor(s.xy, s.b, s.yb, s.x),
        s.xb,
        minor(s.xy, s.y, s.yy, s.x),
    );
    let cx = det_d.over_spec(det).negate_spec().over_spec(N::of_spec(2));
    let cy = det_e.over_spec(det).negate_spec().over_spec(N::of_spec(2));
    let r_sq = square((cx, cy)).minus_spec(det_f.over_spec(det));
    if vanishes(det.abs_spec(), singular()) || r_sq.at_most_spec(zero_spec()) {
        None
    } else {
        Some(Circle { cx, cy, r: r_sq.sqrt_spec() })
    }
}

fn minor_of<N: Scalar>(a: N, d: N, b: N, c: N) -> (result: N)
    ensures
        result == minor(a, d, b, c),
{
    a.times(d).minus(b.times(c))
}

fn determinant_of<N: Scalar>(a: N, p: N, b: N, q: N, c: N, r: N) -> (result: N)
    ensures
        result == determinant(a, p, b, q, c, r),
{
    a.times(p).minus(b.times(q)).plus(c.times(r))
}

/// The circle of least algebraic distance from the points.
///
/// `None` where the normal equations are singular, as for points on a line, or
/// the circle has no radius.
pub fn fit_circle_pratt<N: Scalar>(points: &[(N, N)]) -> (result: Option<Circle<N>>)
    ensures
        result == pratt_circle(points@),
{
    let n = N::count(points.len() as u64);
    let mut s: PrattSums<N> = PrattSums {
        x: zero(),
        y: zero(),
        xx: zero(),
        yy: zero(),
        xy: zero(),
        b: zero(),
        xb: zero(),
        yb: zero(),
    };
    let mut i: usize = 0;
    while i < points.len()
        invariant
            i <= points.len(),
            s == pratt_sums(points@, i as int),
        decreases points.len() - i,
    {
        let (x, y) = points[i];
        let b = square_of((x, y)).negate();
        s = PrattSums {
            x: s.x.plus(x),
            y: s.y.plus(y),
            xx: s.xx.plus(x.times(x)),
            yy: s.yy.plus(y.times(y)),
            xy: s.xy.plus(x.times(y)),
            b: s.b.plus(b),
            xb: s.xb.plus(x.times(b)),
            yb: s.yb.plus(y.times(b)),
        };
        i = i + 1;
    }
    let det = determinant_of(
        s.xx,
        minor_of(s.yy, n, s.y, s.y),
        s.xy,
        minor_of(s.xy, n, s.y, s.x),
        s.x,
        minor_of(s.xy, s.y, s.yy, s.x),
    );
    if is_vanishing(det.abs(), ratio(1, 10_000_000_000)) {
        return None;
    }
    let det_d = determinant_of(
        s.xb,
        minor_of(s.yy, n, s.y, s.y),
        s.xy,
        minor_of(s.yb, n, s.y, s.b),
        s.x,
        minor_of(s.yb, s.y, s.yy, s.b),
    );
    let det_e = determinant_of(
        s.xx,
        minor_of(s.yb, n, s.y, s.b),
        s.xb,
        minor_of(s.xy, n, s.y, s.x),
        s.x,
        minor_of(s.xy, s.b, s.yb, s.x),
    );
    let det_f = determinant_of(
        s.xx,
        minor_of(s.yy, s.b, s.y, s.yb),
        s.xy,
        minor_of(s.xy, s.b, s.yb, s.x),
        s.xb,
        minor_of(s.xy, s.y, s.yy, s.x),
    );
    let cx = det_d.over(det).negate().over(N::of(2));
    let cy = det_e.over(det).negate().over(N::of(2));
    let r_sq = square_of((cx, cy)).minus(det_f.over(det));
    if r_sq.at_most(zero()) {
        return None;
    }
    Some(Circle { cx, cy, r: r_sq.sqrt() })
}

// ── Direction ─────────────────────────────────────────────────────────────────

/// The cross product of two consecutive points, as seen from the centre.
pub open spec fn turn<N: Scalar>(a: (N, N), b: (N, N), centre: (N, N)) -> N {
    minor(
        a.0.minus_spec(centre.0),
        b.1.minus_spec(centre.1),
        a.1.minus_spec(centre.1),
        b.0.minus_spec(centre.0),
    )
}

/// The sum of the cross products of the first `n` points.
pub open spec fn turns<N: Scalar>(points: Seq<(N, N)>, centre: (N, N), n: int) -> N
    decreases n,
{
    if n <= 1 {
        zero_spec()
    } else {
        turns(points, centre, n - 1).plus_spec(turn(points[n - 2], points[n - 1], centre))
    }
}

/// Whether the points run clockwise about the centre: their cross products sum
/// up to less than zero.
pub open spec fn runs_clockwise<N: Scalar>(points: Seq<(N, N)>, centre: (N, N)) -> bool {
    turns(points, centre, points.len() as int).less_spec(zero_spec())
}

fn is_clockwise<N: Scalar>(points: &Vec<(N, N)>, centre: (N, N)) -> (result: bool)
    ensures
        result == runs_clockwise(points@, centre),
{
    let mut sum: N = zero();
    let mut i: usize = 1;
    if points.len() == 0 {
        return sum.less(zero());
    }
    while i < points.len()
        invariant
            1 <= i <= points.len(),
            sum == turns(points@, centre, i as int),
        decreases points.len() - i,
    {
        let a = points[i - 1];
        let b = points[i];
        sum = sum.plus(
            minor_of(
                a.0.minus(centre.0),
                b.1.minus(centre.1),
                a.1.minus(centre.1),
                b.0.minus(centre.0),
            ),
        );
        i = i + 1;
    }
    sum.less(zero())
}

// ── The window ────────────────────────────────────────────────────────────────

/// A G1 in the window.
pub struct CandidatePoint<N> {
    /// Place of the command in the source.
    pub line: u32,
    pub byte_offset: u64,
    /// The parameters of the command.
    pub x: Option<N>,
    pub y: Option<N>,
    pub z: Option<N>,
    pub e: Option<N>,
    pub f: Option<N>,
    /// Position before the move.
    pub from: (N, N),
    /// Position after the move.
    pub to: (N, N),
    /// Extrusion of the move; `None` where it does not extrude.
    pub e_delta: Option<N>,
    /// Feedrate of the move, its own or the one in force.
    pub feedrate: N,
}

impl<N: Copy> Copy for CandidatePoint<N> {

}

impl<N: Copy> Clone for CandidatePoint<N> {
    fn clone(&self) -> (result: Self)
        ensures
            result == *self,
    {
        *self
    }
}

/// The command that a point of the window was made from.
pub open spec fn original<N>(pt: CandidatePoint<N>) -> Spanned<Command<N>> {
    Spanned {
        inner: Command::LinearMove { x: pt.x, y: pt.y, z: pt.z, e: pt.e, f: pt.f },
        line: pt.line,
        byte_offset: pt.byte_offset,
    }
}

/// The points of the window: where it begins, and the target of each move.
pub open spec fn window_points<N>(window: Seq<CandidatePoint<N>>) -> Seq<(N, N)> {
    Seq::new(
        window.len() + 1,
        |i: int|
            if i == 0 {
                window[0].from
            } else {
                window[i - 1].to
            },
    )
}

/// Whether two feedrates are within 0.1 mm/min of each other.
pub open spec fn same_pace<N: Scalar>(a: N, b: N) -> bool {
    a.minus_spec(b).abs_spec().less_spec(ratio_spec(1, 10))
}

/// Whether a point can follow those of the window: same Z, same feedrate, and
/// extruding like them.
pub open spec fn can_extend<N: Scalar>(
    window: Seq<CandidatePoint<N>>,
    pt: CandidatePoint<N>,
) -> bool {
    forall|i: int|
        0 <= i < window.len() ==> same_option_spec((#[trigger] window[i]).z, pt.z) && same_pace(
            window[i].feedrate,
            pt.feedrate,
        ) && window[i].e_delta is Some == pt.e_delta is Some
}

/// The extrusion per millimetre of the first `n` moves, where they have a length.
pub open spec fn rates<N: Scalar>(window: Seq<CandidatePoint<N>>, n: int) -> Seq<N>
    decreases n,
{
    if n <= 0 {
        Seq::empty()
    } else {
        let len = distance(window[n - 1].from, window[n - 1].to);
        match window[n - 1].e_delta {
            Some(e) => if singular::<N>().less_spec(len) {
                rates(window, n - 1).push(e.over_spec(len))
            } else {
                rates(window, n - 1)
            },
            None => rates(window, n - 1),
        }
    }
}

/// What the first `n` moves extrude in total.
pub open spec fn extruded<N: Scalar>(window: Seq<CandidatePoint<N>>, n: int) -> N
    decreases n,
{
    if n <= 0 {
        zero_spec()
    } else {
        extruded(window, n - 1).plus_spec(value_or(window[n - 1].e_delta, zero_spec()))
    }
}

/// Whether every rate is within 1% of the mean of all.
pub open spec fn is_steady<N: Scalar>(rates: Seq<N>) -> bool {
    let mean = sum_of(rates, rates.len() as int).over_spec(N::count_spec(rates.len() as u64));
    rates.len() == 0 || vanishes(mean.abs_spec(), singular()) || forall|i: int|
        0 <= i < rates.len() ==> (#[trigger] rates[i]).minus_spec(mean).over_spec(
            mean,
        ).abs_spec().at_most_spec(ratio_spec(1, 100))
}

/// Whether a point lies on the circle up to the tolerance.
pub open spec fn on_circle<N: Scalar>(point: (N, N), circle: Circle<N>, tolerance: N) -> bool {
    !tolerance.less_spec(
        distance((circle.cx, circle.cy), point).minus_spec(circle.r).abs_spec(),
    )
}

/// The angle that an arc through the points spans.
pub open spec fn span_of<N: Scalar>(points: Seq<(N, N)>, circle: Circle<N>) -> N {
    let centre = (circle.cx, circle.cy);
    arc_span_spec(
        bearing(centre, points[0]),
        bearing(centre, points.last()),
        runs_clockwise(points, centre),
    )
}

/// The smallest angle that is worth an arc: 15 degrees, with room for rounding.
pub open spec fn least_span<N: Scalar>() -> N {
    N::of_spec(15).times_spec(N::pi_spec()).over_spec(N::of_spec(180)).minus_spec(
        ratio_spec(1, 1_000_000_000),
    )
}

/// Whether the moves of the window run along an arc: at least three, all naming
/// the extruder and pushing it forward in total, at a steady rate, at one Z and
/// one feedrate, on a circle of radius 0.5 to 1000 mm, through at least 15 degrees.
pub open spec fn is_arc<N: Scalar>(window: Seq<CandidatePoint<N>>, tolerance: N) -> bool {
    let points = window_points(window);
    &&& window.len() >= 3
    &&& forall|i: int|
        0 <= i < window.len() ==> (#[trigger] window[i]).e_delta is Some && same_option_spec(
            window[i].z,
            window[0].z,
        ) && same_pace(window[i].feedrate, window[0].feedrate)
    &&& zero_spec::<N>().less_spec(extruded(window, window.len() as int))
    &&& circle_of(points) matches Some(circle) && {
        &&& !circle.r.less_spec(ratio_spec(1, 2))
        &&& !N::of_spec(1_000).less_spec(circle.r)
        &&& forall|i: int|
            0 <= i < points.len() ==> on_circle(#[trigger] points[i], circle, tolerance)
        &&& !span_of(points, circle).less_spec(least_span())
        &&& is_steady(rates(window, window.len() as int))
    }
}

fn points_of<N: Scalar>(window: &Vec<CandidatePoint<N>>) -> (result: Vec<(N, N)>)
    requires
        window.len() > 0,
    ensures
        result@ == window_points(window@),
{
    let mut points: Vec<(N, N)> = Vec::new();
    points.push(window[0].from);
    let mut i: usize = 0;
    while i < window.len()
        invariant
            i <= window.len(),
            window.len() > 0,
            points.len() == i + 1,
            forall|j: int| 0 <= j <= i ==> (#[trigger] points[j]) == window_points(window@)[j],
        decreases window.len() - i,
    {
        points.push(window[i].to);
        i = i + 1;
    }
    proof {
        assert(points@ =~= window_points(window@));
    }
    points
}

fn keeps_pace<N: Scalar>(a: N, b: N) -> (result: bool)
    ensures
        result == same_pace(a, b),
{
    a.minus(b).abs().less(ratio(1, 10))
}

fn extends_window<N: Scalar>(window: &Vec<CandidatePoint<N>>, pt: CandidatePoint<N>) -> (result:
    bool)
    ensures
        result == can_extend(window@, pt),
{
    let mut i: usize = 0;
    while i < window.len()
        invariant
            i <= window.len(),
            forall|j: int|
                0 <= j < i ==> same_option_spec((#[trigger] window[j]).z, pt.z) && same_pace(
                    window[j].feedrate,
                    pt.feedrate,
                ) && window[j].e_delta is Some == pt.e_delta is Some,
        decreases window.len() - i,
    {
        let other = window[i];
        if !same_option(other.z, pt.z) || !keeps_pace(other.feedrate, pt.feedrate)
            || other.e_delta.is_some() != pt.e_delta.is_some() {
            return false;
        }
        i = i + 1;
    }
    true
}

fn extrusion_of<N: Scalar>(window: &Vec<CandidatePoint<N>>) -> (result: N)
    ensures
        result == extruded(window@, window.len() as int),
{
    let mut sum: N = zero();
    let mut i: usize = 0;
    while i < window.len()
        invariant
            i <= window.len(),
            sum == extruded(window@, i as int),
        decreases window.len() - i,
    {
        sum = sum.plus(or_default(window[i].e_delta, zero()));
        i = i + 1;
    }
    sum
}

fn extrusion_rate_consistent<N: Scalar>(window: &Vec<CandidatePoint<N>>) -> (result: bool)
    ensures
        result == is_steady(rates(window@, window.len() as int)),
{
    let mut list: Vec<N> = Vec::new();
    let mut i: usize = 0;
    while i < window.len()
        invariant
            i <= window.len(),
            list@ == rates(window@, i as int),
        decreases window.len() - i,
    {
        let len = distance_of(window[i].from, window[i].to);
        if let Some(e) = window[i].e_delta {
            if ratio::<N>(1, 10_000_000_000).less(len) {
                list.push(e.over(len));
            }
        }
        i = i + 1;
    }
    if list.len() == 0 {
        return true;
    }
    let mean = total(list.as_slice()).over(N::count(list.len() as u64));
    if is_vanishing(mean.abs(), ratio(1, 10_000_000_000)) {
        return true;
    }
    let mut k: usize = 0;
    while k < list.len()
        invariant
            k <= list.len(),
            list.len() > 0,
            list@ == rates(window@, window.len() as int),
            mean == sum_of(list@, list.len() as int).over_spec(N::count_spec(list.len() as u64)),
            !vanishes(mean.abs_spec(), singular()),
            forall|j: int|
                0 <= j < k ==> (#[trigger] list[j]).minus_spec(mean).over_spec(
                    mean,
                ).abs_spec().at_most_spec(ratio_spec(1, 100)),
        decreases list.len() - k,
    {
        if !list[k].minus(mean).over(mean).abs().at_most(ratio(1, 100)) {
            return false;
        }
        k = k + 1;
    }
    true
}

fn span<N: Scalar>(points: &Vec<(N, N)>, circle: Circle<N>) -> (result: N)
    requires
        points.len() > 0,
    ensures
        result == span_of(points@, circle),
{
    let centre = (circle.cx, circle.cy);
    arc_span(
        bearing_of(centre, points[0]),
        bearing_of(centre, points[points.len() - 1]),
        is_clockwise(points, centre),
    )
}

fn check_arc_candidate<N: Scalar>(window: &Vec<CandidatePoint<N>>, tolerance: N) -> (result: bool)
    ensures
        result == is_arc(window@, tolerance),
{
    if window.len() < 3 {
        return false;
    }
    let mut i: usize = 0;
    while i < window.len()
        invariant
            i <= window.len(),
            window.len() >= 3,
            forall|j: int|
                0 <= j < i ==> (#[trigger] window[j]).e_delta is Some && same_option_spec(
                    window[j].z,
                    window[0].z,
                ) && same_pace(window[j].feedrate, window[0].feedrate),
        decreases window.len() - i,
    {
        let pt = window[i];
        if pt.e_delta.is_none() || !same_option(pt.z, window[0].z) || !keeps_pace(
            pt.feedrate,
            window[0].feedrate,
        ) {
            return false;
        }
        i = i + 1;
    }
    if !zero::<N>().less(extrusion_of(window)) {
        return false;
    }
    let points = points_of(window);
    let circle = match fit_circle(points.as_slice()) {
        Some(circle) => circle,
        None => {
            return false;
        },
    };
    if circle.r.less(ratio(1, 2)) || N::of(1_000).less(circle.r) {
        return false;
    }
    let mut k: usize = 0;
    while k < points.len()
        invariant
            k <= points.len(),
            points@ == window_points(window@),
            circle_of(points@) == Some(circle),
            forall|j: int|
                0 <= j < k ==> on_circle(#[trigger] points[j], circle, tolerance),
        decreases points.len() - k,
    {
        let away = distance_of((circle.cx, circle.cy), points[k]).minus(circle.r).abs();
        if tolerance.less(away) {
            proof {
                assert(!on_circle(points@[k as int], circle, tolerance));
            }
            return false;
        }
        k = k + 1;
    }
    let least = N::of(15).times(N::pi()).over(N::of(180)).minus(ratio(1, 1_000_000_000));
    if span(&points, circle).less(least) {
        return false;
    }
    extrusion_rate_consistent(window)
}

// ── Emitting the window ───────────────────────────────────────────────────────

/// The arc that stands for the window.
pub open spec fn arc_command<N: Scalar>(window: Seq<CandidatePoint<N>>) -> Spanned<Command<N>> {
    let points = window_points(window);
    let circle = circle_of(points)->0;
    let first = window[0];
    let last = window.last();
    let x = Some(last.to.0);
    let y = Some(last.to.1);
    let z = last.z;
    let e = last.e;
    let f = Some(first.feedrate);
    let i = Some(circle.cx.minus_spec(first.from.0));
    let j = Some(circle.cy.minus_spec(first.from.1));
    Spanned {
        inner: if runs_clockwise(points, (circle.cx, circle.cy)) {
            Command::ArcMoveCW { x, y, z, e, f, i, j }
        } else {
            Command::ArcMoveCCW { x, y, z, e, f, i, j }
        },
        line: first.line,
        byte_offset: 0,
    }
}

/// The change that the arc of the window makes.
pub open spec fn arc_change<N: Scalar>(window: Seq<CandidatePoint<N>>) -> Change {
    let points = window_points(window);
    let circle = circle_of(points)->0;
    Change {
        line: window[0].line,
        description: "merged lines "@ + decimal(window[0].line as nat) + "–"@ + decimal(
            window.last().line as nat,
        ) + " into G"@ + (if runs_clockwise(points, (circle.cx, circle.cy)) {
            "2"@
        } else {
            "3"@
        }) + " arc (r="@ + circle.r.fixed_spec(3) + "mm, span="@ + span_of(
            points,
            circle,
        ).to_degrees_spec().fixed_spec(1) + "°)"@,
    }
}

/// The state of the pass between two commands.
#[verifier::ext_equal]
pub struct FitState<N> {
    /// The commands emitted so far.
    pub out: Seq<Spanned<Command<N>>>,
    /// The changes made so far.
    pub changes: Seq<Change>,
    /// The moves that are held back.
    pub window: Seq<CandidatePoint<N>>,
    /// Position of the head.
    pub x: N,
    pub y: N,
    /// Position of the extruder.
    pub e: N,
    /// Feedrate in force.
    pub feed: Option<N>,
}

impl<N: Scalar> FitState<N> {
    /// The state before the first command.
    pub open spec fn start() -> Self {
        FitState {
            out: Seq::empty(),
            changes: Seq::empty(),
            window: Seq::empty(),
            x: zero_spec(),
            y: zero_spec(),
            e: zero_spec(),
            feed: None,
        }
    }

    /// The state once the window is emitted: as an arc where it is one, as it
    /// was where it is none.
    pub open spec fn flushed(self, tolerance: N) -> Self {
        if is_arc(self.window, tolerance) {
            FitState {
                out: self.out.push(arc_command(self.window)),
                changes: self.changes.push(arc_change(self.window)),
                window: Seq::empty(),
                ..self
            }
        } else {
            FitState {
                out: self.out + self.window.map_values(|pt: CandidatePoint<N>| original(pt)),
                window: Seq::empty(),
                ..self
            }
        }
    }

    /// The point that a G1 adds to the window.
    pub open spec fn point(self, spanned: Spanned<Command<N>>) -> CandidatePoint<N> {
        match spanned.inner {
            Command::LinearMove { x, y, z, e, f } => CandidatePoint {
                line: spanned.line,
                byte_offset: spanned.byte_offset,
                x,
                y,
                z,
                e,
                f,
                from: (self.x, self.y),
                to: (value_or(x, self.x), value_or(y, self.y)),
                e_delta: match e {
                    Some(v) => Some(v.minus_spec(self.e)),
                    None => None,
                },
                feedrate: value_or(
                    if f is Some {
                        f
                    } else {
                        self.feed
                    },
                    N::of_spec(1_500),
                ),
            },
            _ => arbitrary(),
        }
    }

    /// The state after a G1 whose point is `pt`.
    pub open spec fn extended(self, pt: CandidatePoint<N>, tolerance: N) -> Self {
        let open = if can_extend(self.window, pt) {
            self
        } else {
            self.flushed(tolerance)
        };
        let grown = open.window.push(pt);
        let fitted = if grown.len() >= 3 && !is_arc(grown, tolerance) {
            FitState { window: seq![pt], ..open.flushed(tolerance) }
        } else {
            FitState { window: grown, ..open }
        };
        FitState {
            x: pt.to.0,
            y: pt.to.1,
            e: value_or(pt.e, self.e),
            feed: if pt.f is Some {
                pt.f
            } else {
                self.feed
            },
            ..fitted
        }
    }

    /// The state after a command.
    pub open spec fn after(self, spanned: Spanned<Command<N>>, tolerance: N) -> Self {
        match spanned.inner {
            Command::LinearMove { .. } => self.extended(self.point(spanned), tolerance),
            Command::RapidMove { x, y, f, .. } => self.passed(spanned, x, y, None, f, tolerance),
            Command::ArcMoveCW { x, y, e, f, .. } => self.passed(spanned, x, y, e, f, tolerance),
            Command::ArcMoveCCW { x, y, e, f, .. } => self.passed(spanned, x, y, e, f, tolerance),
            Command::SetPosition { x, y, z, e } => {
                let set = set_axes(x, y, z, e);
                self.passed(spanned, set.x, set.y, set.e, None, tolerance)
            },
            _ => self.passed(spanned, None, None, None, None, tolerance),
        }
    }

    /// The state after a command that is no G1 and leads to the given position,
    /// with the given feedrate.
    pub open spec fn passed(
        self,
        spanned: Spanned<Command<N>>,
        x: Option<N>,
        y: Option<N>,
        e: Option<N>,
        f: Option<N>,
        tolerance: N,
    ) -> Self {
        let closed = self.flushed(tolerance);
        FitState {
            out: closed.out.push(spanned),
            x: value_or(x, self.x),
            y: value_or(y, self.y),
            e: value_or(e, self.e),
            feed: if f is Some {
                f
            } else {
                self.feed
            },
            ..closed
        }
    }
}

/// The state after the first `n` commands.
pub open spec fn fit_state<N: Scalar>(
    p: Seq<Spanned<Command<N>>>,
    tolerance: N,
    n: int,
) -> FitState<N>
    decreases n,
{
    if n <= 0 {
        FitState::start()
    } else {
        fit_state(p, tolerance, n - 1).after(p[n - 1], tolerance)
    }
}

/// The state after the whole program, with the last window emitted.
pub open spec fn fitted<N: Scalar>(p: Seq<Spanned<Command<N>>>, tolerance: N) -> FitState<N> {
    fit_state(p, tolerance, p.len() as int).flushed(tolerance)
}

fn describe_arc<N: Scalar>(
    first_line: u32,
    last_line: u32,
    clockwise: bool,
    radius: N,
    span_rad: N,
) -> (result: OptimizationChange)
    ensures
        result@ == (Change {
            line: first_line,
            description: "merged lines "@ + decimal(first_line as nat) + "–"@ + decimal(
                last_line as nat,
            ) + " into G"@ + (if clockwise {
                "2"@
            } else {
                "3"@
            }) + " arc (r="@ + radius.fixed_spec(3) + "mm, span="@
                + span_rad.to_degrees_spec().fixed_spec(1) + "°)"@,
        }),
{
    let mut text = String::new();
    push_text(&mut text, "merged lines ");
    push_decimal(&mut text, first_line as u64);
    push_text(&mut text, "–");
    push_decimal(&mut text, last_line as u64);
    push_text(&mut text, " into G");
    if clockwise {
        push_text(&mut text, "2");
    } else {
        push_text(&mut text, "3");
    }
    push_text(&mut text, " arc (r=");
    push_text(&mut text, radius.fixed(3).as_str());
    push_text(&mut text, "mm, span=");
    push_text(&mut text, span_rad.to_degrees().fixed(1).as_str());
    push_text(&mut text, "°)");
    OptimizationChange { line: first_line, description: text }
}

/// Emits the window, as an arc or as it was, and empties it.
fn flush_candidate<'a, N: Scalar>(
    window: &mut Vec<CandidatePoint<N>>,
    out: &mut Vec<Spanned<GCodeCommand<'a, N>>>,
    changes: &mut Vec<OptimizationChange>,
    tolerance: N,
)
    ensures
        final(window)@ == Seq::<CandidatePoint<N>>::empty(),
        is_arc(old(window)@, tolerance) ==> program(final(out)@) == program(old(out)@).push(
            arc_command(old(window)@),
        ) && change_log(final(changes)@) == change_log(old(changes)@).push(
            arc_change(old(window)@),
        ),
        !is_arc(old(window)@, tolerance) ==> program(final(out)@) == program(old(out)@) + old(
            window,
        )@.map_values(|pt: CandidatePoint<N>| original(pt)) && change_log(final(changes)@)
            == change_log(old(changes)@),
{
    let ghost held = window@;
    let ghost emitted = program(out@);
    if !check_arc_candidate(window, tolerance) {
        let ghost moves = held.map_values(|pt: CandidatePoint<N>| original(pt));
        let mut i: usize = 0;
        proof {
            assert(emitted =~= emitted + moves.take(0));
        }
        while i < window.len()
            invariant
                i <= window.len(),
                window@ == held,
                moves == held.map_values(|pt: CandidatePoint<N>| original(pt)),
                program(out@) == emitted + moves.take(i as int),
            decreases window.len() - i,
        {
            let pt = window[i];
            let ghost before = program(out@);
            out.push(
                Spanned {
                    inner: GCodeCommand::LinearMove { x: pt.x, y: pt.y, z: pt.z, e: pt.e, f: pt.f },
                    line: pt.line,
                    byte_offset: pt.byte_offset,
                },
            );
            proof {
                assert(program(out@) =~= before.push(moves[i as int]));
                assert(moves.take(i + 1) =~= moves.take(i as int).push(moves[i as int]));
                assert(program(out@) =~= emitted + moves.take(i + 1));
            }
            i = i + 1;
        }
        proof {
            assert(moves.take(i as int) =~= moves);
        }
        window.clear();
        return;
    }
    let points = points_of(window);
    if let Some(circle) = fit_circle(points.as_slice()) {
        let first = window[0];
        let last = window[window.len() - 1];
        let centre = (circle.cx, circle.cy);
        let clockwise = is_clockwise(&points, centre);
        let x = Some(last.to.0);
        let y = Some(last.to.1);
        let f = Some(first.feedrate);
        let i = Some(circle.cx.minus(first.from.0));
        let j = Some(circle.cy.minus(first.from.1));
        let inner = if clockwise {
            GCodeCommand::ArcMoveCW { x, y, z: last.z, e: last.e, f, i, j }
        } else {
            GCodeCommand::ArcMoveCCW { x, y, z: last.z, e: last.e, f, i, j }
        };
        let arc = Spanned { inner, line: first.line, byte_offset: 0 };
        let change = describe_arc(
            first.line,
            last.line,
            clockwise,
            circle.r,
            span(&points, circle),
        );
        proof {
            assert(arc@ == arc_command(held));
            assert(change@ == arc_change(held));
        }
        out.push(arc);
        push_change(changes, change);
        proof {
            assert(program(out@) =~= emitted.push(arc@));
        }
    }
    window.clear();
}

// ── Firmware ──────────────────────────────────────────────────────────────────

/// A firmware or slicer that a header comment can name.
#[derive(Debug, Clone, Copy, PartialEq, Eq, Structural)]
pub enum FirmwareFlavour {
    /// Marlin.
    Marlin,
    /// Klipper.
    Klipper,
    /// Smoothieware.
    Smoothieware,
    /// `PrusaSlicer`.
    PrusaSlicer,
    /// `OrcaSlicer`.
    OrcaSlicer,
    /// Cura.
    Cura,
    /// Simplify3D.
    Simplify3D,
    /// `ideaMaker`.
    IdeaMaker,
    /// Repetier; may not support arcs.
    Repetier,
    /// BFB; does not support arcs.
    BFB,
    /// `MakerBot`; does not support arcs.
    Makerbot,
    /// No header names a firmware.
    Unknown,
}

/// Whether the firmware is known to support G2 and G3.
pub open spec fn supports_arcs(flavour: FirmwareFlavour) -> bool {
    match flavour {
        FirmwareFlavour::Repetier
        | FirmwareFlavour::BFB
        | FirmwareFlavour::Makerbot
        | FirmwareFlavour::Unknown => false,
        _ => true,
    }
}

/// Whether the firmware is known to support G2 and G3.
pub fn firmware_supports_arcs(flavour: &FirmwareFlavour) -> (result: bool)
    ensures
        result == supports_arcs(*flavour),
{
    match flavour {
        FirmwareFlavour::Marlin
        | FirmwareFlavour::Klipper
        | FirmwareFlavour::Smoothieware
        | FirmwareFlavour::PrusaSlicer
        | FirmwareFlavour::OrcaSlicer
        | FirmwareFlavour::Cura
        | FirmwareFlavour::Simplify3D
        | FirmwareFlavour::IdeaMaker => true,
        _ => false,
    }
}

/// The firmware that a comment names, in any case; the first of the list where
/// it names several.
pub open spec fn flavour_in(text: Seq<char>) -> Option<FirmwareFlavour> {
    let lower = lower_of(text);
    if has_text(lower, "marlin"@) {
        Some(FirmwareFlavour::Marlin)
    } else if has_text(lower, "klipper"@) {
        Some(FirmwareFlavour::Klipper)
    } else if has_text(lower, "smoothie"@) {
        Some(FirmwareFlavour::Smoothieware)
    } else if has_text(lower, "prusaslicer"@) || has_text(lower, "prusa slicer"@) {
        Some(FirmwareFlavour::PrusaSlicer)
    } else if has_text(lower, "orcaslicer"@) || has_text(lower, "orca slicer"@) {
        Some(FirmwareFlavour::OrcaSlicer)
    } else if has_text(lower, "cura"@) {
        Some(FirmwareFlavour::Cura)
    } else if has_text(lower, "simplify3d"@) {
        Some(FirmwareFlavour::Simplify3D)
    } else if has_text(lower, "ideamaker"@) {
        Some(FirmwareFlavour::IdeaMaker)
    } else if has_text(lower, "repetier"@) {
        Some(FirmwareFlavour::Repetier)
    } else if has_text(lower, "bfb"@) {
        Some(FirmwareFlavour::BFB)
    } else if has_text(lower, "makerbot"@) {
        Some(FirmwareFlavour::Makerbot)
    } else {
        None
    }
}

/// The firmware that the comments from command `i` on name, up to the first move.
pub open spec fn flavour_from<N>(p: Seq<Spanned<Command<N>>>, i: int) -> FirmwareFlavour
    decreases p.len() - i,
{
    if i >= p.len() {
        FirmwareFlavour::Unknown
    } else {
        match p[i].inner {
            Command::LinearMove { .. }
            | Command::RapidMove { .. }
            | Command::ArcMoveCW { .. }
            | Command::ArcMoveCCW { .. } => FirmwareFlavour::Unknown,
            Command::Comment { text } => match flavour_in(text) {
                Some(flavour) => flavour,
                None => flavour_from(p, i + 1),
            },
            _ => flavour_from(p, i + 1),
        }
    }
}

fn flavour_named(text: &str) -> (result: Option<FirmwareFlavour>)
    ensures
        result == flavour_in(text@),
{
    let lower = lower_ascii(text);
    if holds_text(&lower, "marlin") {
        Some(FirmwareFlavour::Marlin)
    } else if holds_text(&lower, "klipper") {
        Some(FirmwareFlavour::Klipper)
    } else if holds_text(&lower, "smoothie") {
        Some(FirmwareFlavour::Smoothieware)
    } else if holds_text(&lower, "prusaslicer") || holds_text(&lower, "prusa slicer") {
        Some(FirmwareFlavour::PrusaSlicer)
    } else if holds_text(&lower, "orcaslicer") || holds_text(&lower, "orca slicer") {
        Some(FirmwareFlavour::OrcaSlicer)
    } else if holds_text(&lower, "cura") {
        Some(FirmwareFlavour::Cura)
    } else if holds_text(&lower, "simplify3d") {
        Some(FirmwareFlavour::Simplify3D)
    } else if holds_text(&lower, "ideamaker") {
        Some(FirmwareFlavour::IdeaMaker)
    } else if holds_text(&lower, "repetier") {
        Some(FirmwareFlavour::Repetier)
    } else if holds_text(&lower, "bfb") {
        Some(FirmwareFlavour::BFB)
    } else if holds_text(&lower, "makerbot") {
        Some(FirmwareFlavour::Makerbot)
    } else {
        None
    }
}

/// The firmware that the comments before the first move name.
pub fn detect_firmware<N>(commands: &[Spanned<GCodeCommand<'_, N>>]) -> (result: FirmwareFlavour)
    ensures
        result == flavour_from(program(commands@), 0),
{
    let ghost p = program(commands@);
    let mut i: usize = 0;
    while i < commands.len()
        invariant
            i <= commands.len(),
            p == program(commands@),
            flavour_from(p, 0) == flavour_from(p, i as int),
        decreases commands.len() - i,
    {
        proof {
            assert(p[i as int] == commands@[i as int]@);
        }
        match &commands[i].inner {
            GCodeCommand::LinearMove { .. }
            | GCodeCommand::RapidMove { .. }
            | GCodeCommand::ArcMoveCW { .. }
            | GCodeCommand::ArcMoveCCW { .. } => {
                return FirmwareFlavour::Unknown;
            },
            GCodeCommand::Comment { text } => {
                if let Some(flavour) = flavour_named(cow_text(text)) {
                    return flavour;
                }
            },
            _ => {},
        }
        i = i + 1;
    }
    FirmwareFlavour::Unknown
}

/// The name of a firmware that may not support arcs.
pub open spec fn doubtful_name(flavour: FirmwareFlavour) -> Seq<char> {
    match flavour {
        FirmwareFlavour::Repetier => "Repetier"@,
        FirmwareFlavour::BFB => "BFB"@,
        FirmwareFlavour::Makerbot => "MAKERBOT"@,
        _ => "unknown"@,
    }
}

/// The warning about arcs for a firmware that may not support them.
pub open spec fn arc_warning(flavour: FirmwareFlavour) -> Finding {
    Finding {
        severity: Severity::Warning,
        line: 0,
        code: "W004"@,
        message: "firmware dialect '"@ + doubtful_name(flavour)
            + "' may not support G2/G3 arc moves — verify before printing"@,
    }
}

fn warn_about_arcs(flavour: &FirmwareFlavour) -> (result: Diagnostic)
    ensures
        result@ == arc_warning(*flavour),
{
    let name = match flavour {
        FirmwareFlavour::Repetier => "Repetier",
        FirmwareFlavour::BFB => "BFB",
        FirmwareFlavour::Makerbot => "MAKERBOT",
        _ => "unknown",
    };
    let mut message = String::new();
    push_text(&mut message, "firmware dialect '");
    push_text(&mut message, name);
    push_text(&mut message, "' may not support G2/G3 arc moves — verify before printing");
    Diagnostic { severity: Severity::Warning, line: 0, code: "W004", message }
}

// ── The pass ──────────────────────────────────────────────────────────────────

/// Replaces runs of G1 moves along a circle by G2 and G3.
///
/// Does nothing unless `config.enabled` is set, nor on a program that uses
/// relative positioning.
pub fn fit_arcs<'a, N: Scalar>(
    commands: Vec<Spanned<GCodeCommand<'a, N>>>,
    config: &ArcFitConfig<N>,
) -> (result: ArcFitResult<'a, N>)
    ensures
        !config.enabled || has_relative(program(commands@)) ==> result.commands@ == commands@
            && result.changes.len() == 0 && result.diagnostics.len() == 0,
        config.enabled && !has_relative(program(commands@)) ==> {
            let done = fitted(program(commands@), config.tolerance_mm);
            let flavour = flavour_from(program(commands@), 0);
            &&& program(result.commands@) == done.out
            &&& change_log(result.changes@) == done.changes
            &&& findings(result.diagnostics@) == if done.changes.len() > 0 && !supports_arcs(
                flavour,
            ) {
                seq![arc_warning(flavour)]
            } else {
                Seq::empty()
            }
        },
{
    let mut changes: Vec<OptimizationChange> = Vec::new();
    let mut diagnostics: Vec<Diagnostic> = Vec::new();
    if !config.enabled || uses_relative(&commands) {
        return ArcFitResult { commands, changes, diagnostics };
    }
    let tolerance = config.tolerance_mm;
    let ghost all = commands@;
    let ghost p = program(commands@);
    let firmware = detect_firmware(commands.as_slice());
    let mut out: Vec<Spanned<GCodeCommand<'a, N>>> = Vec::new();
    let mut window: Vec<CandidatePoint<N>> = Vec::new();
    let mut cur_x: N = zero();
    let mut cur_y: N = zero();
    let mut cur_e: N = zero();
    let mut feed: Option<N> = None;
    proof {
        assert(program(out@) =~= Seq::<Spanned<Command<N>>>::empty());
        assert(change_log(changes@) =~= Seq::<Change>::empty());
    }
    for spanned in it: commands
        invariant
            it.seq() == all,
            p == program(all),
            fit_state(p, tolerance, it.index() as int) == (FitState {
                out: program(out@),
                changes: change_log(changes@),
                window: window@,
                x: cur_x,
                y: cur_y,
                e: cur_e,
                feed,
            }),
    {
        let ghost i = it.index() as int;
        let ghost before = fit_state(p, tolerance, i);
        proof {
            assert(p[i] == spanned@);
            assert(fit_state(p, tolerance, i + 1) == before.after(spanned@, tolerance));
        }
        if let GCodeCommand::LinearMove { x, y, z, e, f } = &spanned.inner {
            let to = (or_default(*x, cur_x), or_default(*y, cur_y));
            let e_delta = match e {
                Some(v) => Some((*v).minus(cur_e)),
                None => None,
            };
            if f.is_some() {
                feed = *f;
            }
            let pt = CandidatePoint {
                line: spanned.line,
                byte_offset: spanned.byte_offset,
                x: *x,
                y: *y,
                z: *z,
                e: *e,
                f: *f,
                from: (cur_x, cur_y),
                to,
                e_delta,
                feedrate: or_default(feed, N::of(1_500)),
            };
            proof {
                assert(pt == before.point(spanned@));
            }
            if !extends_window(&window, pt) {
                flush_candidate(&mut window, &mut out, &mut changes, tolerance);
            }
            let ghost open = window@;
            window.push(pt);
            if window.len() >= 3 && !check_arc_candidate(&window, tolerance) {
                window.pop();
                proof {
                    assert(window@ =~= open);
                }
                flush_candidate(&mut window, &mut out, &mut changes, tolerance);
                window.push(pt);
                proof {
                    assert(window@ =~= seq![pt]);
                }
            }
            cur_x = to.0;
            cur_y = to.1;
            cur_e = or_default(*e, cur_e);
            proof {
                assert(fit_state(p, tolerance, i + 1) =~= (FitState {
                    out: program(out@),
                    changes: change_log(changes@),
                    window: window@,
                    x: cur_x,
                    y: cur_y,
                    e: cur_e,
                    feed,
                }));
            }
        } else {
            flush_candidate(&mut window, &mut out, &mut changes, tolerance);
            match &spanned.inner {
                GCodeCommand::RapidMove { x, y, f, .. } => {
                    cur_x = or_default(*x, cur_x);
                    cur_y = or_default(*y, cur_y);
                    if f.is_some() {
                        feed = *f;
                    }
                },
                GCodeCommand::ArcMoveCW { x, y, e, f, .. } => {
                    cur_x = or_default(*x, cur_x);
                    cur_y = or_default(*y, cur_y);
                    cur_e = or_default(*e, cur_e);
                    if f.is_some() {
                        feed = *f;
                    }
                },
                GCodeCommand::ArcMoveCCW { x, y, e, f, .. } => {
                    cur_x = or_default(*x, cur_x);
                    cur_y = or_default(*y, cur_y);
                    cur_e = or_default(*e, cur_e);
                    if f.is_some() {
                        feed = *f;
                    }
                },
                GCodeCommand::SetPosition { x, y, z, e } => {
                    let set = axes_set(*x, *y, *z, *e);
                    cur_x = or_default(set.x, cur_x);
                    cur_y = or_default(set.y, cur_y);
                    cur_e = or_default(set.e, cur_e);
                },
                _ => {},
            }
            let ghost emitted = program(out@);
            out.push(spanned);
            proof {
                assert(program(out@) =~= emitted.push(spanned@));
                assert(fit_state(p, tolerance, i + 1) =~= (FitState {
                    out: program(out@),
                    changes: change_log(changes@),
                    window: window@,
                    x: cur_x,
                    y: cur_y,
                    e: cur_e,
                    feed,
                }));
            }
        }
    }
    flush_candidate(&mut window, &mut out, &mut changes, tolerance);
    if changes.len() > 0 && !firmware_supports_arcs(&firmware) {
        diagnostics.push(warn_about_arcs(&firmware));
        proof {
            assert(findings(diagnostics@) =~= seq![arc_warning(firmware)]);
        }
    } else {
        proof {
            assert(findings(diagnostics@) =~= Seq::<Finding>::empty());
        }
    }
    ArcFitResult { commands: out, changes, diagnostics }
}

// ── Laws ──────────────────────────────────────────────────────────────────────

proof fn lemma_flush_shortens<N: Scalar>(s: FitState<N>, tolerance: N)
    ensures
        s.flushed(tolerance).out.len() + 2 * s.flushed(tolerance).changes.len() <= s.out.len() + 2
            * s.changes.len() + s.window.len(),
        s.flushed(tolerance).window.len() == 0,
{
}

/// Between two commands, what has been emitted and what is held back make up no
/// more than the commands so far, less two for every arc.
pub proof fn lemma_fit_state_shortens<N: Scalar>(
    p: Seq<Spanned<Command<N>>>,
    tolerance: N,
    n: int,
)
    requires
        0 <= n <= p.len(),
    ensures
        fit_state(p, tolerance, n).out.len() + fit_state(p, tolerance, n).window.len() + 2
            * fit_state(p, tolerance, n).changes.len() <= n,
    decreases n,
{
    if n > 0 {
        lemma_fit_state_shortens(p, tolerance, n - 1);
        let before = fit_state(p, tolerance, n - 1);
        lemma_flush_shortens(before, tolerance);
        if p[n - 1].inner is LinearMove {
            let pt = before.point(p[n - 1]);
            let open = if can_extend(before.window, pt) {
                before
            } else {
                before.flushed(tolerance)
            };
            lemma_flush_shortens(open, tolerance);
        }
    }
}

/// Every fitted arc makes the program shorter by at least two commands.
pub proof fn lemma_fit_shortens<N: Scalar>(p: Seq<Spanned<Command<N>>>, tolerance: N)
    ensures
        fitted(p, tolerance).out.len() + 2 * fitted(p, tolerance).changes.len() <= p.len(),
{
    lemma_fit_state_shortens(p, tolerance, p.len() as int);
    lemma_flush_shortens(fit_state(p, tolerance, p.len() as int), tolerance);
}

proof fn lemma_nothing_fitted_yet<N: Scalar>(
    p: Seq<Spanned<Command<N>>>,
    tolerance: N,
    n: int,
)
    requires
        0 <= n <= p.len(),
        fit_state(p, tolerance, n).changes.len() == 0,
    ensures
        fit_state(p, tolerance, n).out + fit_state(p, tolerance, n).window.map_values(
            |pt: CandidatePoint<N>| original(pt),
        ) == p.take(n),
    decreases n,
{
    let f = |pt: CandidatePoint<N>| original(pt);
    if n > 0 {
        let before = fit_state(p, tolerance, n - 1);
        let after = fit_state(p, tolerance, n);
        assert(after.changes.len() >= before.changes.len());
        lemma_nothing_fitted_yet(p, tolerance, n - 1);
        let held = before.out + before.window.map_values(f);
        assert(p.take(n) =~= held.push(p[n - 1]));
        assert(after.out + after.window.map_values(f) =~= held.push(p[n - 1]));
    } else {
        assert(fit_state(p, tolerance, n).out + fit_state(p, tolerance, n).window.map_values(f)
            =~= p.take(n));
    }
}

/// Where no change is reported, the program is as it was.
pub proof fn lemma_no_change_no_effect<N: Scalar>(p: Seq<Spanned<Command<N>>>, tolerance: N)
    requires
        fitted(p, tolerance).changes.len() == 0,
    ensures
        fitted(p, tolerance).out == p,
{
    lemma_nothing_fitted_yet(p, tolerance, p.len() as int);
    assert(p.take(p.len() as int) =~= p);
}

/// Whether a command is neither a G1 nor an arc.
pub open spec fn no_curve<N>() -> spec_fn(Spanned<Command<N>>) -> bool {
    |s: Spanned<Command<N>>|
        !(s.inner is LinearMove) && !(s.inner is ArcMoveCW) && !(s.inner is ArcMoveCCW)
}

proof fn lemma_filter_push<N>(p: Seq<Spanned<Command<N>>>, c: Spanned<Command<N>>)
    ensures
        p.push(c).filter(no_curve()) == if no_curve()(c) {
            p.filter(no_curve()).push(c)
        } else {
            p.filter(no_curve())
        },
{
    reveal(Seq::filter);
    assert(p.push(c).drop_last() =~= p);
}

proof fn lemma_flush_keeps_other_commands<N: Scalar>(s: FitState<N>, tolerance: N)
    ensures
        s.flushed(tolerance).out.filter(no_curve()) == s.out.filter(no_curve()),
{
    if is_arc(s.window, tolerance) {
        lemma_filter_push(s.out, arc_command(s.window));
    } else {
        let moves = s.window.map_values(|pt: CandidatePoint<N>| original(pt));
        Seq::filter_distributes_over_add(s.out, moves, no_curve());
        assert(moves.filter(no_curve()).len() == 0) by {
            assert forall|i: int| 0 <= i < moves.len() implies !no_curve()(#[trigger] moves[i]) by {
                assert(moves[i] == original(s.window[i]));
            }
            moves.lemma_all_neg_filter_empty(no_curve());
        }
        assert(s.flushed(tolerance).out.filter(no_curve()) =~= s.out.filter(no_curve()));
    }
}

proof fn lemma_fit_state_keeps_other_commands<N: Scalar>(
    p: Seq<Spanned<Command<N>>>,
    tolerance: N,
    n: int,
)
    requires
        0 <= n <= p.len(),
    ensures
        fit_state(p, tolerance, n).out.filter(no_curve()) == p.take(n).filter(no_curve()),
    decreases n,
{
    if n > 0 {
        lemma_fit_state_keeps_other_commands(p, tolerance, n - 1);
        let before = fit_state(p, tolerance, n - 1);
        lemma_flush_keeps_other_commands(before, tolerance);
        assert(p.take(n) =~= p.take(n - 1).push(p[n - 1]));
        lemma_filter_push(p.take(n - 1), p[n - 1]);
        if p[n - 1].inner is LinearMove {
            let pt = before.point(p[n - 1]);
            let open = if can_extend(before.window, pt) {
                before
            } else {
                before.flushed(tolerance)
            };
            lemma_flush_keeps_other_commands(open, tolerance);
        } else {
            lemma_filter_push(before.flushed(tolerance).out, p[n - 1]);
        }
    } else {
        assert(fit_state(p, tolerance, n).out =~= p.take(n));
    }
}

/// Arc fitting touches no command but G1, and makes nothing but arcs: all other
/// commands stay, in their order.
pub proof fn lemma_fit_keeps_other_commands<N: Scalar>(p: Seq<Spanned<Command<N>>>, tolerance: N)
    ensures
        fitted(p, tolerance).out.filter(no_curve()) == p.filter(no_curve()),
{
    lemma_fit_state_keeps_other_commands(p, tolerance, p.len() as int);
    lemma_flush_keeps_other_commands(fit_state(p, tolerance, p.len() as int), tolerance);
    assert(p.take(p.len() as int) =~= p);
}

/// An arc leads where the last of its moves led: to the same position, with the
/// same extruder position and Z, starting where the first of them started.
pub proof fn lemma_arc_ends_the_window<N: Scalar>(window: Seq<CandidatePoint<N>>, tolerance: N)
    requires
        is_arc(window, tolerance),
    ensures
        match arc_command(window).inner {
            Command::ArcMoveCW { x, y, z, e, .. } => x == Some(window.last().to.0) && y == Some(
                window.last().to.1,
            ) && z == window.last().z && e == window.last().e,
            Command::ArcMoveCCW { x, y, z, e, .. } => x == Some(window.last().to.0) && y == Some(
                window.last().to.1,
            ) && z == window.last().z && e == window.last().e,
            _ => false,
        },
{
}

} // verus!
