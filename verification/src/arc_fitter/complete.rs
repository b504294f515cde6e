//! Moves along a circle become an arc, for points at whole millimetres.

use vstd::prelude::*;

use crate::analyzer::curves::lemma_angle_is_small;
use crate::arc_fitter::circles::{
    is_at, is_whole, lemma_area, lemma_small_product, lemma_whole_combination, lemma_whole_product,
    lemma_whole_square, twice_area,
};
use crate::arc_fitter::laws::{
    flow, holds_the_last_moves, is_move_at, is_printing, lemma_bearing, lemma_least_span,
    lemma_rates, lemma_span_of_angles, lemma_window_holds_the_last_moves, pushed, turn_about,
    words_of_arc,
};
use crate::arc_fitter::recovery::{lemma_circle_equation, lemma_exact_quotient};
use crate::arc_fitter::{
    can_extend, circle_of, circumcircle, combine, extruded, fit_state, fitted, is_arc, is_steady,
    least_span, on_circle, original, rates, runs_clockwise, singular, span_of, square, turn, turns,
    window_points, CandidatePoint, Circle, FitState,
};
use crate::fixed::exact::lemma_sqrt;
use crate::fixed::Fixed;
use crate::geometry::{arc_span_spec, bearing, distance};
use crate::models::{Command, Spanned};
use crate::optimizer::{axes_of, has_relative, state_at};
use crate::scalar::{ratio_spec, sum_of, vanishes, Scalar};

verus! {

/// Whether a spot is on the circle about `centre` whose radius has the square `square`.
pub open spec fn is_on(spot: (int, int), centre: (int, int), square: int) -> bool {
    (spot.0 - centre.0) * (spot.0 - centre.0) + (spot.1 - centre.1) * (spot.1 - centre.1)
        == square
}

/// Twice the area between two spots and the centre: positive where one goes from the
/// first to the second counter-clockwise.
pub open spec fn cross_about(centre: (int, int), from: (int, int), to: (int, int)) -> int {
    (from.0 - centre.0) * (to.1 - centre.1) - (from.1 - centre.1) * (to.0 - centre.0)
}

/// A spot in millionths.
pub open spec fn fine(spot: (int, int)) -> (int, int) {
    (spot.0 * 1_000_000, spot.1 * 1_000_000)
}

/// Whether the G1 at `k` leads to its spot, at the height and the feedrate of the first,
/// pushing as much per millimetre as the first, and around the centre in the given
/// direction; and whether the moves turn by 15 degrees or more from the third on.
pub open spec fn is_step(
    p: Seq<Spanned<Command<Fixed>>>,
    spots: Seq<(int, int)>,
    centre: (int, int),
    clockwise: bool,
    k: int,
) -> bool {
    let axes = axes_of(p[k].inner)->0;
    let first = axes_of(p[0].inner)->0;
    &&& p[k].inner is LinearMove
    &&& axes.x is Some && is_whole(axes.x->0, spots[k + 1].0)
    &&& axes.y is Some && is_whole(axes.y->0, spots[k + 1].1)
    &&& axes.e is Some
    &&& axes.z == first.z
    &&& axes.f is Some && axes.f == first.f
    &&& is_printing(p, k)
    &&& flow(p, k) == flow(p, 0)
    &&& if clockwise {
        cross_about(centre, spots[k], spots[k + 1]) < 0
    } else {
        cross_about(centre, spots[k], spots[k + 1]) > 0
    }
    &&& k >= 2 ==> turn_about(fine(centre), fine(spots[0]), fine(spots[k + 1]), clockwise)
        >= 261_799
}

/// Whether the program is a walk from the origin along a circle, from spot to spot.
pub open spec fn walks_on_circle(
    p: Seq<Spanned<Command<Fixed>>>,
    spots: Seq<(int, int)>,
    centre: (int, int),
    square: int,
    clockwise: bool,
) -> bool {
    &&& 3 <= p.len() <= 1_000
    &&& spots.len() == p.len() + 1
    &&& spots[0] == (0int, 0int)
    &&& 1 <= square <= 1_000_000
    &&& forall|i: int| 0 <= i < spots.len() ==> is_spot(#[trigger] spots[i], centre, square)
    &&& forall|i: int, j: int|
        0 < i < j < spots.len() ==> twice_area(spots[0], #[trigger] spots[i], #[trigger] spots[j])
            != 0
    &&& forall|k: int| 0 <= k < p.len() ==> #[trigger] is_step(p, spots, centre, clockwise, k)
}

/// Whether a spot is on the circle, and within a metre of the origin.
pub open spec fn is_spot(spot: (int, int), centre: (int, int), square: int) -> bool {
    &&& is_on(spot, centre, square)
    &&& -1_000 <= spot.0 <= 1_000
    &&& -1_000 <= spot.1 <= 1_000
}

// ── Circles ───────────────────────────────────────────────────────────────────

proof fn lemma_near(d: int, other: int, square: int)
    requires
        d * d + other * other == square,
        square <= 1_000_000,
    ensures
        -1_000 <= d <= 1_000,
{
    assert(-1_000 <= d <= 1_000) by (nonlinear_arith)
        requires
            d * d + other * other <= 1_000_000,
    ;
}

/// A spot is at most a radius away from the centre on each axis.
proof fn lemma_near_centre(spot: (int, int), centre: (int, int), square: int)
    requires
        is_on(spot, centre, square),
        square <= 1_000_000,
    ensures
        -1_000 <= spot.0 - centre.0 <= 1_000,
        -1_000 <= spot.1 - centre.1 <= 1_000,
{
    let dx = spot.0 - centre.0;
    let dy = spot.1 - centre.1;
    lemma_near(dx, dy, square);
    assert(dy * dy + dx * dx == square);
    lemma_near(dy, dx, square);
}

/// The circle through three spots of a circle is that circle.
proof fn lemma_tops(
    a: (int, int),
    b: (int, int),
    c: (int, int),
    s: (int, int, int),
    u: int,
    v: int,
    k: int,
)
    requires
        s.0 == u * a.0 + v * a.1 + k,
        s.1 == u * b.0 + v * b.1 + k,
        s.2 == u * c.0 + v * c.1 + k,
    ensures
        s.0 * (b.1 - c.1) + s.1 * (c.1 - a.1) + s.2 * (a.1 - b.1) == u * twice_area(a, b, c),
        s.0 * (c.0 - b.0) + s.1 * (a.0 - c.0) + s.2 * (b.0 - a.0) == v * twice_area(a, b, c),
{
    let d = (b.0 - a.0, b.1 - a.1);
    let e = (c.0 - a.0, c.1 - a.1);
    let p = s.1 - s.0;
    let q = s.2 - s.0;
    assert(p == u * d.0 + v * d.1) by (nonlinear_arith)
        requires
            p == (u * b.0 + v * b.1) - (u * a.0 + v * a.1),
            d == (b.0 - a.0, b.1 - a.1),
    ;
    assert(q == u * e.0 + v * e.1) by (nonlinear_arith)
        requires
            q == (u * c.0 + v * c.1) - (u * a.0 + v * a.1),
            e == (c.0 - a.0, c.1 - a.1),
    ;
    lemma_difference_form(s.0, s.1, s.2, a.1, b.1, c.1);
    lemma_difference_form(s.0, s.1, s.2, -a.0, -b.0, -c.0);
    lemma_solved(p, q, d.0, d.1, e.0, e.1, u, v);
    let (f, g) = (e.0, d.0);
    assert(p * (-f) - q * (-g) == q * g - p * f) by (nonlinear_arith);
    assert(-c.0 - -a.0 == -f && -b.0 - -a.0 == -g);
    assert(-b.0 - -c.0 == c.0 - b.0 && -c.0 - -a.0 == a.0 - c.0 && -a.0 - -b.0 == b.0 - a.0);
}

proof fn lemma_difference_form(s: int, t: int, r: int, a: int, b: int, c: int)
    ensures
        s * (b - c) + t * (c - a) + r * (a - b) == (t - s) * (c - a) - (r - s) * (b - a),
{
    assert(s * (b - c) + t * (c - a) + r * (a - b) == (t - s) * (c - a) - (r - s) * (b - a))
        by (nonlinear_arith);
}

proof fn lemma_two_terms(u: int, d: int, v: int, e: int, g: int)
    ensures
        (u * d + v * e) * g == u * (d * g) + v * (e * g),
{
    assert((u * d) * g == u * (d * g)) by (nonlinear_arith);
    assert((v * e) * g == v * (e * g)) by (nonlinear_arith);
    let a = u * d;
    let b = v * e;
    assert((a + b) * g == a * g + b * g) by (nonlinear_arith);
}

proof fn lemma_solved(p: int, q: int, d: int, e: int, f: int, g: int, u: int, v: int)
    requires
        p == u * d + v * e,
        q == u * f + v * g,
    ensures
        p * g - q * e == u * (d * g - f * e),
        q * d - p * f == v * (d * g - f * e),
{
    lemma_two_terms(u, d, v, e, g);
    lemma_two_terms(u, f, v, g, e);
    lemma_two_terms(u, f, v, g, d);
    lemma_two_terms(u, d, v, e, f);
    assert(e * g == g * e) by (nonlinear_arith);
    assert(d * f == f * d) by (nonlinear_arith);
    assert(g * d == d * g) by (nonlinear_arith);
    assert(e * f == f * e) by (nonlinear_arith);
    let a = d * g;
    let b = f * e;
    assert(u * (a - b) == u * a - u * b) by (nonlinear_arith);
    assert(v * (a - b) == v * a - v * b) by (nonlinear_arith);
}

proof fn lemma_circle_is_theirs(
    points: ((Fixed, Fixed), (Fixed, Fixed), (Fixed, Fixed)),
    a: (int, int),
    b: (int, int),
    c: (int, int),
    centre: (int, int),
    radius: int,
)
    requires
        is_at(points.0, a.0, a.1),
        is_at(points.1, b.0, b.1),
        is_at(points.2, c.0, c.1),
        is_on(a, centre, radius),
        is_on(b, centre, radius),
        is_on(c, centre, radius),
        radius <= 1_000_000,
        twice_area(a, b, c) != 0,
    ensures
        ({
            let circle = circumcircle(points.0, points.1, points.2)->0;
            &&& circumcircle(points.0, points.1, points.2) is Some
            &&& is_whole(circle.cx, centre.0)
            &&& is_whole(circle.cy, centre.1)
            &&& circle.r == distance((circle.cx, circle.cy), points.0)
        }),
{
    let (p0, p1, p2) = points;
    let y12 = p1.1.minus_spec(p2.1);
    let y20 = p2.1.minus_spec(p0.1);
    let y01 = p0.1.minus_spec(p1.1);
    let x21 = p2.0.minus_spec(p1.0);
    let x02 = p0.0.minus_spec(p2.0);
    let x10 = p1.0.minus_spec(p0.0);
    let ny = (b.1 - c.1, c.1 - a.1, a.1 - b.1);
    let nx = (c.0 - b.0, a.0 - c.0, b.0 - a.0);
    let area = twice_area(a, b, c);
    lemma_area(a, b, c);
    lemma_whole_combination((p0.0, p1.0, p2.0), (a.0, b.0, c.0), (y12, y20, y01), ny, 1_000);
    let half = combine(p0.0, y12, p1.0, y20, p2.0, y01);
    assert(is_whole(half, area));
    assert(is_whole(Fixed::of_spec(2), 2));
    let d = Fixed::of_spec(2).times_spec(half);
    lemma_whole_product(Fixed::of_spec(2), 2, half, area);
    assert(Fixed::of_spec(10_000_000_000).millionths == 10_000_000_000_000_000);
    assert(1_000_000nat * 1_000_000 / 10_000_000_000_000_000 == 0);
    assert(singular::<Fixed>().millionths == 0);
    assert(!vanishes(d.abs_spec(), singular()));
    lemma_whole_square(p0, a.0, a.1);
    lemma_whole_square(p1, b.0, b.1);
    lemma_whole_square(p2, c.0, c.1);
    let s = (a.0 * a.0 + a.1 * a.1, b.0 * b.0 + b.1 * b.1, c.0 * c.0 + c.1 * c.1);
    let q = (square(p0), square(p1), square(p2));
    lemma_whole_combination(q, s, (y12, y20, y01), ny, 2_000_000);
    lemma_whole_combination(q, s, (x21, x02, x10), nx, 2_000_000);
    let top_x = combine(q.0, y12, q.1, y20, q.2, y01);
    let top_y = combine(q.0, x21, q.1, x02, q.2, x10);
    let u = 2 * centre.0;
    let v = 2 * centre.1;
    let k = radius - centre.0 * centre.0 - centre.1 * centre.1;
    lemma_circle_equation(a.0, a.1, centre, radius);
    lemma_circle_equation(b.0, b.1, centre, radius);
    lemma_circle_equation(c.0, c.1, centre, radius);
    lemma_tops(a, b, c, s, u, v, k);
    assert(u * area == centre.0 * (2 * area)) by (nonlinear_arith)
        requires
            u == 2 * centre.0,
    ;
    assert(v * area == centre.1 * (2 * area)) by (nonlinear_arith)
        requires
            v == 2 * centre.1,
    ;
    lemma_near_centre(a, centre, radius);
    lemma_exact_quotient(top_x, d, centre.0, 2 * area);
    lemma_exact_quotient(top_y, d, centre.1, 2 * area);
}

/// The distance of a spot from the centre is the root of the square of the radius.
proof fn lemma_distance_is_the_radius(
    c: (Fixed, Fixed),
    point: (Fixed, Fixed),
    centre: (int, int),
    spot: (int, int),
    radius: int,
)
    requires
        is_whole(c.0, centre.0),
        is_whole(c.1, centre.1),
        is_whole(point.0, spot.0),
        is_whole(point.1, spot.1),
        is_spot(spot, centre, radius),
        1 <= radius <= 1_000_000,
    ensures
        distance(c, point) == (Fixed { millionths: (radius * 1_000_000) as i64 }).sqrt_spec(),
        500_000 <= distance(c, point).millionths <= 1_000_000_000,
{
    lemma_near_centre(spot, centre, radius);
    let dx = spot.0 - centre.0;
    let dy = spot.1 - centre.1;
    let fx = point.0.minus_spec(c.0);
    let fy = point.1.minus_spec(c.1);
    assert(is_whole(fx, dx));
    assert(is_whole(fy, dy));
    lemma_small_product(dx, dx, 1_000, 1_000);
    lemma_small_product(dy, dy, 1_000, 1_000);
    lemma_whole_product(fx, dx, fx, dx);
    lemma_whole_product(fy, dy, fy, dy);
    let m = Fixed { millionths: (radius * 1_000_000) as i64 };
    assert(fx.times_spec(fx).plus_spec(fy.times_spec(fy)) == m);
    assert(distance(c, point) == m.sqrt_spec());
    lemma_sqrt(m);
    let d = m.sqrt_spec().millionths as int;
    let n = m.millionths as int;
    assert(500_000 <= d <= 1_000_000_000) by (nonlinear_arith)
        requires
            0 <= d,
            d * d <= n * 1_000_000,
            n * 1_000_000 < (d + 1) * (d + 1),
            1_000_000 <= n <= 1_000_000_000_000,
    ;
}

/// The sum of the cross products has the sign of each.
proof fn lemma_turns(
    points: Seq<(Fixed, Fixed)>,
    spots: Seq<(int, int)>,
    c: (Fixed, Fixed),
    centre: (int, int),
    radius: int,
    clockwise: bool,
    n: int,
) -> (sum: int)
    requires
        1 <= n <= points.len() <= spots.len(),
        n <= 1_001,
        radius <= 1_000_000,
        is_whole(c.0, centre.0),
        is_whole(c.1, centre.1),
        forall|i: int|
            0 <= i < points.len() ==> is_whole((#[trigger] points[i]).0, spots[i].0) && is_whole(
                points[i].1,
                spots[i].1,
            ),
        forall|i: int| 0 <= i < points.len() ==> is_spot(#[trigger] spots[i], centre, radius),
        forall|i: int|
            0 <= i < points.len() - 1 ==> if clockwise {
                cross_about(centre, #[trigger] spots[i], spots[i + 1]) < 0
            } else {
                cross_about(centre, spots[i], spots[i + 1]) > 0
            },
    ensures
        is_whole(turns(points, c, n), sum),
        -2_000_000 * n <= sum <= 2_000_000 * n,
        clockwise ==> sum <= 1 - n,
        !clockwise ==> sum >= n - 1,
    decreases n,
{
    if n == 1 {
        0
    } else {
        let before = lemma_turns(points, spots, c, centre, radius, clockwise, n - 1);
        let a = spots[n - 2];
        let b = spots[n - 2 + 1];
        assert(is_spot(spots[n - 2], centre, radius));
        assert(is_spot(spots[n - 1], centre, radius));
        lemma_near_centre(a, centre, radius);
        lemma_near_centre(b, centre, radius);
        let p = points[n - 2];
        let q = points[n - 1];
        let (px, py, qx, qy) = (
            a.0 - centre.0,
            a.1 - centre.1,
            b.0 - centre.0,
            b.1 - centre.1,
        );
        lemma_small_product(px, qy, 1_000, 1_000);
        lemma_small_product(py, qx, 1_000, 1_000);
        lemma_whole_product(p.0.minus_spec(c.0), px, q.1.minus_spec(c.1), qy);
        lemma_whole_product(p.1.minus_spec(c.1), py, q.0.minus_spec(c.0), qx);
        let cross = cross_about(centre, a, b);
        assert(is_whole(turn(p, q, c), cross));
        before + cross
    }
}

// ── Windows ───────────────────────────────────────────────────────────────────

/// The head is at the spots.
proof fn lemma_head_is_at_the_spots(
    p: Seq<Spanned<Command<Fixed>>>,
    spots: Seq<(int, int)>,
    centre: (int, int),
    radius: int,
    clockwise: bool,
    n: int,
)
    requires
        walks_on_circle(p, spots, centre, radius, clockwise),
        0 <= n <= p.len(),
    ensures
        is_whole(state_at(p, n).x, spots[n].0),
        is_whole(state_at(p, n).y, spots[n].1),
        state_at(p, n).is_absolute,
    decreases n,
{
    if n > 0 {
        lemma_head_is_at_the_spots(p, spots, centre, radius, clockwise, n - 1);
        assert(is_step(p, spots, centre, clockwise, n - 1));
    }
}

/// What the moves push adds up.
proof fn lemma_extruded(
    p: Seq<Spanned<Command<Fixed>>>,
    window: Seq<CandidatePoint<Fixed>>,
    n: int,
)
    requires
        0 <= n <= window.len(),
        n <= 1_000,
        forall|k: int| 0 <= k < window.len() ==> #[trigger] is_move_at(p, window[k], k),
        forall|k: int| 0 <= k < window.len() ==> (#[trigger] window[k]).e is Some,
        forall|k: int| 0 <= k < window.len() ==> #[trigger] is_printing(p, k),
    ensures
        n <= extruded(window, n).millionths <= n * 500_000_000_000,
    decreases n,
{
    if n > 0 {
        lemma_extruded(p, window, n - 1);
        assert(is_move_at(p, window[n - 1], n - 1));
        assert(window[n - 1].e is Some);
        assert(is_printing(p, n - 1));
        assert((window[n - 1].e_delta->0).millionths == pushed(p, n - 1));
    }
}

proof fn lemma_equal_sum(list: Seq<Fixed>, c: int, n: int)
    requires
        0 <= n <= list.len(),
        n <= 1_000,
        1 <= c <= 1_000_000_000_000,
        forall|k: int| 0 <= k < list.len() ==> (#[trigger] list[k]).millionths == c,
    ensures
        sum_of(list, n).millionths == n * c,
    decreases n,
{
    if n > 0 {
        lemma_equal_sum(list, c, n - 1);
        assert(list[n - 1].millionths == c);
        assert(n * c == (n - 1) * c + c) by (nonlinear_arith);
        lemma_small_product(n, c, 1_000, 1_000_000_000_000);
    } else {
        assert(n * c == 0) by (nonlinear_arith)
            requires
                n == 0,
        ;
    }
}

/// Equal rates are steady.
proof fn lemma_equal_rates_are_steady(list: Seq<Fixed>, c: int)
    requires
        1 <= list.len() <= 1_000,
        1 <= c <= 1_000_000_000_000,
        forall|k: int| 0 <= k < list.len() ==> (#[trigger] list[k]).millionths == c,
    ensures
        is_steady(list),
{
    let n = list.len() as int;
    lemma_equal_sum(list, c, n);
    let count = Fixed::count_spec(list.len() as u64);
    assert(count.millionths == n * 1_000_000);
    let mean = sum_of(list, n).over_spec(count);
    assert(((n * c) * 1_000_000) / (n * 1_000_000) == c && n * c >= 0) by (nonlinear_arith)
        requires
            n >= 1,
            c >= 1,
    ;
    assert(mean.millionths == c);
    assert forall|i: int| 0 <= i < list.len() implies (#[trigger] list[i]).minus_spec(
        mean,
    ).over_spec(mean).abs_spec().at_most_spec(ratio_spec(1, 100)) by {
        assert(list[i].minus_spec(mean).millionths == 0);
        assert(0int / c == 0) by (nonlinear_arith)
            requires
                c >= 1,
        ;
        assert(Fixed::of_spec(1).millionths == 1_000_000);
        assert(Fixed::of_spec(100).millionths == 100_000_000);
        assert(1_000_000nat * 1_000_000 / 100_000_000 == 10_000);
    }
}

/// Whether the window holds the first `n` moves.
spec fn holds_the_first(
    p: Seq<Spanned<Command<Fixed>>>,
    window: Seq<CandidatePoint<Fixed>>,
    n: int,
) -> bool {
    &&& window.len() == n
    &&& forall|k: int| 0 <= k < n ==> #[trigger] is_move_at(p, window[k], k)
}

/// The angle that the first `n` moves span.
proof fn lemma_span(
    points: Seq<(Fixed, Fixed)>,
    circle: Circle<Fixed>,
    centre: (int, int),
    from: (int, int),
    to: (int, int),
    radius: int,
    clockwise: bool,
)
    requires
        points.len() > 0,
        is_whole(circle.cx, centre.0),
        is_whole(circle.cy, centre.1),
        is_whole(points[0].0, from.0),
        is_whole(points[0].1, from.1),
        is_whole(points.last().0, to.0),
        is_whole(points.last().1, to.1),
        is_on(from, centre, radius),
        is_on(to, centre, radius),
        radius <= 1_000_000,
        runs_clockwise(points, (circle.cx, circle.cy)) == clockwise,
        turn_about(fine(centre), fine(from), fine(to), clockwise) >= 261_799,
    ensures
        !span_of(points, circle).less_spec(least_span()),
{
    let c = (circle.cx, circle.cy);
    lemma_near_centre(from, centre, radius);
    lemma_near_centre(to, centre, radius);
    lemma_bearing(c, points[0]);
    lemma_bearing(c, points.last());
    let a = bearing(c, points[0]);
    let b = bearing(c, points.last());
    lemma_angle_is_small(
        points[0].1.millionths - c.1.millionths,
        points[0].0.millionths - c.0.millionths,
    );
    lemma_angle_is_small(
        points.last().1.millionths - c.1.millionths,
        points.last().0.millionths - c.0.millionths,
    );
    assert(span_of(points, circle) == arc_span_spec(a, b, clockwise));
    lemma_span_of_angles(a, b, clockwise);
    lemma_least_span();
}

/// Points on a circle make up an arc of it.
proof fn lemma_points_make_an_arc(
    points: Seq<(Fixed, Fixed)>,
    spots: Seq<(int, int)>,
    centre: (int, int),
    radius: int,
    clockwise: bool,
    tolerance: Fixed,
)
    requires
        4 <= points.len() <= spots.len(),
        points.len() <= 1_001,
        1 <= radius <= 1_000_000,
        0 <= tolerance.millionths,
        forall|i: int|
            0 <= i < points.len() ==> is_whole((#[trigger] points[i]).0, spots[i].0) && is_whole(
                points[i].1,
                spots[i].1,
            ),
        forall|i: int| 0 <= i < points.len() ==> is_spot(#[trigger] spots[i], centre, radius),
        forall|i: int|
            0 <= i < points.len() - 1 ==> if clockwise {
                cross_about(centre, #[trigger] spots[i], spots[i + 1]) < 0
            } else {
                cross_about(centre, spots[i], spots[i + 1]) > 0
            },
        twice_area(spots[0], spots[points.len() as int / 2], spots[points.len() - 1]) != 0,
        turn_about(fine(centre), fine(spots[0]), fine(spots[points.len() - 1]), clockwise)
            >= 261_799,
    ensures
        circle_of(points) is Some,
        500_000 <= (circle_of(points)->0).r.millionths <= 1_000_000_000,
        forall|i: int|
            0 <= i < points.len() ==> on_circle(
                #[trigger] points[i],
                circle_of(points)->0,
                tolerance,
            ),
        !span_of(points, circle_of(points)->0).less_spec(least_span()),
{
    let n = points.len() - 1;
    let m = points.len() as int / 2;
    assert(is_spot(spots[0], centre, radius) && is_spot(spots[m], centre, radius) && is_spot(
        spots[n],
        centre,
        radius,
    ));
    assert(points[0] == points[0] && points[m] == points[m] && points[n] == points.last());
    lemma_circle_is_theirs(
        (points[0], points[m], points[n]),
        spots[0],
        spots[m],
        spots[n],
        centre,
        radius,
    );
    let circle = circle_of(points)->0;
    let c = (circle.cx, circle.cy);
    lemma_distance_is_the_radius(c, points[0], centre, spots[0], radius);
    assert forall|i: int| 0 <= i < points.len() implies on_circle(
        #[trigger] points[i],
        circle,
        tolerance,
    ) by {
        assert(is_spot(spots[i], centre, radius));
        lemma_distance_is_the_radius(c, points[i], centre, spots[i], radius);
    }
    let sum = lemma_turns(points, spots, c, centre, radius, clockwise, n + 1);
    assert(runs_clockwise(points, c) == clockwise);
    lemma_span(points, circle, centre, spots[0], spots[n], radius, clockwise);
}

/// Three or more moves from the origin are an arc.
proof fn lemma_window_is_an_arc(
    p: Seq<Spanned<Command<Fixed>>>,
    spots: Seq<(int, int)>,
    centre: (int, int),
    radius: int,
    clockwise: bool,
    window: Seq<CandidatePoint<Fixed>>,
    n: int,
    tolerance: Fixed,
)
    requires
        walks_on_circle(p, spots, centre, radius, clockwise),
        3 <= n <= p.len(),
        holds_the_first(p, window, n),
        0 <= tolerance.millionths,
    ensures
        is_arc(window, tolerance),
{
    lemma_window_lies_on_the_circle(p, spots, centre, radius, clockwise, window, n, tolerance);
    lemma_moves_are_alike(p, spots, centre, radius, clockwise, window, n);
    lemma_alike_on_a_circle(window, tolerance);
}

/// Moves that are alike, with points that make up an arc, are an arc.
proof fn lemma_alike_on_a_circle(window: Seq<CandidatePoint<Fixed>>, tolerance: Fixed)
    requires
        window.len() >= 3,
        ({
            let points = window_points(window);
            let circle = circle_of(points)->0;
            &&& circle_of(points) is Some
            &&& 500_000 <= circle.r.millionths <= 1_000_000_000
            &&& forall|i: int|
                0 <= i < points.len() ==> on_circle(#[trigger] points[i], circle, tolerance)
            &&& !span_of(points, circle).less_spec(least_span())
        }),
        forall|i: int|
            0 <= i < window.len() ==> (#[trigger] window[i]).e_delta is Some && window[i].z
                == window[0].z && window[i].feedrate.millionths == window[0].feedrate.millionths,
        extruded(window, window.len() as int).millionths > 0,
        is_steady(rates(window, window.len() as int)),
    ensures
        is_arc(window, tolerance),
{
    assert(Fixed::of_spec(1).millionths == 1_000_000);
    assert(Fixed::of_spec(2).millionths == 2_000_000);
    assert(1_000_000nat * 1_000_000 / 2_000_000 == 500_000);
    assert(Fixed::of_spec(1_000).millionths == 1_000_000_000);
    assert(Fixed::of_spec(10).millionths == 10_000_000);
    assert(1_000_000nat * 1_000_000 / 10_000_000 == 100_000);
}

proof fn lemma_window_lies_on_the_circle(
    p: Seq<Spanned<Command<Fixed>>>,
    spots: Seq<(int, int)>,
    centre: (int, int),
    radius: int,
    clockwise: bool,
    window: Seq<CandidatePoint<Fixed>>,
    n: int,
    tolerance: Fixed,
)
    requires
        walks_on_circle(p, spots, centre, radius, clockwise),
        3 <= n <= p.len(),
        holds_the_first(p, window, n),
        0 <= tolerance.millionths,
    ensures
        ({
            let points = window_points(window);
            let circle = circle_of(points)->0;
            &&& circle_of(points) is Some
            &&& 500_000 <= circle.r.millionths <= 1_000_000_000
            &&& forall|i: int|
                0 <= i < points.len() ==> on_circle(#[trigger] points[i], circle, tolerance)
            &&& !span_of(points, circle).less_spec(least_span())
        }),
{
    let points = window_points(window);
    assert forall|i: int| 0 <= i < points.len() implies is_whole(
        (#[trigger] points[i]).0,
        spots[i].0,
    ) && is_whole(points[i].1, spots[i].1) by {
        lemma_head_is_at_the_spots(p, spots, centre, radius, clockwise, i);
        if i == 0 {
            assert(is_move_at(p, window[0], 0));
        } else {
            assert(is_move_at(p, window[i - 1], i - 1));
        }
    }
    assert forall|i: int| 0 <= i < points.len() - 1 implies if clockwise {
        cross_about(centre, #[trigger] spots[i], spots[i + 1]) < 0
    } else {
        cross_about(centre, spots[i], spots[i + 1]) > 0
    } by {
        assert(is_step(p, spots, centre, clockwise, i));
    }
    let m = points.len() as int / 2;
    assert(0 < m < n);
    assert(twice_area(spots[0], spots[m], spots[n]) != 0);
    assert(is_step(p, spots, centre, clockwise, n - 1));
    lemma_points_make_an_arc(points, spots, centre, radius, clockwise, tolerance);
}

/// The moves extrude forward and steadily, at one height and feedrate.
proof fn lemma_moves_are_alike(
    p: Seq<Spanned<Command<Fixed>>>,
    spots: Seq<(int, int)>,
    centre: (int, int),
    radius: int,
    clockwise: bool,
    window: Seq<CandidatePoint<Fixed>>,
    n: int,
)
    requires
        walks_on_circle(p, spots, centre, radius, clockwise),
        1 <= n <= p.len(),
        holds_the_first(p, window, n),
    ensures
        forall|i: int|
            0 <= i < n ==> (#[trigger] window[i]).e_delta is Some && window[i].z == window[0].z
                && window[i].feedrate.millionths == window[0].feedrate.millionths,
        extruded(window, n).millionths > 0,
        is_steady(rates(window, n)),
{
    assert(is_move_at(p, window[0], 0) && is_step(p, spots, centre, clockwise, 0));
    assert forall|i: int| 0 <= i < n implies (#[trigger] window[i]).e is Some
        && window[i].e_delta is Some && window[i].z == window[0].z
        && window[i].feedrate.millionths == window[0].feedrate.millionths by {
        assert(is_move_at(p, window[i], i));
        assert(is_step(p, spots, centre, clockwise, i));
        assert(original(window[i]) == p[i] && original(window[0]) == p[0]);
    }
    assert forall|k: int| 0 <= k < n implies #[trigger] is_printing(p, k) by {
        assert(is_step(p, spots, centre, clockwise, k));
    }
    assert forall|k: int| 0 <= k < n implies #[trigger] is_move_at(p, window[k], 0 + k) by {}
    lemma_extruded(p, window, n);
    lemma_rates(p, window, 0, n);
    let list = rates(window, n);
    assert forall|k: int| 0 <= k < list.len() implies (#[trigger] list[k]).millionths == flow(
        p,
        0,
    ) by {
        assert(is_step(p, spots, centre, clockwise, k));
        assert(list[k].millionths == flow(p, 0 + k));
    }
    assert(is_printing(p, 0));
    lemma_equal_rates_are_steady(list, flow(p, 0));
}

/// All moves are held back.
proof fn lemma_all_is_held(
    p: Seq<Spanned<Command<Fixed>>>,
    spots: Seq<(int, int)>,
    centre: (int, int),
    radius: int,
    clockwise: bool,
    tolerance: Fixed,
    n: int,
)
    requires
        walks_on_circle(p, spots, centre, radius, clockwise),
        0 <= n <= p.len(),
        0 <= tolerance.millionths,
    ensures
        fit_state(p, tolerance, n).out.len() == 0,
        fit_state(p, tolerance, n).changes.len() == 0,
        holds_the_first(p, fit_state(p, tolerance, n).window, n),
    decreases n,
{
    if n > 0 {
        lemma_all_is_held(p, spots, centre, radius, clockwise, tolerance, n - 1);
        lemma_no_relative(p, spots, centre, radius, clockwise);
        lemma_window_holds_the_last_moves(p, tolerance, n - 1);
        let s = fit_state(p, tolerance, n - 1);
        let c = p[n - 1];
        assert(is_step(p, spots, centre, clockwise, n - 1));
        let pt = s.point(c);
        let grown = s.window.push(pt);
        lemma_head_is_at_the_spots(p, spots, centre, radius, clockwise, n - 1);
        lemma_point(p, s, n - 1);
        assert forall|k: int| 0 <= k < n implies #[trigger] is_move_at(p, grown[k], k) by {
            if k < n - 1 {
                assert(is_move_at(p, s.window[k], k));
            }
        }
        lemma_moves_are_alike(p, spots, centre, radius, clockwise, grown, n);
        assert forall|i: int| 0 <= i < s.window.len() implies (#[trigger] s.window[i]) == grown[i]
            by {}
        assert(grown[n - 1] == pt);
        assert(Fixed::of_spec(1).millionths == 1_000_000);
        assert(Fixed::of_spec(10).millionths == 10_000_000);
        assert(1_000_000nat * 1_000_000 / 10_000_000 == 100_000);
        assert(can_extend(s.window, pt));
        if n >= 3 {
            lemma_window_is_an_arc(p, spots, centre, radius, clockwise, grown, n, tolerance);
        }
        assert(fit_state(p, tolerance, n) == s.after(c, tolerance));
        assert(s.after(c, tolerance).window == grown);
    }
}

proof fn lemma_no_relative(
    p: Seq<Spanned<Command<Fixed>>>,
    spots: Seq<(int, int)>,
    centre: (int, int),
    radius: int,
    clockwise: bool,
)
    requires
        walks_on_circle(p, spots, centre, radius, clockwise),
    ensures
        !has_relative(p),
{
    if has_relative(p) {
        let i = choose|i: int| 0 <= i < p.len() && (#[trigger] p[i]).inner is SetRelative;
        assert(is_step(p, spots, centre, clockwise, i));
    }
}

/// The point of a G1 is that of the move.
proof fn lemma_point(p: Seq<Spanned<Command<Fixed>>>, s: FitState<Fixed>, n: int)
    requires
        0 <= n < p.len(),
        p[n].inner is LinearMove,
        state_at(p, n).is_absolute,
        holds_the_last_moves(p, s, n),
    ensures
        is_move_at(p, s.point(p[n]), n),
{
    assert(Fixed::of_spec(1_500).millionths == 1_500_000_000);
    assert(state_at(p, n + 1) == state_at(p, n).after(p[n].inner));
}

/// A walk along a circle becomes one arc: three or more G1 moves from spot to spot, at one
/// height and feedrate, with the same push per millimetre, that turn by 15 degrees or
/// more about the centre, come out as a single arc, with a single change.
pub proof fn lemma_walks_on_circles_become_arcs(
    p: Seq<Spanned<Command<Fixed>>>,
    spots: Seq<(int, int)>,
    centre: (int, int),
    square: int,
    clockwise: bool,
    tolerance: Fixed,
)
    requires
        walks_on_circle(p, spots, centre, square, clockwise),
        0 <= tolerance.millionths,
    ensures
        fitted(p, tolerance).out.len() == 1,
        words_of_arc(fitted(p, tolerance).out[0].inner) is Some,
        fitted(p, tolerance).changes.len() == 1,
{
    let n = p.len() as int;
    lemma_all_is_held(p, spots, centre, square, clockwise, tolerance, n);
    let s = fit_state(p, tolerance, n);
    lemma_window_is_an_arc(p, spots, centre, square, clockwise, s.window, n, tolerance);
}

} // verus!
