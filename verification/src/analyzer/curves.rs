//! How long arcs are, and how far they reach, told from their words alone.
//!
//! All laws are about decimal numbers, and are stated over whole numbers of
//! millionths.

use vstd::prelude::*;

use crate::analyzer::counts::has_room;
use crate::analyzer::statistics::{is_greatest, is_least};
use crate::analyzer::{simulate, ArcShape, Simulated};
use crate::fixed::exact::{lemma_distance, lemma_near_distance, lemma_product, square_distance};
use crate::fixed::{magnitude, point_angle, quadrant_angle, small_angle, Fixed};
use crate::geometry::{arc_span_spec, bearing, distance};
use crate::models::{Command, MachineLimits, Point3D, Spanned};
use crate::motion::MoveWords;
use crate::optimizer::straight::is_reachable;
use crate::scalar::{ratio_spec, Scalar};

verus! {

// ── Angles ────────────────────────────────────────────────────────────────────

proof fn lemma_small_angle(q: nat)
    requires
        q <= 1_000_000,
    ensures
        small_angle(q) <= 1_100_000,
        q == 1_000_000 ==> small_angle(q) == 785_398,
{
    let slope = 785_398 + 273_000 * (1_000_000 - q) / 1_000_000;
    assert(q * slope <= 1_000_000 * 1_058_398) by (nonlinear_arith)
        requires
            0 <= q <= 1_000_000,
            0 <= slope <= 1_058_398,
    ;
    if q == 1_000_000 {
        assert(q * slope == 785_398_000_000) by (nonlinear_arith)
            requires
                q == 1_000_000,
                slope == 785_398,
        ;
    }
}

/// Angles of swapped coordinates add up to a quarter turn.
proof fn lemma_swapped(y: nat, x: nat)
    requires
        x > 0 || y > 0,
    ensures
        quadrant_angle(y, x) + quadrant_angle(x, y) == 1_570_796,
        0 <= quadrant_angle(y, x) <= 1_570_796,
{
    if y < x {
        lemma_quotient(y, x);
        lemma_small_angle(y * 1_000_000 / x);
    } else if x < y {
        lemma_quotient(x, y);
        lemma_small_angle(x * 1_000_000 / y);
    } else {
        assert(y * 1_000_000 / x == 1_000_000) by (nonlinear_arith)
            requires
                x == y,
                x > 0,
        ;
        lemma_small_angle(1_000_000);
    }
}

proof fn lemma_quotient(a: nat, b: nat)
    requires
        a < b,
    ensures
        a * 1_000_000 / b <= 1_000_000,
{
    assert(a * 1_000_000 / b <= 1_000_000) by (nonlinear_arith)
        requires
            a < b,
    ;
}

/// A quarter turn counter-clockwise turns the angle by a quarter, up to rounding; half a
/// turn by a half.
proof fn lemma_turned(x: int, y: int)
    requires
        x != 0 || y != 0,
    ensures
        ({
            let from = point_angle(y, x);
            let quarter = point_angle(x, -y);
            let half = point_angle(-y, -x);
            &&& -3_141_593 <= from <= 3_141_593
            &&& -3_141_593 <= quarter <= 3_141_593
            &&& -3_141_593 <= half <= 3_141_593
            &&& 1_570_795 <= quarter - from <= 1_570_797 || 1_570_795 <= quarter - from + 6_283_185
                <= 1_570_797
            &&& 3_141_592 <= half - from <= 3_141_593 || 3_141_592 <= half - from + 6_283_185
                <= 3_141_593
        }),
{
    lemma_swapped(magnitude(y), magnitude(x));
    lemma_swapped(magnitude(x), magnitude(y));
    assert(magnitude(-y) == magnitude(y));
    assert(magnitude(-x) == magnitude(x));
    let a = quadrant_angle(magnitude(y), magnitude(x));
    if y == 0 {
        assert(a == 0) by {
            assert(0int * 1_000_000 / (magnitude(x) as int) == 0) by (nonlinear_arith)
                requires
                    magnitude(x) > 0,
            ;
            assert(small_angle(0) == 0);
        }
    }
    if x == 0 {
        assert(a == 1_570_796) by {
            assert(0int * 1_000_000 / (magnitude(y) as int) == 0) by (nonlinear_arith)
                requires
                    magnitude(y) > 0,
            ;
            assert(small_angle(0) == 0);
        }
    }
}

// ── What an arc adds ──────────────────────────────────────────────────────────

/// The point that I and J lead to, in millionths.
pub open spec fn centre_of(s: Simulated<Fixed>, i: Fixed, j: Fixed) -> (int, int) {
    (s.pos.x.millionths + i.millionths, s.pos.y.millionths + j.millionths)
}

proof fn lemma_arc_way<N: Scalar>(
    s: Simulated<N>,
    line: u32,
    w: MoveWords<N>,
    i: Option<N>,
    j: Option<N>,
    clockwise: bool,
    limits: Option<MachineLimits<N>>,
)
    requires
        i is Some || j is Some,
    ensures
        ({
            let t = s.after_arc(line, w.x, w.y, w.z, w.e, w.f, i, j, clockwise, limits);
            let arc = s.arc(t.pos, i, j, clockwise);
            &&& t.stats.total_distance_mm == s.stats.total_distance_mm.plus_spec(arc.len_spec())
            &&& exists|base: Simulated<N>|
                base.stats.bbox_min == s.stats.bbox_min && base.stats.bbox_max == s.stats.bbox_max
                    && t.stats.bbox_min == (#[trigger] bulged_box(base, arc, t.pos)).stats.bbox_min
                    && t.stats.bbox_max == bulged_box(base, arc, t.pos).stats.bbox_max
        }),
{
    let dest = s.destination(w.x, w.y, w.z);
    let ready = s.with_feed(w.f).heading(line, dest, limits).extruded(line, w.e);
    let arc = s.arc(dest, i, j, clockwise);
    let base = ready.travelled(arc.len_spec());
    assert(base.stats.bbox_min == s.stats.bbox_min && base.stats.bbox_max == s.stats.bbox_max);
    assert(base.stats.total_distance_mm == s.stats.total_distance_mm.plus_spec(arc.len_spec()));
    let a = base.boxed(dest);
    let b = a.bulged(arc, 0, dest.z);
    let c = b.bulged(arc, 1, dest.z);
    let d = c.bulged(arc, 2, dest.z);
    let g = d.bulged(arc, 3, dest.z);
    assert(a.stats.total_distance_mm == base.stats.total_distance_mm);
    assert(b.stats.total_distance_mm == base.stats.total_distance_mm);
    assert(c.stats.total_distance_mm == base.stats.total_distance_mm);
    assert(d.stats.total_distance_mm == base.stats.total_distance_mm);
    assert(g.stats.total_distance_mm == base.stats.total_distance_mm);
    let t = s.after_arc(line, w.x, w.y, w.z, w.e, w.f, i, j, clockwise, limits);
    assert(t == g.arrived(dest));
    assert(bulged_box(base, arc, t.pos) == g);
}

/// With the end and the extreme points of an arc taken into the box.
spec fn bulged_box<N: Scalar>(
    base: Simulated<N>,
    arc: ArcShape<N>,
    dest: Point3D<N>,
) -> Simulated<N> {
    base.boxed(dest).bulged(arc, 0, dest.z).bulged(arc, 1, dest.z).bulged(arc, 2, dest.z).bulged(
        arc,
        3,
        dest.z,
    )
}

/// Whether command `n` is an arc with the given centre offsets, and which way it goes.
pub open spec fn is_arc_about(
    command: Command<Fixed>,
    i: Fixed,
    j: Fixed,
    clockwise: bool,
) -> bool {
    match command {
        Command::ArcMoveCW { i: a, j: b, .. } => a == Some(i) && b == Some(j) && clockwise,
        Command::ArcMoveCCW { i: a, j: b, .. } => a == Some(i) && b == Some(j) && !clockwise,
        _ => false,
    }
}

/// The shape of the arc at `n`.
spec fn shape_at(s: Simulated<Fixed>, t: Simulated<Fixed>, i: Fixed, j: Fixed,
    clockwise: bool) -> ArcShape<
    Fixed,
> {
    s.arc(t.pos, Some(i), Some(j), clockwise)
}

proof fn lemma_arc_at(
    p: Seq<Spanned<Command<Fixed>>>,
    limits: Option<MachineLimits<Fixed>>,
    n: int,
    i: Fixed,
    j: Fixed,
    clockwise: bool,
)
    requires
        0 <= n < p.len(),
        is_arc_about(p[n].inner, i, j, clockwise),
    ensures
        ({
            let s = simulate(p, limits, n);
            let t = simulate(p, limits, n + 1);
            let arc = shape_at(s, t, i, j, clockwise);
            &&& t.stats.total_distance_mm == s.stats.total_distance_mm.plus_spec(arc.len_spec())
            &&& exists|base: Simulated<Fixed>|
                base.stats.bbox_min == s.stats.bbox_min && base.stats.bbox_max == s.stats.bbox_max
                    && t.stats.bbox_min == (#[trigger] bulged_box(base, arc, t.pos)).stats.bbox_min
                    && t.stats.bbox_max == bulged_box(base, arc, t.pos).stats.bbox_max
        }),
{
    let s = simulate(p, limits, n);
    match p[n].inner {
        Command::ArcMoveCW { x, y, z, e, f, .. } => {
            lemma_arc_way(
                s,
                p[n].line,
                MoveWords { x, y, z, e, f },
                Some(i),
                Some(j),
                true,
                limits,
            );
        },
        Command::ArcMoveCCW { x, y, z, e, f, .. } => {
            lemma_arc_way(
                s,
                p[n].line,
                MoveWords { x, y, z, e, f },
                Some(i),
                Some(j),
                false,
                limits,
            );
        },
        _ => {},
    }
}

/// Whether offsets are within half a kilometre.
pub open spec fn are_reachable(i: Fixed, j: Fixed) -> bool {
    &&& -500_000_000_000 <= i.millionths <= 500_000_000_000
    &&& -500_000_000_000 <= j.millionths <= 500_000_000_000
}

/// The centre, the bearing of the start and the radius of an arc.
proof fn lemma_shape(
    s: Simulated<Fixed>,
    t: Simulated<Fixed>,
    i: Fixed,
    j: Fixed,
    clockwise: bool,
)
    requires
        is_reachable(s.pos),
        is_reachable(t.pos),
        are_reachable(i, j),
        i.millionths != 0 || j.millionths != 0,
    ensures
        ({
            let arc = shape_at(s, t, i, j, clockwise);
            let (cx, cy) = centre_of(s, i, j);
            let r = arc.radius().millionths as int;
            let square = i.millionths * i.millionths + j.millionths * j.millionths;
            &&& arc.centre.0.millionths == cx && arc.centre.1.millionths == cy
            &&& bearing(arc.centre, arc.start).millionths == point_angle(
                -j.millionths,
                -i.millionths,
            )
            &&& bearing(arc.centre, arc.end).millionths == point_angle(
                t.pos.y.millionths - cy,
                t.pos.x.millionths - cx,
            )
            &&& 0 <= r <= 1_000_000_000_000
            &&& r * r <= square
            &&& square < (r + 1) * (r + 1) + 2_000_000
        }),
{
    let arc = shape_at(s, t, i, j, clockwise);
    let (cx, cy) = centre_of(s, i, j);
    lemma_distance(arc.centre, arc.start);
    let x = i.millionths as int;
    let y = j.millionths as int;
    assert(x * x <= 250_000_000_000_000_000_000_000 && y * y <= 250_000_000_000_000_000_000_000)
        by (nonlinear_arith)
        requires
            -500_000_000_000 <= x <= 500_000_000_000,
            -500_000_000_000 <= y <= 500_000_000_000,
    ;
    assert((-x) * (-x) == x * x && (-y) * (-y) == y * y) by (nonlinear_arith);
    assert(square_distance(arc.centre, arc.start) == x * x + y * y);
    lemma_radius_is_small(arc.centre, arc.start);
    lemma_angle_is_small(-y, -x);
    lemma_angle_is_small(t.pos.y.millionths - cy, t.pos.x.millionths - cx);
    let r = arc.radius().millionths as int;
    assert(r <= 1_000_000_000_000) by (nonlinear_arith)
        requires
            r * r <= 500_000_000_000_000_000_000_000,
            r >= 0,
    ;
}

/// Angles are at most half a turn in size.
pub proof fn lemma_angle_is_small(y: int, x: int)
    ensures
        -3_141_593 <= point_angle(y, x) <= 3_141_593,
{
    if x != 0 || y != 0 {
        lemma_turned(x, y);
    }
}

proof fn lemma_radius_is_small(a: (Fixed, Fixed), b: (Fixed, Fixed))
    requires
        square_distance(a, b) <= 500_000_000_000_000_000_000_000,
    ensures
        distance(a, b).millionths <= 3_000_000_000_000,
{
    lemma_near_distance(a, b);
}

/// Whether `d` is `r` times an angle between `low` and `high` millionths of a radian, up
/// to a millionth.
pub open spec fn is_way_of(d: int, r: int, low: int, high: int) -> bool {
    r * low - 1_000_000 < d * 1_000_000 < r * high + 1_000_000
}

/// Whether `r` is the length of the vector (`i`, `j`), up to rounding.
pub open spec fn is_radius(r: int, i: Fixed, j: Fixed) -> bool {
    let square = i.millionths * i.millionths + j.millionths * j.millionths;
    0 <= r && r * r <= square && square < (r + 1) * (r + 1) + 2_000_000
}

proof fn lemma_way_of(radius: Fixed, span: Fixed, low: int, high: int)
    requires
        0 <= radius.millionths <= 1_000_000_000_000,
        0 <= low <= span.millionths <= high <= 6_283_185,
    ensures
        is_way_of(
            radius.times_spec(span).millionths as int,
            radius.millionths as int,
            low,
            high,
        ),
        0 <= radius.times_spec(span).millionths <= 7_000_000_000_000,
{
    let r = radius.millionths as int;
    let s = span.millionths as int;
    lemma_product(radius, span);
    assert(0 <= r * s <= 6_283_185_000_000_000_000) by (nonlinear_arith)
        requires
            0 <= r <= 1_000_000_000_000,
            0 <= s <= 6_283_185,
    ;
    assert(r * low <= r * s <= r * high) by (nonlinear_arith)
        requires
            0 <= r,
            low <= s <= high,
    ;
}

/// The way of an arc whose span lies between `low` and `high`.
proof fn lemma_arc_distance(
    s: Simulated<Fixed>,
    t: Simulated<Fixed>,
    i: Fixed,
    j: Fixed,
    clockwise: bool,
    low: int,
    high: int,
)
    requires
        has_room(s),
        is_reachable(t.pos),
        are_reachable(i, j),
        i.millionths != 0 || j.millionths != 0,
        t.stats.total_distance_mm == s.stats.total_distance_mm.plus_spec(
            shape_at(s, t, i, j, clockwise).len_spec(),
        ),
        0 <= low <= shape_at(s, t, i, j, clockwise).span().millionths <= high <= 6_283_185,
    ensures
        exists|r: int|
            is_radius(r, i, j) && #[trigger] is_way_of(
                t.stats.total_distance_mm.millionths - s.stats.total_distance_mm.millionths,
                r,
                low,
                high,
            ),
{
    let arc = shape_at(s, t, i, j, clockwise);
    lemma_shape(s, t, i, j, clockwise);
    lemma_way_of(arc.radius(), arc.span(), low, high);
    let r = arc.radius().millionths as int;
    assert(is_radius(r, i, j));
    assert(arc.len_spec() == arc.radius().times_spec(arc.span()));
    assert(is_way_of(
        t.stats.total_distance_mm.millionths - s.stats.total_distance_mm.millionths,
        r,
        low,
        high,
    ));
}

proof fn lemma_span_between(start: Fixed, end: Fixed, clockwise: bool)
    requires
        -3_141_593 <= start.millionths <= 3_141_593,
        -3_141_593 <= end.millionths <= 3_141_593,
    ensures
        ({
            let d = if clockwise {
                start.millionths - end.millionths
            } else {
                end.millionths - start.millionths
            };
            &&& 0 < d <= 6_283_185 ==> arc_span_spec(start, end, clockwise).millionths == d
            &&& -6_283_185 < d <= 0 ==> arc_span_spec(start, end, clockwise).millionths == d
                + 6_283_185
        }),
{
    let tiny = ratio_spec::<Fixed>(1, 10_000_000_000);
    assert(Fixed::of_spec(10_000_000_000).millionths == 10_000_000_000_000_000);
    assert(1_000_000nat * 1_000_000 / 10_000_000_000_000_000 == 0);
    assert(tiny.millionths == 0);
}

/// An arc that ends where it begins is a full circle about the centre that its I and J
/// name: it adds the circumference of that circle, 6.283185 radii.
pub proof fn lemma_full_circle(
    p: Seq<Spanned<Command<Fixed>>>,
    limits: Option<MachineLimits<Fixed>>,
    n: int,
    i: Fixed,
    j: Fixed,
    clockwise: bool,
)
    requires
        0 <= n < p.len(),
        is_arc_about(p[n].inner, i, j, clockwise),
        has_room(simulate(p, limits, n)),
        is_reachable(simulate(p, limits, n + 1).pos),
        are_reachable(i, j),
        i.millionths != 0 || j.millionths != 0,
        simulate(p, limits, n + 1).pos.x == simulate(p, limits, n).pos.x,
        simulate(p, limits, n + 1).pos.y == simulate(p, limits, n).pos.y,
    ensures
        exists|r: int|
            is_radius(r, i, j) && #[trigger] is_way_of(
                simulate(p, limits, n + 1).stats.total_distance_mm.millionths - simulate(
                    p,
                    limits,
                    n,
                ).stats.total_distance_mm.millionths,
                r,
                6_283_185,
                6_283_185,
            ),
{
    lemma_arc_at(p, limits, n, i, j, clockwise);
    lemma_full_turn(simulate(p, limits, n), simulate(p, limits, n + 1), i, j, clockwise);
}

proof fn lemma_full_turn(
    s: Simulated<Fixed>,
    t: Simulated<Fixed>,
    i: Fixed,
    j: Fixed,
    clockwise: bool,
)
    requires
        has_room(s),
        is_reachable(t.pos),
        are_reachable(i, j),
        i.millionths != 0 || j.millionths != 0,
        t.pos.x == s.pos.x,
        t.pos.y == s.pos.y,
        t.stats.total_distance_mm == s.stats.total_distance_mm.plus_spec(
            shape_at(s, t, i, j, clockwise).len_spec(),
        ),
    ensures
        exists|r: int|
            is_radius(r, i, j) && #[trigger] is_way_of(
                t.stats.total_distance_mm.millionths - s.stats.total_distance_mm.millionths,
                r,
                6_283_185,
                6_283_185,
            ),
{
    let arc = shape_at(s, t, i, j, clockwise);
    lemma_shape(s, t, i, j, clockwise);
    lemma_angle_is_small(-j.millionths, -i.millionths);
    let from = bearing(arc.centre, arc.start);
    lemma_span_between(from, from, clockwise);
    assert(arc.end == arc.start);
    lemma_arc_distance(s, t, i, j, clockwise, 6_283_185, 6_283_185);
}

/// A G3 that leads a quarter turn around its centre adds a quarter of the circumference,
/// and a G2 that leads there adds three quarters; half a turn is half either way.
pub proof fn lemma_quarter_and_half_circles(
    p: Seq<Spanned<Command<Fixed>>>,
    limits: Option<MachineLimits<Fixed>>,
    n: int,
    i: Fixed,
    j: Fixed,
    clockwise: bool,
)
    requires
        0 <= n < p.len(),
        is_arc_about(p[n].inner, i, j, clockwise),
        has_room(simulate(p, limits, n)),
        is_reachable(simulate(p, limits, n + 1).pos),
        are_reachable(i, j),
        i.millionths != 0 || j.millionths != 0,
    ensures
        ({
            let s = simulate(p, limits, n);
            let t = simulate(p, limits, n + 1);
            let (cx, cy) = centre_of(s, i, j);
            let x = t.pos.x.millionths - cx;
            let y = t.pos.y.millionths - cy;
            let d = t.stats.total_distance_mm.millionths - s.stats.total_distance_mm.millionths;
            &&& (x, y) == (j.millionths as int, -i.millionths) && !clockwise ==> (exists|r: int|
                is_radius(r, i, j) && #[trigger] is_way_of(d, r, 1_570_795, 1_570_797))
            &&& (x, y) == (j.millionths as int, -i.millionths) && clockwise ==> (exists|r: int|
                is_radius(r, i, j) && #[trigger] is_way_of(d, r, 4_712_388, 4_712_390))
            &&& (x, y) == (i.millionths as int, j.millionths as int) ==> (exists|r: int|
                is_radius(r, i, j) && #[trigger] is_way_of(d, r, 3_141_592, 3_141_593))
        }),
{
    lemma_arc_at(p, limits, n, i, j, clockwise);
    lemma_quarter_and_half(simulate(p, limits, n), simulate(p, limits, n + 1), i, j, clockwise);
}

proof fn lemma_quarter_and_half(
    s: Simulated<Fixed>,
    t: Simulated<Fixed>,
    i: Fixed,
    j: Fixed,
    clockwise: bool,
)
    requires
        has_room(s),
        is_reachable(t.pos),
        are_reachable(i, j),
        i.millionths != 0 || j.millionths != 0,
        t.stats.total_distance_mm == s.stats.total_distance_mm.plus_spec(
            shape_at(s, t, i, j, clockwise).len_spec(),
        ),
    ensures
        ({
            let (cx, cy) = centre_of(s, i, j);
            let x = t.pos.x.millionths - cx;
            let y = t.pos.y.millionths - cy;
            let d = t.stats.total_distance_mm.millionths - s.stats.total_distance_mm.millionths;
            &&& (x, y) == (j.millionths as int, -i.millionths) && !clockwise ==> (exists|r: int|
                is_radius(r, i, j) && #[trigger] is_way_of(d, r, 1_570_795, 1_570_797))
            &&& (x, y) == (j.millionths as int, -i.millionths) && clockwise ==> (exists|r: int|
                is_radius(r, i, j) && #[trigger] is_way_of(d, r, 4_712_388, 4_712_390))
            &&& (x, y) == (i.millionths as int, j.millionths as int) ==> (exists|r: int|
                is_radius(r, i, j) && #[trigger] is_way_of(d, r, 3_141_592, 3_141_593))
        }),
{
    let arc = shape_at(s, t, i, j, clockwise);
    let (cx, cy) = centre_of(s, i, j);
    let x = t.pos.x.millionths - cx;
    let y = t.pos.y.millionths - cy;
    lemma_shape(s, t, i, j, clockwise);
    lemma_turned(-i.millionths, -j.millionths);
    let from = bearing(arc.centre, arc.start);
    let to = bearing(arc.centre, arc.end);
    lemma_angle_is_small(y, x);
    lemma_span_between(from, to, clockwise);
    if x == j.millionths && y == -i.millionths {
        if clockwise {
            lemma_arc_distance(s, t, i, j, clockwise, 4_712_388, 4_712_390);
        } else {
            lemma_arc_distance(s, t, i, j, clockwise, 1_570_795, 1_570_797);
        }
    }
    if x == i.millionths && y == j.millionths {
        lemma_arc_distance(s, t, i, j, clockwise, 3_141_592, 3_141_593);
    }
}

// ── How far an arc reaches ────────────────────────────────────────────────────

/// The extreme points of an arc, and where they lie.
proof fn lemma_extremes(arc: ArcShape<Fixed>)
    ensures
        ({
            let (cx, cy) = arc.centre;
            let r = arc.radius();
            &&& arc.extremes()[0].0.millionths == 0
            &&& arc.extremes()[0].1 == (cx.plus_spec(r), cy)
            &&& arc.extremes()[1].0.millionths == 1_570_796
            &&& arc.extremes()[1].1 == (cx, cy.plus_spec(r))
            &&& arc.extremes()[2].0.millionths == 3_141_593
            &&& arc.extremes()[2].1 == (cx.minus_spec(r), cy)
            &&& arc.extremes()[3].0.millionths == -1_570_796
            &&& arc.extremes()[3].1 == (cx, cy.minus_spec(r))
        }),
{
    assert(Fixed::of_spec(2).millionths == 2_000_000);
    assert(3_141_593nat * 1_000_000 / 2_000_000 == 1_570_796);
}

/// What the extreme points add to the box, one after the other.
proof fn lemma_bulges(base: Simulated<Fixed>, arc: ArcShape<Fixed>, dest: Point3D<Fixed>)
    ensures
        ({
            let t = bulged_box(base, arc, dest);
            let low = base.stats.bbox_min;
            let high = base.stats.bbox_max;
            let (right, top, left, bottom) = (
                arc.extremes()[0].1,
                arc.extremes()[1].1,
                arc.extremes()[2].1,
                arc.extremes()[3].1,
            );
            &&& arc.passes(arc.extremes()[0].0) ==> right.0.millionths
                <= t.stats.bbox_max.x.millionths
            &&& arc.passes(arc.extremes()[1].0) ==> top.1.millionths
                <= t.stats.bbox_max.y.millionths
            &&& arc.passes(arc.extremes()[2].0) ==> t.stats.bbox_min.x.millionths
                <= left.0.millionths
            &&& arc.passes(arc.extremes()[3].0) ==> t.stats.bbox_min.y.millionths
                <= bottom.1.millionths
        }),
{
    let a = base.boxed(dest);
    let b = a.bulged(arc, 0, dest.z);
    let c = b.bulged(arc, 1, dest.z);
    let d = c.bulged(arc, 2, dest.z);
    lemma_bulged(a, arc, 0, dest.z);
    lemma_bulged(b, arc, 1, dest.z);
    lemma_bulged(c, arc, 2, dest.z);
    lemma_bulged(d, arc, 3, dest.z);
}

/// An extreme point is taken in if the arc passes it, and else the box stays.
proof fn lemma_bulged(s: Simulated<Fixed>, arc: ArcShape<Fixed>, k: int, height: Fixed)
    ensures
        ({
            let t = s.bulged(arc, k, height);
            let (angle, (x, y)) = arc.extremes()[k];
            &&& t.stats.bbox_min.x.millionths <= s.stats.bbox_min.x.millionths
            &&& t.stats.bbox_min.y.millionths <= s.stats.bbox_min.y.millionths
            &&& s.stats.bbox_max.x.millionths <= t.stats.bbox_max.x.millionths
            &&& s.stats.bbox_max.y.millionths <= t.stats.bbox_max.y.millionths
            &&& arc.passes(angle) ==> {
                &&& is_least(t.stats.bbox_min.x, s.stats.bbox_min.x, x)
                &&& is_least(t.stats.bbox_min.y, s.stats.bbox_min.y, y)
                &&& is_greatest(t.stats.bbox_max.x, s.stats.bbox_max.x, x)
                &&& is_greatest(t.stats.bbox_max.y, s.stats.bbox_max.y, y)
            }
            &&& !arc.passes(angle) ==> t == s
        }),
{
}

/// Whether the start of an arc can be told from the leftmost point of its circle, if it
/// lies below it: the angle between them is at least a millionth.
pub open spec fn is_told_from_the_left(i: Fixed, j: Fixed) -> bool {
    i.millionths > 0 && j.millionths > 0 ==> i.millionths <= j.millionths * 1_000_000
}

proof fn lemma_told_from_the_left(i: Fixed, j: Fixed)
    requires
        i.millionths != 0 || j.millionths != 0,
        is_told_from_the_left(i, j),
    ensures
        -3_141_593 < point_angle(-j.millionths, -i.millionths) <= 3_141_593,
{
    lemma_angle_is_small(-j.millionths, -i.millionths);
    let x = i.millionths as int;
    let y = j.millionths as int;
    assert(magnitude(-y) == magnitude(y) && magnitude(-x) == magnitude(x));
    lemma_swapped(magnitude(y), magnitude(x));
    if x > 0 && y > 0 {
        if y <= x {
            let q = (y * 1_000_000) / x;
            assert(1 <= q <= 1_000_000) by (nonlinear_arith)
                requires
                    q == (y * 1_000_000) / x,
                    0 < x <= y * 1_000_000,
                    y <= x,
            ;
            let slope = 785_398 + 273_000 * (1_000_000 - q) / 1_000_000;
            assert(q * slope >= 1_000_000) by {
                if q == 1 {
                    assert(slope == 1_058_397);
                    assert(q * slope == 1_058_397) by (nonlinear_arith)
                        requires
                            q == 1,
                            slope == 1_058_397,
                    ;
                } else {
                    assert(q * slope >= 2 * 785_398) by (nonlinear_arith)
                        requires
                            q >= 2,
                            slope >= 785_398,
                    ;
                }
            }
            assert(small_angle(q as nat) >= 1);
        } else {
            lemma_quotient(x as nat, y as nat);
            lemma_small_angle((x * 1_000_000 / y) as nat);
        }
    }
}

/// A full circle reaches its radius beyond its centre in all four directions.
pub proof fn lemma_full_circle_reaches_all_around(
    p: Seq<Spanned<Command<Fixed>>>,
    limits: Option<MachineLimits<Fixed>>,
    n: int,
    i: Fixed,
    j: Fixed,
    clockwise: bool,
)
    requires
        0 <= n < p.len(),
        is_arc_about(p[n].inner, i, j, clockwise),
        is_reachable(simulate(p, limits, n).pos),
        is_reachable(simulate(p, limits, n + 1).pos),
        are_reachable(i, j),
        i.millionths != 0 || j.millionths != 0,
        simulate(p, limits, n + 1).pos.x == simulate(p, limits, n).pos.x,
        simulate(p, limits, n + 1).pos.y == simulate(p, limits, n).pos.y,
        is_told_from_the_left(i, j),
    ensures
        exists|r: int| #[trigger]
            is_radius(r, i, j) && reaches(
                simulate(p, limits, n + 1),
                centre_of(simulate(p, limits, n), i, j),
                r,
            ),
{
    lemma_arc_at(p, limits, n, i, j, clockwise);
    lemma_full_reach(simulate(p, limits, n), simulate(p, limits, n + 1), i, j, clockwise);
}

/// Whether the box reaches `r` beyond `centre` in all four directions.
pub open spec fn reaches(t: Simulated<Fixed>, centre: (int, int), r: int) -> bool {
    &&& centre.0 + r <= t.stats.bbox_max.x.millionths
    &&& centre.1 + r <= t.stats.bbox_max.y.millionths
    &&& t.stats.bbox_min.x.millionths <= centre.0 - r
    &&& t.stats.bbox_min.y.millionths <= centre.1 - r
}

proof fn lemma_full_reach(
    s: Simulated<Fixed>,
    t: Simulated<Fixed>,
    i: Fixed,
    j: Fixed,
    clockwise: bool,
)
    requires
        is_reachable(s.pos),
        is_reachable(t.pos),
        are_reachable(i, j),
        i.millionths != 0 || j.millionths != 0,
        t.pos.x == s.pos.x,
        t.pos.y == s.pos.y,
        is_told_from_the_left(i, j),
        exists|base: Simulated<Fixed>|
            base.stats.bbox_min == s.stats.bbox_min && base.stats.bbox_max == s.stats.bbox_max
                && t.stats.bbox_min == (#[trigger] bulged_box(
                base,
                shape_at(s, t, i, j, clockwise),
                t.pos,
            )).stats.bbox_min && t.stats.bbox_max == bulged_box(
                base,
                shape_at(s, t, i, j, clockwise),
                t.pos,
            ).stats.bbox_max,
    ensures
        exists|r: int| #[trigger]
            is_radius(r, i, j) && reaches(t, centre_of(s, i, j), r),
{
    let arc = shape_at(s, t, i, j, clockwise);
    let base = choose|base: Simulated<Fixed>|
        base.stats.bbox_min == s.stats.bbox_min && base.stats.bbox_max == s.stats.bbox_max
            && t.stats.bbox_min == (#[trigger] bulged_box(base, arc, t.pos)).stats.bbox_min
            && t.stats.bbox_max == bulged_box(base, arc, t.pos).stats.bbox_max;
    lemma_shape(s, t, i, j, clockwise);
    lemma_extremes(arc);
    lemma_bulges(base, arc, t.pos);
    let from = bearing(arc.centre, arc.start);
    lemma_told_from_the_left(i, j);
    assert(arc.end == arc.start);
    lemma_span_between(from, from, clockwise);
    assert(arc.span().millionths == 6_283_185);
    lemma_always_passed(arc, from, arc.extremes()[0].0);
    lemma_always_passed(arc, from, arc.extremes()[1].0);
    lemma_always_passed(arc, from, arc.extremes()[2].0);
    lemma_always_passed(arc, from, arc.extremes()[3].0);
    let r = arc.radius().millionths as int;
    assert(is_radius(r, i, j));
    assert(reaches(t, centre_of(s, i, j), r));
}

/// A full circle passes every angle.
proof fn lemma_always_passed(arc: ArcShape<Fixed>, from: Fixed, angle: Fixed)
    requires
        from == bearing(arc.centre, arc.start),
        -3_141_593 < from.millionths <= 3_141_593,
        -3_141_593 < angle.millionths <= 3_141_593,
        arc.span().millionths == 6_283_185,
    ensures
        arc.passes(angle),
{
    lemma_span_between(from, angle, arc.clockwise);
    let tiny = ratio_spec::<Fixed>(1, 10_000_000_000);
    assert(Fixed::of_spec(10_000_000_000).millionths == 10_000_000_000_000_000);
    assert(1_000_000nat * 1_000_000 / 10_000_000_000_000_000 == 0);
    assert(tiny.millionths == 0);
}

} // verus!
