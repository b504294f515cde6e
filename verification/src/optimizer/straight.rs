//! That merged runs are straight, and straight runs are merged.
//!
//! All laws are about decimal numbers, and are stated over whole numbers of
//! millionths.

use vstd::prelude::*;

use crate::fixed::exact::{lemma_length, lemma_product, lemma_way, square_way};
use crate::fixed::Fixed;
use crate::geometry::{length, vector};
use crate::models::{Command, Point3D, Spanned};
use crate::optimizer::collinear::{
    axes_at, collinear_runs, cross, extruder_at, head_at, is_merged, is_proportional, joins,
    lemma_collinear_runs_in_order, lemma_runs_are_joined, merged, negligible, on_line,
    proportional_e, runs_before, way,
};
use crate::optimizer::{has_relative, tolerance};
use crate::scalar::{ratio_spec, vanishes, Scalar};

verus! {

// ── Lines ─────────────────────────────────────────────────────────────────────

/// The cross product of the vectors from `a` to `b` and to `c`, in millionths of
/// millionths.
pub open spec fn exact_cross(
    a: Point3D<Fixed>,
    b: Point3D<Fixed>,
    c: Point3D<Fixed>,
) -> (int, int, int) {
    let bx = b.x.millionths - a.x.millionths;
    let by = b.y.millionths - a.y.millionths;
    let bz = b.z.millionths - a.z.millionths;
    let cx = c.x.millionths - a.x.millionths;
    let cy = c.y.millionths - a.y.millionths;
    let cz = c.z.millionths - a.z.millionths;
    (by * cz - bz * cy, bz * cx - bx * cz, bx * cy - by * cx)
}

/// The sum of three squares.
pub open spec fn square_sum(v: (int, int, int)) -> int {
    v.0 * v.0 + v.1 * v.1 + v.2 * v.2
}

/// Whether `c` is within 0.001 mm of the line through `a` and `b`, up to rounding: the
/// cross product is at most 0.001 mm times the length of the segment, give or take
/// 0.001741 mm².
pub open spec fn is_by_the_line(
    a: Point3D<Fixed>,
    b: Point3D<Fixed>,
    c: Point3D<Fixed>,
) -> bool {
    exists|l: int| l * l <= square_way(a, b) && #[trigger] is_within(a, b, c, l)
}

/// Whether the cross product is at most 0.001 mm times `l`, up to rounding.
pub open spec fn is_within(
    a: Point3D<Fixed>,
    b: Point3D<Fixed>,
    c: Point3D<Fixed>,
    l: int,
) -> bool {
    0 <= l && square_sum(exact_cross(a, b, c)) <= (1_001 * l + 1_741_000_000) * (1_001 * l
        + 1_741_000_000)
}

/// Whether a point is within half a kilometre of the origin on each axis.
pub open spec fn is_reachable(a: Point3D<Fixed>) -> bool {
    &&& -500_000_000_000 <= a.x.millionths <= 500_000_000_000
    &&& -500_000_000_000 <= a.y.millionths <= 500_000_000_000
    &&& -500_000_000_000 <= a.z.millionths <= 500_000_000_000
}

/// One component of a cross product, up to rounding.
proof fn lemma_component(a: Fixed, b: Fixed, c: Fixed, d: Fixed)
    requires
        -1_000_000_000_000 <= a.millionths <= 1_000_000_000_000,
        -1_000_000_000_000 <= b.millionths <= 1_000_000_000_000,
        -1_000_000_000_000 <= c.millionths <= 1_000_000_000_000,
        -1_000_000_000_000 <= d.millionths <= 1_000_000_000_000,
    ensures
        ({
            let f = a.times_spec(b).minus_spec(c.times_spec(d)).millionths as int;
            let exact = a.millionths * b.millionths - c.millionths * d.millionths;
            &&& -2_000_000 < exact - f * 1_000_000 < 2_000_000
            &&& exact == 0 ==> f == 0
        }),
{
    lemma_product(a, b);
    lemma_product(c, d);
    lemma_product_bound(a.millionths as int, b.millionths as int);
    lemma_product_bound(c.millionths as int, d.millionths as int);
    if a.millionths * b.millionths == c.millionths * d.millionths {
        lemma_same_product(a, b, c, d);
    }
}

proof fn lemma_product_bound(x: int, y: int)
    requires
        -1_000_000_000_000 <= x <= 1_000_000_000_000,
        -1_000_000_000_000 <= y <= 1_000_000_000_000,
    ensures
        -1_000_000_000_000_000_000_000_000 <= x * y <= 1_000_000_000_000_000_000_000_000,
{
    assert(-1_000_000_000_000_000_000_000_000 <= x * y <= 1_000_000_000_000_000_000_000_000)
        by (nonlinear_arith)
        requires
            -1_000_000_000_000 <= x <= 1_000_000_000_000,
            -1_000_000_000_000 <= y <= 1_000_000_000_000,
    ;
}

/// Equal products are rounded alike.
proof fn lemma_same_product(a: Fixed, b: Fixed, c: Fixed, d: Fixed)
    requires
        a.millionths * b.millionths == c.millionths * d.millionths,
        -1_000_000_000_000_000_000_000_000 <= a.millionths * b.millionths
            <= 1_000_000_000_000_000_000_000_000,
    ensures
        a.times_spec(b).minus_spec(c.times_spec(d)).millionths == 0,
{
    lemma_rounded_product(a, b);
    lemma_rounded_product(c, d);
}

/// A product is its exact value over a million, rounded toward zero.
proof fn lemma_rounded_product(a: Fixed, b: Fixed)
    requires
        -1_000_000_000_000_000_000_000_000 <= a.millionths * b.millionths
            <= 1_000_000_000_000_000_000_000_000,
    ensures
        ({
            let exact = a.millionths * b.millionths;
            a.times_spec(b).millionths == if exact < 0 {
                -(-exact / 1_000_000)
            } else {
                exact / 1_000_000
            }
        }),
{
    let x = a.millionths as int;
    let y = b.millionths as int;
    let mx = if x < 0 {
        -x
    } else {
        x
    };
    let my = if y < 0 {
        -y
    } else {
        y
    };
    let negative = (x < 0) != (y < 0);
    assert(mx * my >= 0) by (nonlinear_arith)
        requires
            mx >= 0,
            my >= 0,
    ;
    assert(x * y == if negative {
        -(mx * my)
    } else {
        mx * my
    }) by (nonlinear_arith)
        requires
            mx == if x < 0 {
                -x
            } else {
                x
            },
            my == if y < 0 {
                -y
            } else {
                y
            },
            negative == ((x < 0) != (y < 0)),
    ;
}

/// A vector that is close to another, component by component, is not much longer.
proof fn lemma_rounded_vector(
    exact: (int, int, int),
    f: (int, int, int),
    l: int,
)
    requires
        0 <= l,
        -2_000_000 < exact.0 - f.0 * 1_000_000 < 2_000_000,
        -2_000_000 < exact.1 - f.1 * 1_000_000 < 2_000_000,
        -2_000_000 < exact.2 - f.2 * 1_000_000 < 2_000_000,
        square_sum(f) < (l + 1) * (l + 1) + 3_000_000,
    ensures
        square_sum(exact) <= (1_000_000 * l + 1_741_000_000) * (1_000_000 * l + 1_741_000_000),
{
    let r = l + 1_735;
    assert((l + 1) * (l + 1) + 3_000_000 <= r * r) by (nonlinear_arith)
        requires
            r == l + 1_735,
            0 <= l,
    ;
    assert(f.0 * f.0 >= 0 && f.1 * f.1 >= 0 && f.2 * f.2 >= 0) by (nonlinear_arith);
    lemma_rounded_component(exact.0, f.0, r);
    lemma_rounded_component(exact.1, f.1, r);
    lemma_rounded_component(exact.2, f.2, r);
    assert(1_000_000_000_000 * (r * r) + 3 * (4_000_000_000_000 * r + 4_000_000_000_000) <= (
    1_000_000 * (r + 6)) * (1_000_000 * (r + 6))) by (nonlinear_arith)
        requires
            0 <= r,
    ;
    assert(1_000_000 * (r + 6) == 1_000_000 * l + 1_741_000_000);
    assert(square_sum(exact) <= 1_000_000_000_000 * square_sum(f) + 3 * (4_000_000_000_000 * r
        + 4_000_000_000_000));
}

proof fn lemma_rounded_component(exact: int, f: int, r: int)
    requires
        -2_000_000 < exact - f * 1_000_000 < 2_000_000,
        f * f <= r * r,
        0 <= r,
    ensures
        exact * exact <= 1_000_000_000_000 * (f * f) + (4_000_000_000_000 * r + 4_000_000_000_000),
{
    assert(-r <= f <= r) by (nonlinear_arith)
        requires
            f * f <= r * r,
            0 <= r,
    ;
    let d = exact - f * 1_000_000;
    assert(exact * exact == 1_000_000_000_000 * (f * f) + 2_000_000 * (f * d) + d * d)
        by (nonlinear_arith)
        requires
            d == exact - f * 1_000_000,
    ;
    assert(d * d <= 4_000_000_000_000) by (nonlinear_arith)
        requires
            -2_000_000 < d < 2_000_000,
    ;
    assert(f * d <= 2_000_000 * r) by (nonlinear_arith)
        requires
            -2_000_000 < d < 2_000_000,
            -r <= f <= r,
    ;
}

/// The number by which points count as being on a line.
proof fn lemma_line_tolerance()
    ensures
        ratio_spec::<Fixed>(1, 1_000).millionths == 1_000,
        negligible::<Fixed>().millionths == 0,
{
    assert(Fixed::of_spec(1).millionths == 1_000_000);
    assert(Fixed::of_spec(1_000).millionths == 1_000_000_000);
    assert(1_000_000nat * 1_000_000 / 1_000_000_000 == 1_000);
    assert(Fixed::of_spec(1_000_000_000_000).millionths == 1_000_000_000_000_000_000);
    assert(1_000_000nat * 1_000_000 / 1_000_000_000_000_000_000 == 0);
}

/// A segment within reach has a length that can be told.
proof fn lemma_segment(a: Point3D<Fixed>, b: Point3D<Fixed>)
    requires
        is_reachable(a),
        is_reachable(b),
    ensures
        square_way(a, b) < 9_000_000_000_000_000_000_000_000,
{
    let dx = b.x.millionths - a.x.millionths;
    let dy = b.y.millionths - a.y.millionths;
    let dz = b.z.millionths - a.z.millionths;
    lemma_product_bound(dx, dx);
    lemma_product_bound(dy, dy);
    lemma_product_bound(dz, dz);
}

proof fn lemma_cross_is_rounded(a: Point3D<Fixed>, b: Point3D<Fixed>, c: Point3D<Fixed>)
    requires
        is_reachable(a),
        is_reachable(b),
        is_reachable(c),
    ensures
        ({
            let v = cross(vector(a, b), vector(a, c));
            let e = exact_cross(a, b, c);
            &&& -2_000_000 < e.0 - v.x.millionths * 1_000_000 < 2_000_000
            &&& -2_000_000 < e.1 - v.y.millionths * 1_000_000 < 2_000_000
            &&& -2_000_000 < e.2 - v.z.millionths * 1_000_000 < 2_000_000
            &&& e == (0int, 0int, 0int) ==> v.x.millionths == 0 && v.y.millionths == 0
                && v.z.millionths == 0
        }),
{
    let ab = vector(a, b);
    let ac = vector(a, c);
    lemma_component(ab.y, ac.z, ab.z, ac.y);
    lemma_component(ab.z, ac.x, ab.x, ac.z);
    lemma_component(ab.x, ac.y, ab.y, ac.x);
}

/// What counts as on the line is by the line.
proof fn lemma_on_line(a: Point3D<Fixed>, b: Point3D<Fixed>, c: Point3D<Fixed>)
    requires
        is_reachable(a),
        is_reachable(b),
        is_reachable(c),
        on_line(a, b, c),
    ensures
        is_by_the_line(a, b, c),
{
    let ab = vector(a, b);
    let v = cross(ab, vector(a, c));
    lemma_line_tolerance();
    lemma_segment(a, b);
    lemma_way(a, b);
    let al = length(ab).millionths as int;
    let cl = length(v).millionths as int;
    lemma_length(v);
    lemma_cross_is_rounded(a, b, c);
    assert(!vanishes(length(ab), negligible()));
    assert(0 < al <= 3_000_000_000_000);
    let d = length(v).over_spec(length(ab)).millionths as int;
    assert(d <= 1_000);
    let q = (cl * 1_000_000) / al;
    assert(q <= 1_000);
    assert(cl * 1_000_000 < 1_001 * al) by (nonlinear_arith)
        requires
            (cl * 1_000_000) / al <= 1_000,
            al > 0,
    ;
    assert(cl <= 3_000_000_000_000);
    lemma_rounded_vector(
        exact_cross(a, b, c),
        (v.x.millionths as int, v.y.millionths as int, v.z.millionths as int),
        cl,
    );
    let small = 1_000_000 * cl + 1_741_000_000;
    let large = 1_001 * al + 1_741_000_000;
    assert(small * small <= large * large) by (nonlinear_arith)
        requires
            0 <= small <= large,
    ;
    assert(is_within(a, b, c, al));
}

/// Whether the first commands lead nowhere beyond reach.
pub open spec fn stays_reachable(p: Seq<Spanned<Command<Fixed>>>) -> bool {
    forall|n: int| 0 <= n <= p.len() ==> is_reachable(#[trigger] head_at(p, n))
}

/// A merged run keeps the path: wherever the head is between its commands, it is within
/// 0.001 mm of the straight line through the first two targets of the run.
pub proof fn lemma_merged_runs_are_straight(
    p: Seq<Spanned<Command<Fixed>>>,
    k: int,
    n: int,
)
    requires
        stays_reachable(p),
        0 <= k < collinear_runs(p).len(),
        collinear_runs(p)[k].0 <= n <= collinear_runs(p)[k].1,
    ensures
        is_by_the_line(
            head_at(p, collinear_runs(p)[k].0 + 1),
            head_at(p, collinear_runs(p)[k].0 + 2),
            head_at(p, n),
        ),
{
    let (start, end) = collinear_runs(p)[k];
    lemma_collinear_runs_in_order(p);
    lemma_runs_are_joined(p);
    let a = head_at(p, start + 1);
    let b = head_at(p, start + 2);
    let c = head_at(p, n);
    if n == start {
        assert(joins(p, collinear_runs(p)[k].0, start + 1));
        lemma_on_line(a, b, c);
    } else if n >= start + 3 {
        assert(joins(p, collinear_runs(p)[k].0, n - 1));
        lemma_on_line(a, b, c);
    } else {
        let bx = b.x.millionths - a.x.millionths;
        let by = b.y.millionths - a.y.millionths;
        let bz = b.z.millionths - a.z.millionths;
        assert(exact_cross(a, b, c) == (0int, 0int, 0int)) by {
            if n == start + 1 {
                assert(by * 0 - bz * 0 == 0 && bz * 0 - bx * 0 == 0 && bx * 0 - by * 0 == 0)
                    by (nonlinear_arith);
            } else {
                assert(by * bz - bz * by == 0 && bz * bx - bx * bz == 0 && bx * by - by * bx == 0)
                    by (nonlinear_arith);
            }
        }
        assert(square_way(a, b) >= 0) by {
            assert(bx * bx >= 0 && by * by >= 0 && bz * bz >= 0) by (nonlinear_arith);
        }
        assert(is_within(a, b, c, 0));
        assert(0int * 0int <= square_way(a, b));
    }
}

// ── Pace and extrusion ────────────────────────────────────────────────────────

/// Whether two feedrates are both absent, or less than 0.0001 mm/min apart.
pub open spec fn is_same_pace(a: Option<Fixed>, b: Option<Fixed>) -> bool {
    match (a, b) {
        (Some(x), Some(y)) => -100 < x.millionths - y.millionths < 100,
        (None, None) => true,
        _ => false,
    }
}

/// All commands of a merged run have one feedrate, and all or none of them name the
/// extruder; likewise for Z.
pub proof fn lemma_merged_runs_are_uniform(
    p: Seq<Spanned<Command<Fixed>>>,
    k: int,
    i: int,
)
    requires
        0 <= k < collinear_runs(p).len(),
        collinear_runs(p)[k].0 <= i < collinear_runs(p)[k].1,
    ensures
        p[i].inner is LinearMove,
        collinear_runs(p)[k].0 + 3 <= collinear_runs(p)[k].1,
        is_same_pace(axes_at(p, collinear_runs(p)[k].0).f, axes_at(p, i).f),
        axes_at(p, i).e is Some == axes_at(p, collinear_runs(p)[k].0).e is Some,
        axes_at(p, i).z is Some == axes_at(p, collinear_runs(p)[k].0).z is Some,
{
    let (start, end) = collinear_runs(p)[k];
    lemma_collinear_runs_in_order(p);
    lemma_runs_are_joined(p);
    lemma_pace_tolerance();
    assert(p[i].inner is LinearMove);
    if i > start {
        assert(joins(p, collinear_runs(p)[k].0, i));
    }
}

proof fn lemma_pace_tolerance()
    ensures
        tolerance::<Fixed>().millionths == 100,
{
    assert(Fixed::of_spec(1).millionths == 1_000_000);
    assert(Fixed::of_spec(10_000).millionths == 10_000_000_000);
    assert(1_000_000nat * 1_000_000 / 10_000_000_000 == 100);
}

/// The length of the way between two points, as decimal numbers give it, in millionths.
pub open spec fn way_between(a: Point3D<Fixed>, b: Point3D<Fixed>) -> int {
    length(vector(a, b)).millionths as int
}

/// Whether `part` of the whole extrusion `all` is pushed on `done` of the whole way
/// `way`, up to 0.001 mm and rounding.
pub open spec fn is_in_proportion(part: int, all: int, done: int, way: int) -> bool {
    let size = if all < 0 {
        -all
    } else {
        all
    };
    let off = part * way - all * done;
    let slack = 1_001 * way + size * way / 1_000_000 + 1;
    -slack <= off <= slack
}

/// How far a share of an extrusion, rounded twice, can be off.
proof fn lemma_share(part: int, all: int, done: int, way: int, share: int, pushed: int)
    requires
        0 < way,
        0 <= done,
        share * way <= done * 1_000_000 < share * way + way,
        -1_000_000 < all * share - pushed * 1_000_000 < 1_000_000,
        -1_000 <= part - pushed <= 1_000,
    ensures
        is_in_proportion(part, all, done, way),
{
    let size = if all < 0 {
        -all
    } else {
        all
    };
    let rest = done * 1_000_000 - share * way;
    let slip = part * 1_000_000 - all * share;
    assert(-1_001_000_000 < slip < 1_001_000_000);
    assert(part * way * 1_000_000 - all * done * 1_000_000 == slip * way - all * rest)
        by (nonlinear_arith)
        requires
            rest == done * 1_000_000 - share * way,
            slip == part * 1_000_000 - all * share,
    ;
    assert(-(1_001_000_000 * way) <= slip * way <= 1_001_000_000 * way) by (nonlinear_arith)
        requires
            -1_001_000_000 < slip < 1_001_000_000,
            0 < way,
    ;
    assert(-(size * way) <= all * rest <= size * way) by (nonlinear_arith)
        requires
            0 <= rest < way,
            size == if all < 0 {
                -all
            } else {
                all
            },
    ;
    let off = part * way - all * done;
    assert(off * 1_000_000 == part * way * 1_000_000 - all * done * 1_000_000) by (nonlinear_arith)
        requires
            off == part * way - all * done,
    ;
}

/// A merged run extrudes in proportion to the way: where its moves name the extruder,
/// each has pushed the share of the whole that the way so far is of the whole way.
#[verifier::rlimit(30)]
pub proof fn lemma_merged_runs_extrude_in_proportion(
    p: Seq<Spanned<Command<Fixed>>>,
    k: int,
    i: int,
)
    requires
        stays_reachable(p),
        forall|n: int|
            0 <= n <= p.len() ==> -500_000_000_000 <= (#[trigger] extruder_at(p, n)).millionths
                <= 500_000_000_000,
        0 <= k < collinear_runs(p).len(),
        collinear_runs(p)[k].0 <= i < collinear_runs(p)[k].1,
        axes_at(p, collinear_runs(p)[k].0).e is Some,
    ensures
        ({
            let (start, end) = collinear_runs(p)[k];
            let e0 = extruder_at(p, start).millionths;
            is_in_proportion(
                extruder_at(p, i + 1).millionths - e0,
                extruder_at(p, end).millionths - e0,
                way_between(head_at(p, start), head_at(p, i + 1)),
                way_between(head_at(p, start), head_at(p, end)),
            )
        }),
{
    let (start, end) = collinear_runs(p)[k];
    lemma_collinear_runs_in_order(p);
    lemma_runs_are_merged(p, k);
    lemma_line_tolerance();
    assert(is_proportional(p, start, end));
    let e0 = extruder_at(p, start);
    let all = extruder_at(p, end).minus_spec(e0);
    let total = way(p, start, end - 1);
    let done = way(p, start, i);
    lemma_segment(head_at(p, start), head_at(p, end));
    lemma_segment(head_at(p, start), head_at(p, i + 1));
    lemma_way(head_at(p, start), head_at(p, end));
    lemma_way(head_at(p, start), head_at(p, i + 1));
    let w = total.millionths as int;
    let d = done.millionths as int;
    assert(0 < w <= 3_000_000_000_000);
    assert(0 <= d <= 3_000_000_000_000);
    let share = done.over_spec(total);
    let q = (d * 1_000_000) / w;
    vstd::arithmetic::div_mod::lemma_fundamental_div_mod(d * 1_000_000, w);
    assert(q * w == w * q) by (nonlinear_arith);
    assert(0 <= q <= d * 1_000_000) by (nonlinear_arith)
        requires
            q == (d * 1_000_000) / w,
            w > 0,
            d >= 0,
    ;
    assert(share.millionths == q);
    let pushed = all.times_spec(share);
    lemma_product(all, share);
    let expected = e0.plus_spec(pushed);
    assert(expected == proportional_e(p, start, end, i));
    let here = extruder_at(p, i + 1);
    assert(!ratio_spec::<Fixed>(1, 1_000).less_spec(here.minus_spec(expected).abs_spec()));
    lemma_pushed_is_within(e0, pushed, here);
    assert(-i64::MAX < pushed.millionths < i64::MAX);
    lemma_share(
        here.millionths - e0.millionths,
        all.millionths as int,
        d,
        w,
        q,
        pushed.millionths as int,
    );
}

/// A share that the extruder is within 0.001 mm of is within the range of numbers.
proof fn lemma_pushed_is_within(e0: Fixed, pushed: Fixed, here: Fixed)
    requires
        -500_000_000_000 <= e0.millionths <= 500_000_000_000,
        -500_000_000_000 <= here.millionths <= 500_000_000_000,
        -i64::MAX <= pushed.millionths,
        here.minus_spec(e0.plus_spec(pushed)).abs_spec().millionths <= 1_000,
    ensures
        -i64::MAX < pushed.millionths < i64::MAX,
        -1_000 <= here.millionths - e0.millionths - pushed.millionths <= 1_000,
{
}

/// Every run is one that is to be merged.
proof fn lemma_runs_are_merged(p: Seq<Spanned<Command<Fixed>>>, k: int)
    requires
        0 <= k < collinear_runs(p).len(),
    ensures
        is_merged(p, collinear_runs(p)[k].0, collinear_runs(p)[k].1),
{
    let n = p.len() as int;
    let s = runs_before(p, n);
    lemma_runs_are_merged_so_far(p, n);
    if k < s.runs.len() {
        assert(collinear_runs(p)[k] == s.runs[k]);
    }
}

proof fn lemma_runs_are_merged_so_far(p: Seq<Spanned<Command<Fixed>>>, n: int)
    ensures
        forall|k: int|
            0 <= k < runs_before(p, n).runs.len() ==> is_merged(
                p,
                (#[trigger] runs_before(p, n).runs[k]).0,
                runs_before(p, n).runs[k].1,
            ),
    decreases n,
{
    if n > 0 {
        lemma_runs_are_merged_so_far(p, n - 1);
        let before = runs_before(p, n - 1);
        let now = runs_before(p, n);
        assert forall|k: int| 0 <= k < now.runs.len() implies is_merged(
            p,
            (#[trigger] now.runs[k]).0,
            now.runs[k].1,
        ) by {
            if k < before.runs.len() {
                assert(now.runs[k] == before.runs[k]);
            }
        }
    }
}

// ── Straight runs are merged ──────────────────────────────────────────────────

/// Whether the program consists of G1 moves that do not extrude and set no feedrate,
/// all or none of which name Z, and whose targets, with the origin, lie exactly on one
/// line; the first two targets are at least 0.001 mm apart on some axis.
pub open spec fn is_one_line(p: Seq<Spanned<Command<Fixed>>>) -> bool {
    let a = head_at(p, 1);
    let b = head_at(p, 2);
    &&& p.len() >= 3
    &&& stays_reachable(p)
    &&& forall|i: int|
        0 <= i < p.len() ==> (#[trigger] p[i]).inner is LinearMove && axes_at(p, i).e is None
            && axes_at(p, i).f is None && axes_at(p, i).z is Some == axes_at(p, 0).z is Some
    &&& forall|n: int|
        0 <= n <= p.len() ==> exact_cross(a, b, #[trigger] head_at(p, n)) == (0int, 0int, 0int)
    &&& b.x.millionths - a.x.millionths >= 1_000 || a.x.millionths - b.x.millionths >= 1_000
        || b.y.millionths - a.y.millionths >= 1_000 || a.y.millionths - b.y.millionths >= 1_000
        || b.z.millionths - a.z.millionths >= 1_000 || a.z.millionths - b.z.millionths >= 1_000
}

/// A point exactly on a line counts as on it.
proof fn lemma_exactly_on_line(a: Point3D<Fixed>, b: Point3D<Fixed>, c: Point3D<Fixed>)
    requires
        is_reachable(a),
        is_reachable(b),
        is_reachable(c),
        exact_cross(a, b, c) == (0int, 0int, 0int),
        b.x.millionths - a.x.millionths >= 1_000 || a.x.millionths - b.x.millionths >= 1_000
            || b.y.millionths - a.y.millionths >= 1_000 || a.y.millionths - b.y.millionths >= 1_000
            || b.z.millionths - a.z.millionths >= 1_000 || a.z.millionths - b.z.millionths >= 1_000,
    ensures
        on_line(a, b, c),
{
    let ab = vector(a, b);
    let v = cross(ab, vector(a, c));
    lemma_line_tolerance();
    lemma_segment(a, b);
    lemma_way(a, b);
    lemma_cross_is_rounded(a, b, c);
    lemma_length(v);
    let al = length(ab).millionths as int;
    let cl = length(v).millionths as int;
    assert(al > 0);
    assert(length(v).millionths == 0) by {
        assert(v.x.times_spec(v.x).millionths == 0);
        assert(v.y.times_spec(v.y).millionths == 0);
        assert(v.z.times_spec(v.z).millionths == 0);
    }
    assert(length(v).over_spec(length(ab)).millionths == 0);
}

proof fn lemma_one_run(p: Seq<Spanned<Command<Fixed>>>, n: int)
    requires
        is_one_line(p),
        0 <= n <= p.len(),
    ensures
        runs_before(p, n).runs.len() == 0,
        runs_before(p, n).start == 0,
    decreases n,
{
    if n > 0 {
        lemma_one_run(p, n - 1);
        let i = n - 1;
        assert(p[i].inner is LinearMove);
        if i > 0 {
            assert(p[0].inner is LinearMove);
            let c = if i == 1 {
                head_at(p, 0)
            } else {
                head_at(p, i + 1)
            };
            lemma_exactly_on_line(head_at(p, 1), head_at(p, 2), c);
            assert(joins(p, 0, i));
        }
    }
}

/// A program that is exactly one straight line becomes one move.
pub proof fn lemma_one_line_becomes_one_move(p: Seq<Spanned<Command<Fixed>>>)
    requires
        is_one_line(p),
    ensures
        merged(p, collinear_runs(p), p.len() as int).len() == 1,
{
    let n = p.len() as int;
    lemma_one_run(p, n);
    assert(p[0].inner is LinearMove);
    assert(!has_relative(p)) by {
        if has_relative(p) {
            let i = choose|i: int| 0 <= i < p.len() && (#[trigger] p[i]).inner is SetRelative;
            assert(p[i].inner is LinearMove);
        }
    }
    let runs = collinear_runs(p);
    assert(runs =~= seq![(0int, n)]);
    assert(runs.drop_last() =~= Seq::<(int, int)>::empty());
    assert(p.subrange(n, n).len() == 0);
    assert(merged(p, runs.drop_last(), 0).len() == 0);
    assert(runs.last() == (0int, n));
}

} // verus!
