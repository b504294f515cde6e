//! The circle of least algebraic distance, for points that lie on a circle.

use vstd::prelude::*;

use crate::arc_fitter::circles::{is_whole, lemma_small_product, lemma_whole_product};
use crate::arc_fitter::{determinant, minor, pratt_circle, pratt_sums, singular, square, PrattSums};
use crate::fixed::exact::lemma_sqrt;
use crate::fixed::{magnitude, Fixed};
use crate::scalar::{vanishes, Scalar};

verus! {

/// The sum of what `f` makes of the first `n` points.
pub open spec fn total(
    spots: Seq<(int, int)>,
    f: spec_fn((int, int)) -> int,
    n: int,
) -> int
    decreases n,
{
    if n <= 0 {
        0
    } else {
        total(spots, f, n - 1) + f(spots[n - 1])
    }
}

/// How the points spread: the determinant of the sums of their coordinates and products,
/// which is zero where they all lie on a line.
pub open spec fn spread(spots: Seq<(int, int)>) -> int {
    let n = spots.len() as int;
    let x = total(spots, |s: (int, int)| s.0, n);
    let y = total(spots, |s: (int, int)| s.1, n);
    let xx = total(spots, |s: (int, int)| s.0 * s.0, n);
    let yy = total(spots, |s: (int, int)| s.1 * s.1, n);
    let xy = total(spots, |s: (int, int)| s.0 * s.1, n);
    xx * (yy * n - y * y) - xy * (xy * n - y * x) + x * (xy * y - yy * x)
}

/// Whether the points are the given spots at whole millimetres, within 20 mm of the
/// origin, all on the circle about `centre` whose radius has the square `square`.
pub open spec fn lie_on_circle(
    points: Seq<(Fixed, Fixed)>,
    spots: Seq<(int, int)>,
    centre: (int, int),
    square: int,
) -> bool {
    &&& points.len() == spots.len()
    &&& forall|i: int|
        0 <= i < points.len() ==> {
            let s = #[trigger] spots[i];
            &&& is_whole(points[i].0, s.0)
            &&& is_whole(points[i].1, s.1)
            &&& -20 <= s.0 <= 20
            &&& -20 <= s.1 <= 20
            &&& (s.0 - centre.0) * (s.0 - centre.0) + (s.1 - centre.1) * (s.1 - centre.1)
                == square
        }
}

/// The sums over whole points.
struct Sums {
    x: int,
    y: int,
    xx: int,
    yy: int,
    xy: int,
    b: int,
    xb: int,
    yb: int,
}

spec fn within(v: int, bound: int) -> bool {
    -bound <= v <= bound
}

spec fn are_the_sums(s: PrattSums<Fixed>, t: Sums) -> bool {
    &&& is_whole(s.x, t.x) && is_whole(s.y, t.y)
    &&& is_whole(s.xx, t.xx) && is_whole(s.yy, t.yy) && is_whole(s.xy, t.xy)
    &&& is_whole(s.b, t.b) && is_whole(s.xb, t.xb) && is_whole(s.yb, t.yb)
}

spec fn are_bounded(t: Sums, n: int) -> bool {
    &&& within(t.x, 20 * n) && within(t.y, 20 * n)
    &&& within(t.xx, 400 * n) && within(t.yy, 400 * n) && within(t.xy, 400 * n)
    &&& within(t.b, 800 * n) && within(t.xb, 16_000 * n) && within(t.yb, 16_000 * n)
}

/// The sums with `b` follow from the others, where all points are on the circle.
spec fn are_related(t: Sums, n: int, u: int, v: int, k: int) -> bool {
    &&& t.xb == -(u * t.xx + v * t.xy + k * t.x)
    &&& t.yb == -(u * t.xy + v * t.yy + k * t.y)
    &&& t.b == -(u * t.x + v * t.y + k * n)
}

/// A point adds to the sums.
proof fn lemma_point_relates(t: Sums, n: int, u: int, v: int, k: int, x: int, y: int)
    requires
        are_related(t, n, u, v, k),
        x * x + y * y == u * x + v * y + k,
    ensures
        ({
            let b = -(x * x + y * y);
            are_related(
                Sums {
                    x: t.x + x,
                    y: t.y + y,
                    xx: t.xx + x * x,
                    yy: t.yy + y * y,
                    xy: t.xy + x * y,
                    b: t.b + b,
                    xb: t.xb + x * b,
                    yb: t.yb + y * b,
                },
                n + 1,
                u,
                v,
                k,
            )
        }),
{
    let b = -(x * x + y * y);
    assert(b == -(u * x + v * y + k));
    assert(x * b == -(u * (x * x) + v * (x * y) + k * x)) by (nonlinear_arith)
        requires
            b == -(u * x + v * y + k),
    ;
    assert(y * b == -(u * (x * y) + v * (y * y) + k * y)) by (nonlinear_arith)
        requires
            b == -(u * x + v * y + k),
    ;
    assert(u * (t.xx + x * x) == u * t.xx + u * (x * x)) by (nonlinear_arith);
    assert(v * (t.xy + x * y) == v * t.xy + v * (x * y)) by (nonlinear_arith);
    assert(u * (t.xy + x * y) == u * t.xy + u * (x * y)) by (nonlinear_arith);
    assert(v * (t.yy + y * y) == v * t.yy + v * (y * y)) by (nonlinear_arith);
    assert(k * (t.x + x) == k * t.x + k * x) by (nonlinear_arith);
    assert(k * (t.y + y) == k * t.y + k * y) by (nonlinear_arith);
    assert(u * (t.x + x) == u * t.x + u * x) by (nonlinear_arith);
    assert(v * (t.y + y) == v * t.y + v * y) by (nonlinear_arith);
    assert(k * (n + 1) == k * n + k) by (nonlinear_arith);
}

/// A point on a circle, in the form of an equation.
pub proof fn lemma_circle_equation(x: int, y: int, centre: (int, int), square: int)
    requires
        (x - centre.0) * (x - centre.0) + (y - centre.1) * (y - centre.1) == square,
    ensures
        x * x + y * y == (2 * centre.0) * x + (2 * centre.1) * y + (square - centre.0 * centre.0
            - centre.1 * centre.1),
{
    let (a, b) = centre;
    assert((x - a) * (x - a) == x * x - (2 * a) * x + a * a) by (nonlinear_arith);
    assert((y - b) * (y - b) == y * y - (2 * b) * y + b * b) by (nonlinear_arith);
}

proof fn lemma_sums(
    points: Seq<(Fixed, Fixed)>,
    spots: Seq<(int, int)>,
    centre: (int, int),
    radius: int,
    n: int,
) -> (t: Sums)
    requires
        lie_on_circle(points, spots, centre, radius),
        0 <= n <= points.len(),
        n <= 20,
    ensures
        are_the_sums(pratt_sums(points, n), t),
        are_bounded(t, n),
        are_related(
            t,
            n,
            2 * centre.0,
            2 * centre.1,
            radius - centre.0 * centre.0 - centre.1 * centre.1,
        ),
        t.x == total(spots, |s: (int, int)| s.0, n),
        t.y == total(spots, |s: (int, int)| s.1, n),
        t.xx == total(spots, |s: (int, int)| s.0 * s.0, n),
        t.yy == total(spots, |s: (int, int)| s.1 * s.1, n),
        t.xy == total(spots, |s: (int, int)| s.0 * s.1, n),
    decreases n,
{
    let u = 2 * centre.0;
    let v = 2 * centre.1;
    let k = radius - centre.0 * centre.0 - centre.1 * centre.1;
    if n == 0 {
        let t = Sums { x: 0, y: 0, xx: 0, yy: 0, xy: 0, b: 0, xb: 0, yb: 0 };
        assert(are_related(t, 0, u, v, k)) by (nonlinear_arith)
            requires
                t == (Sums { x: 0, y: 0, xx: 0, yy: 0, xy: 0, b: 0, xb: 0, yb: 0 }),
        ;
        t
    } else {
        let t = lemma_sums(points, spots, centre, radius, n - 1);
        let (x, y) = spots[n - 1];
        let p = points[n - 1];
        lemma_circle_equation(x, y, centre, radius);
        lemma_small_product(x, x, 20, 20);
        lemma_small_product(y, y, 20, 20);
        lemma_small_product(x, y, 20, 20);
        lemma_whole_product(p.0, x, p.0, x);
        lemma_whole_product(p.1, y, p.1, y);
        lemma_whole_product(p.0, x, p.1, y);
        let b = -(x * x + y * y);
        assert(x * x >= 0 && y * y >= 0) by (nonlinear_arith);
        let minus = square(p).negate_spec();
        assert(is_whole(minus, b));
        lemma_small_product(x, b, 20, 800);
        lemma_small_product(y, b, 20, 800);
        lemma_whole_product(p.0, x, minus, b);
        lemma_whole_product(p.1, y, minus, b);
        lemma_point_relates(t, n - 1, u, v, k, x, y);
        Sums {
            x: t.x + x,
            y: t.y + y,
            xx: t.xx + x * x,
            yy: t.yy + y * y,
            xy: t.xy + x * y,
            b: t.b + b,
            xb: t.xb + x * b,
            yb: t.yb + y * b,
        }
    }
}

// ── Determinants ──────────────────────────────────────────────────────────────

proof fn lemma_whole_minor(
    a: (Fixed, int),
    d: (Fixed, int),
    b: (Fixed, int),
    c: (Fixed, int),
    bound: int,
)
    requires
        is_whole(a.0, a.1) && is_whole(d.0, d.1) && is_whole(b.0, b.1) && is_whole(c.0, c.1),
        within(a.1 * d.1, bound),
        within(b.1 * c.1, bound),
        0 <= bound <= 2_000_000_000_000,
    ensures
        is_whole(minor(a.0, d.0, b.0, c.0), a.1 * d.1 - b.1 * c.1),
        within(a.1 * d.1 - b.1 * c.1, 2 * bound),
{
    lemma_whole_product(a.0, a.1, d.0, d.1);
    lemma_whole_product(b.0, b.1, c.0, c.1);
}

proof fn lemma_whole_determinant(
    a: (Fixed, int),
    p: (Fixed, int),
    b: (Fixed, int),
    q: (Fixed, int),
    c: (Fixed, int),
    r: (Fixed, int),
)
    requires
        is_whole(a.0, a.1) && is_whole(p.0, p.1) && is_whole(b.0, b.1) && is_whole(q.0, q.1),
        is_whole(c.0, c.1) && is_whole(r.0, r.1),
        within(a.1 * p.1, 3_000_000_000_000),
        within(b.1 * q.1, 3_000_000_000_000),
        within(c.1 * r.1, 3_000_000_000_000),
    ensures
        is_whole(
            determinant(a.0, p.0, b.0, q.0, c.0, r.0),
            a.1 * p.1 - b.1 * q.1 + c.1 * r.1,
        ),
        within(a.1 * p.1 - b.1 * q.1 + c.1 * r.1, 9_000_000_000_000),
{
    lemma_whole_product(a.0, a.1, p.0, p.1);
    lemma_whole_product(b.0, b.1, q.0, q.1);
    lemma_whole_product(c.0, c.1, r.0, r.1);
}

/// A minor of bounded sums, with its value.
proof fn lemma_minor_of(
    a: (Fixed, int),
    d: (Fixed, int),
    b: (Fixed, int),
    c: (Fixed, int),
    sizes: (int, int, int, int),
    bound: int,
) -> (m: (Fixed, int))
    requires
        is_whole(a.0, a.1) && is_whole(d.0, d.1) && is_whole(b.0, b.1) && is_whole(c.0, c.1),
        within(a.1, sizes.0) && within(d.1, sizes.1),
        within(b.1, sizes.2) && within(c.1, sizes.3),
        sizes.0 * sizes.1 <= bound,
        sizes.2 * sizes.3 <= bound,
        0 <= bound <= 2_000_000_000_000,
    ensures
        m.0 == minor(a.0, d.0, b.0, c.0),
        m.1 == a.1 * d.1 - b.1 * c.1,
        is_whole(m.0, m.1),
        within(m.1, 2 * bound),
{
    lemma_small_product(a.1, d.1, sizes.0, sizes.1);
    lemma_small_product(b.1, c.1, sizes.2, sizes.3);
    lemma_whole_minor(a, d, b, c, bound);
    (minor(a.0, d.0, b.0, c.0), a.1 * d.1 - b.1 * c.1)
}

/// A determinant of bounded sums and minors, with its value.
proof fn lemma_determinant_of(
    a: (Fixed, int),
    p: (Fixed, int),
    b: (Fixed, int),
    q: (Fixed, int),
    c: (Fixed, int),
    r: (Fixed, int),
    sizes: (int, int, int, int, int, int),
) -> (m: (Fixed, int))
    requires
        is_whole(a.0, a.1) && is_whole(p.0, p.1) && is_whole(b.0, b.1) && is_whole(q.0, q.1),
        is_whole(c.0, c.1) && is_whole(r.0, r.1),
        within(a.1, sizes.0) && within(p.1, sizes.1) && within(b.1, sizes.2),
        within(q.1, sizes.3) && within(c.1, sizes.4) && within(r.1, sizes.5),
        sizes.0 * sizes.1 <= 3_000_000_000_000,
        sizes.2 * sizes.3 <= 3_000_000_000_000,
        sizes.4 * sizes.5 <= 3_000_000_000_000,
    ensures
        m.0 == determinant(a.0, p.0, b.0, q.0, c.0, r.0),
        m.1 == a.1 * p.1 - b.1 * q.1 + c.1 * r.1,
        is_whole(m.0, m.1),
        within(m.1, 9_000_000_000_000),
{
    lemma_small_product(a.1, p.1, sizes.0, sizes.1);
    lemma_small_product(b.1, q.1, sizes.2, sizes.3);
    lemma_small_product(c.1, r.1, sizes.4, sizes.5);
    lemma_whole_determinant(a, p, b, q, c, r);
    (determinant(a.0, p.0, b.0, q.0, c.0, r.0), a.1 * p.1 - b.1 * q.1 + c.1 * r.1)
}

/// A sum of three terms that a linear relation makes of three columns.
proof fn lemma_linear(
    c: (int, int, int),
    f: (int, int, int),
    one: (int, int, int),
    two: (int, int, int),
    three: (int, int, int),
    u: int,
    v: int,
    k: int,
)
    requires
        c.0 == -(u * one.0 + v * two.0 + k * three.0),
        c.1 == -(u * one.1 + v * two.1 + k * three.1),
        c.2 == -(u * one.2 + v * two.2 + k * three.2),
    ensures
        c.0 * f.0 + c.1 * f.1 + c.2 * f.2 == -(u * (one.0 * f.0 + one.1 * f.1 + one.2 * f.2) + v
            * (two.0 * f.0 + two.1 * f.1 + two.2 * f.2) + k * (three.0 * f.0 + three.1 * f.1
            + three.2 * f.2)),
{
    lemma_term(c.0, f.0, one.0, two.0, three.0, u, v, k);
    lemma_term(c.1, f.1, one.1, two.1, three.1, u, v, k);
    lemma_term(c.2, f.2, one.2, two.2, three.2, u, v, k);
    lemma_spread_out(u, one.0 * f.0, one.1 * f.1, one.2 * f.2);
    lemma_spread_out(v, two.0 * f.0, two.1 * f.1, two.2 * f.2);
    lemma_spread_out(k, three.0 * f.0, three.1 * f.1, three.2 * f.2);
}

proof fn lemma_spread_out(u: int, a: int, b: int, c: int)
    ensures
        u * (a + b + c) == u * a + u * b + u * c,
{
    assert(u * (a + b + c) == u * a + u * b + u * c) by (nonlinear_arith);
}

proof fn lemma_term(c: int, f: int, a: int, b: int, d: int, u: int, v: int, k: int)
    requires
        c == -(u * a + v * b + k * d),
    ensures
        c * f == -(u * (a * f) + v * (b * f) + k * (d * f)),
{
    assert((u * a) * f == u * (a * f)) by (nonlinear_arith);
    assert((v * b) * f == v * (b * f)) by (nonlinear_arith);
    assert((k * d) * f == k * (d * f)) by (nonlinear_arith);
    assert(c * f == -((u * a) * f + (v * b) * f + (k * d) * f)) by (nonlinear_arith)
        requires
            c == -(u * a + v * b + k * d),
    ;
}

proof fn lemma_over_minor(p: int, q: int, r: int, s: int, t: int)
    ensures
        p * (q * r - s * t) == p * (q * r) - p * (s * t),
{
    let a = q * r;
    let b = s * t;
    assert(p * (a - b) == p * a - p * b) by (nonlinear_arith);
}

proof fn lemma_triple(a: int, b: int, c: int)
    ensures
        a * (b * c) == a * (c * b),
        a * (b * c) == b * (a * c),
        a * (b * c) == b * (c * a),
        a * (b * c) == c * (a * b),
        a * (b * c) == c * (b * a),
{
    assert(b * c == c * b) by (nonlinear_arith);
    assert(a * c == c * a) by (nonlinear_arith);
    assert(a * b == b * a) by (nonlinear_arith);
    assert(a * (b * c) == b * (a * c)) by (nonlinear_arith);
    assert(a * (b * c) == c * (a * b)) by (nonlinear_arith);
}

/// What the columns give in place of the first.
proof fn lemma_first_identities(
    x: int,
    y: int,
    xx: int,
    yy: int,
    xy: int,
    b: int,
    xb: int,
    yb: int,
    n: int,
)
    ensures
        xb * (yy * n - y * y) - xy * (yb * n - y * b) + x * (yb * y - yy * b) == xb * (yy * n
            - y * y) + yb * (x * y - xy * n) + b * (xy * y - x * yy),
        xx * (yy * n - y * y) + xy * (x * y - xy * n) + x * (xy * y - x * yy) == xx * (yy * n
            - y * y) - xy * (xy * n - y * x) + x * (xy * y - yy * x),
        xy * (yy * n - y * y) + yy * (x * y - xy * n) + y * (xy * y - x * yy) == 0,
        x * (yy * n - y * y) + y * (x * y - xy * n) + n * (xy * y - x * yy) == 0,
{
    lemma_over_minor(xb, yy, n, y, y);
    lemma_over_minor(xy, yb, n, y, b);
    lemma_over_minor(x, yb, y, yy, b);
    lemma_over_minor(yb, x, y, xy, n);
    lemma_over_minor(b, xy, y, x, yy);
    lemma_over_minor(xx, yy, n, y, y);
    lemma_over_minor(xy, x, y, xy, n);
    lemma_over_minor(x, xy, y, x, yy);
    lemma_over_minor(xy, xy, n, y, x);
    lemma_over_minor(x, xy, y, yy, x);
    lemma_over_minor(xy, yy, n, y, y);
    lemma_over_minor(yy, x, y, xy, n);
    lemma_over_minor(y, xy, y, x, yy);
    lemma_over_minor(x, yy, n, y, y);
    lemma_over_minor(y, x, y, xy, n);
    lemma_over_minor(n, xy, y, x, yy);
    lemma_triple(n, xb, yy);
    lemma_triple(xb, y, y);
    lemma_triple(n, xy, yb);
    lemma_triple(b, xy, y);
    lemma_triple(x, y, yb);
    lemma_triple(b, x, yy);
    lemma_triple(n, xx, yy);
    lemma_triple(xx, y, y);
    lemma_triple(x, xy, y);
    lemma_triple(n, xy, xy);
    lemma_triple(x, x, yy);
    lemma_triple(n, xy, yy);
    lemma_triple(xy, y, y);
    lemma_triple(x, y, yy);
    lemma_triple(n, x, yy);
    lemma_triple(x, y, y);
    lemma_triple(n, xy, y);
}

/// What the columns give in place of the second.
proof fn lemma_second_identities(
    x: int,
    y: int,
    xx: int,
    yy: int,
    xy: int,
    b: int,
    xb: int,
    yb: int,
    n: int,
)
    ensures
        xx * (yb * n - y * b) - xb * (xy * n - y * x) + x * (xy * b - yb * x) == xb * (y * x
            - xy * n) + yb * (xx * n - x * x) + b * (x * xy - xx * y),
        xx * (y * x - xy * n) + xy * (xx * n - x * x) + x * (x * xy - xx * y) == 0,
        xy * (y * x - xy * n) + yy * (xx * n - x * x) + y * (x * xy - xx * y) == xx * (yy * n
            - y * y) - xy * (xy * n - y * x) + x * (xy * y - yy * x),
        x * (y * x - xy * n) + y * (xx * n - x * x) + n * (x * xy - xx * y) == 0,
{
    lemma_over_minor(xx, yb, n, y, b);
    lemma_over_minor(xb, xy, n, y, x);
    lemma_over_minor(x, xy, b, yb, x);
    lemma_over_minor(xb, y, x, xy, n);
    lemma_over_minor(yb, xx, n, x, x);
    lemma_over_minor(b, x, xy, xx, y);
    lemma_over_minor(xx, y, x, xy, n);
    lemma_over_minor(xy, xx, n, x, x);
    lemma_over_minor(x, x, xy, xx, y);
    lemma_over_minor(xy, y, x, xy, n);
    lemma_over_minor(yy, xx, n, x, x);
    lemma_over_minor(y, x, xy, xx, y);
    lemma_over_minor(xx, yy, n, y, y);
    lemma_over_minor(xy, xy, n, y, x);
    lemma_over_minor(x, xy, y, yy, x);
    lemma_over_minor(x, y, x, xy, n);
    lemma_over_minor(y, xx, n, x, x);
    lemma_over_minor(n, x, xy, xx, y);
    lemma_triple(n, xx, yb);
    lemma_triple(b, xx, y);
    lemma_triple(n, xb, xy);
    lemma_triple(x, xb, y);
    lemma_triple(b, x, xy);
    lemma_triple(x, x, yb);
    lemma_triple(x, xx, y);
    lemma_triple(n, xx, xy);
    lemma_triple(x, x, xy);
    lemma_triple(x, xy, y);
    lemma_triple(n, xy, xy);
    lemma_triple(n, xx, yy);
    lemma_triple(x, x, yy);
    lemma_triple(xx, y, y);
    lemma_triple(x, x, y);
    lemma_triple(n, x, xy);
    lemma_triple(n, xx, y);
}

/// What the columns give in place of the third.
proof fn lemma_third_identities(
    x: int,
    y: int,
    xx: int,
    yy: int,
    xy: int,
    b: int,
    xb: int,
    yb: int,
    n: int,
)
    ensures
        xx * (yy * b - y * yb) - xy * (xy * b - yb * x) + xb * (xy * y - yy * x)
            == xb * (xy * y - yy * x) + yb * (xy * x - xx * y) + b * (xx * yy - xy * xy),
        xx * (xy * y - yy * x) + xy * (xy * x - xx * y) + x * (xx * yy - xy * xy) == 0,
        xy * (xy * y - yy * x) + yy * (xy * x - xx * y) + y * (xx * yy - xy * xy) == 0,
        x * (xy * y - yy * x) + y * (xy * x - xx * y) + n * (xx * yy - xy * xy) == xx * (yy * n
            - y * y) - xy * (xy * n - y * x) + x * (xy * y - yy * x),
{
    lemma_over_minor(xx, yy, b, y, yb);
    lemma_over_minor(xy, xy, b, yb, x);
    lemma_over_minor(xb, xy, y, yy, x);
    lemma_over_minor(yb, xy, x, xx, y);
    lemma_over_minor(b, xx, yy, xy, xy);
    lemma_over_minor(xx, xy, y, yy, x);
    lemma_over_minor(xy, xy, x, xx, y);
    lemma_over_minor(x, xx, yy, xy, xy);
    lemma_over_minor(xy, xy, y, yy, x);
    lemma_over_minor(yy, xy, x, xx, y);
    lemma_over_minor(y, xx, yy, xy, xy);
    lemma_over_minor(x, xy, y, yy, x);
    lemma_over_minor(y, xy, x, xx, y);
    lemma_over_minor(n, xx, yy, xy, xy);
    lemma_over_minor(xx, yy, n, y, y);
    lemma_over_minor(xy, xy, n, y, x);
    lemma_triple(b, xx, yy);
    lemma_triple(xx, y, yb);
    lemma_triple(b, xy, xy);
    lemma_triple(x, xy, yb);
    lemma_triple(xb, xy, y);
    lemma_triple(x, xb, yy);
    lemma_triple(xx, xy, y);
    lemma_triple(x, xx, yy);
    lemma_triple(x, xy, xy);
    lemma_triple(xy, xy, y);
    lemma_triple(x, xy, yy);
    lemma_triple(xx, y, yy);
    lemma_triple(x, xy, y);
    lemma_triple(x, x, yy);
    lemma_triple(xx, y, y);
    lemma_triple(n, xx, yy);
    lemma_triple(n, xy, xy);
}

/// The first unknown: the column of the constants in place of the first.
proof fn lemma_first_unknown(t: Sums, n: int, u: int, v: int, k: int)
    requires
        are_related(t, n, u, v, k),
    ensures
        ({
            let det = t.xx * (t.yy * n - t.y * t.y) - t.xy * (t.xy * n - t.y * t.x) + t.x * (t.xy
                * t.y - t.yy * t.x);
            t.xb * (t.yy * n - t.y * t.y) - t.xy * (t.yb * n - t.y * t.b) + t.x * (t.yb * t.y
                - t.yy * t.b) == -u * det
        }),
{
    let (x, y, xx, yy, xy, b, xb, yb) = (t.x, t.y, t.xx, t.yy, t.xy, t.b, t.xb, t.yb);
    let f = (yy * n - y * y, x * y - xy * n, xy * y - x * yy);
    let det = xx * (yy * n - y * y) - xy * (xy * n - y * x) + x * (xy * y - yy * x);
    lemma_linear((xb, yb, b), f, (xx, xy, x), (xy, yy, y), (x, y, n), u, v, k);
    lemma_first_identities(x, y, xx, yy, xy, b, xb, yb, n);
    assert(-(u * det + v * 0 + k * 0) == -u * det) by (nonlinear_arith);
}

/// The second unknown.
proof fn lemma_second_unknown(t: Sums, n: int, u: int, v: int, k: int)
    requires
        are_related(t, n, u, v, k),
    ensures
        ({
            let det = t.xx * (t.yy * n - t.y * t.y) - t.xy * (t.xy * n - t.y * t.x) + t.x * (t.xy
                * t.y - t.yy * t.x);
            t.xx * (t.yb * n - t.y * t.b) - t.xb * (t.xy * n - t.y * t.x) + t.x * (t.xy * t.b
                - t.yb * t.x) == -v * det
        }),
{
    let (x, y, xx, yy, xy, b, xb, yb) = (t.x, t.y, t.xx, t.yy, t.xy, t.b, t.xb, t.yb);
    let f = (y * x - xy * n, xx * n - x * x, x * xy - xx * y);
    let det = xx * (yy * n - y * y) - xy * (xy * n - y * x) + x * (xy * y - yy * x);
    lemma_linear((xb, yb, b), f, (xx, xy, x), (xy, yy, y), (x, y, n), u, v, k);
    lemma_second_identities(x, y, xx, yy, xy, b, xb, yb, n);
    assert(-(u * 0 + v * det + k * 0) == -v * det) by (nonlinear_arith);
}

/// The third unknown.
proof fn lemma_third_unknown(t: Sums, n: int, u: int, v: int, k: int)
    requires
        are_related(t, n, u, v, k),
    ensures
        ({
            let det = t.xx * (t.yy * n - t.y * t.y) - t.xy * (t.xy * n - t.y * t.x) + t.x * (t.xy
                * t.y - t.yy * t.x);
            t.xx * (t.yy * t.b - t.y * t.yb) - t.xy * (t.xy * t.b - t.yb * t.x) + t.xb * (t.xy
                * t.y - t.yy * t.x) == -k * det
        }),
{
    let (x, y, xx, yy, xy, b, xb, yb) = (t.x, t.y, t.xx, t.yy, t.xy, t.b, t.xb, t.yb);
    let f = (xy * y - yy * x, xy * x - xx * y, xx * yy - xy * xy);
    let det = xx * (yy * n - y * y) - xy * (xy * n - y * x) + x * (xy * y - yy * x);
    lemma_linear((xb, yb, b), f, (xx, xy, x), (xy, yy, y), (x, y, n), u, v, k);
    lemma_third_identities(x, y, xx, yy, xy, b, xb, yb, n);
    assert(-(u * 0 + v * 0 + k * det) == -k * det) by (nonlinear_arith);
}

// ── The law ───────────────────────────────────────────────────────────────────

/// A multiple divided by its number.
pub proof fn lemma_exact_quotient(a: Fixed, b: Fixed, t: int, n: int)
    requires
        is_whole(a, t * n),
        is_whole(b, n),
        n != 0,
        -9_000_000_000_000 <= t <= 9_000_000_000_000,
    ensures
        is_whole(a.over_spec(b), t),
{
    let x = magnitude(a.millionths as int) as int;
    let y = magnitude(b.millionths as int) as int;
    let tt = magnitude(t) as int;
    let nn = magnitude(n) as int;
    assert(magnitude(t * n) == tt * nn && ((t * n < 0) != (n < 0) ==> t <= 0) && ((t * n < 0) == (n
        < 0) ==> t >= 0)) by (nonlinear_arith)
        requires
            n != 0,
            tt == if t < 0 {
                -t
            } else {
                t
            },
            nn == if n < 0 {
                -n
            } else {
                n
            },
    ;
    assert(x == (tt * nn) * 1_000_000 && y == nn * 1_000_000);
    assert((x * 1_000_000) / y == tt * 1_000_000) by (nonlinear_arith)
        requires
            x == (tt * nn) * 1_000_000,
            y == nn * 1_000_000,
            nn >= 1,
            tt >= 0,
    ;
}

/// Points on a circle give the circle back: the circle of least algebraic distance is
/// about the centre of theirs, and its radius is the root of the square of theirs.
pub proof fn lemma_circles_are_recovered(
    points: Seq<(Fixed, Fixed)>,
    spots: Seq<(int, int)>,
    centre: (int, int),
    radius: int,
)
    requires
        lie_on_circle(points, spots, centre, radius),
        points.len() <= 20,
        -1_000 <= centre.0 <= 1_000,
        -1_000 <= centre.1 <= 1_000,
        0 < radius <= 2_000_000,
    ensures
        spread(spots) != 0 ==> pratt_circle(points) is Some,
        spread(spots) == 0 ==> pratt_circle(points) is None,
        pratt_circle(points) matches Some(circle) ==> {
            let r = circle.r.millionths as int;
            &&& is_whole(circle.cx, centre.0)
            &&& is_whole(circle.cy, centre.1)
            &&& 0 <= r
            &&& r * r <= radius * 1_000_000_000_000 < (r + 1) * (r + 1)
        },
{
    let n = points.len() as int;
    let t = lemma_sums(points, spots, centre, radius, n);
    let s = pratt_sums(points, n);
    let u = 2 * centre.0;
    let v = 2 * centre.1;
    let k = radius - centre.0 * centre.0 - centre.1 * centre.1;
    let det = spread(spots);
    lemma_first_unknown(t, n, u, v, k);
    lemma_second_unknown(t, n, u, v, k);
    lemma_third_unknown(t, n, u, v, k);
    let x = (s.x, t.x);
    let y = (s.y, t.y);
    let xx = (s.xx, t.xx);
    let yy = (s.yy, t.yy);
    let xy = (s.xy, t.xy);
    let b = (s.b, t.b);
    let xb = (s.xb, t.xb);
    let yb = (s.yb, t.yb);
    let c = (Fixed::count_spec(points.len() as u64), n);
    assert(is_whole(c.0, n));
    let m1 = lemma_minor_of(yy, c, y, y, (8_000, 20, 400, 400), 160_000);
    let m2 = lemma_minor_of(xy, c, y, x, (8_000, 20, 400, 400), 160_000);
    let m3 = lemma_minor_of(xy, y, yy, x, (8_000, 400, 8_000, 400), 3_200_000);
    let m4 = lemma_minor_of(yb, c, y, b, (320_000, 20, 400, 16_000), 6_400_000);
    let m5 = lemma_minor_of(yb, y, yy, b, (320_000, 400, 8_000, 16_000), 128_000_000);
    let m6 = lemma_minor_of(xy, b, yb, x, (8_000, 16_000, 320_000, 400), 128_000_000);
    let m7 = lemma_minor_of(yy, b, y, yb, (8_000, 16_000, 400, 320_000), 128_000_000);
    assert(320_000int * 320_000 == 102_400_000_000);
    let d0 = lemma_determinant_of(
        xx,
        m1,
        xy,
        m2,
        x,
        m3,
        (8_000, 320_000, 8_000, 320_000, 400, 6_400_000),
    );
    let d1 = lemma_determinant_of(
        xb,
        m1,
        xy,
        m4,
        x,
        m5,
        (320_000, 320_000, 8_000, 12_800_000, 400, 256_000_000),
    );
    let d2 = lemma_determinant_of(
        xx,
        m4,
        xb,
        m2,
        x,
        m6,
        (8_000, 12_800_000, 320_000, 320_000, 400, 256_000_000),
    );
    let d3 = lemma_determinant_of(
        xx,
        m7,
        xy,
        m6,
        xb,
        m3,
        (8_000, 256_000_000, 8_000, 256_000_000, 320_000, 6_400_000),
    );
    assert(d0.1 == det);
    assert(d1.1 == -u * det);
    assert(d2.1 == -v * det);
    assert(d3.1 == -k * det);
    assert(Fixed::of_spec(10_000_000_000).millionths == 10_000_000_000_000_000);
    assert(1_000_000nat * 1_000_000 / 10_000_000_000_000_000 == 0);
    assert(singular::<Fixed>().millionths == 0);
    assert(vanishes(d0.0.abs_spec(), singular()) <==> det == 0);
    if det != 0 {
        lemma_small_product(centre.0, centre.0, 1_000, 1_000);
        lemma_small_product(centre.1, centre.1, 1_000, 1_000);
        lemma_exact_quotient(d1.0, d0.0, -u, det);
        lemma_exact_quotient(d2.0, d0.0, -v, det);
        lemma_exact_quotient(d3.0, d0.0, -k, det);
        let two = Fixed::of_spec(2);
        assert(is_whole(two, 2));
        let twice_x = d1.0.over_spec(d0.0).negate_spec();
        let twice_y = d2.0.over_spec(d0.0).negate_spec();
        lemma_exact_quotient(twice_x, two, centre.0, 2);
        lemma_exact_quotient(twice_y, two, centre.1, 2);
        let cx = twice_x.over_spec(two);
        let cy = twice_y.over_spec(two);
        lemma_whole_product(cx, centre.0, cx, centre.0);
        lemma_whole_product(cy, centre.1, cy, centre.1);
        let r_sq = square((cx, cy)).minus_spec(d3.0.over_spec(d0.0));
        assert(is_whole(r_sq, radius));
        lemma_sqrt(r_sq);
    }
}

} // verus!
