//! Where fitted circles lie, for points at whole millimetres.

use vstd::prelude::*;

use crate::arc_fitter::laws::square_between;
use crate::arc_fitter::{circumcircle, combine, singular, square};
use crate::fixed::exact::{lemma_distance, square_distance};
use crate::fixed::{magnitude, Fixed};
use crate::scalar::{vanishes, Scalar};

verus! {

/// Whether the number is `n` millimetres.
pub open spec fn is_whole(v: Fixed, n: int) -> bool {
    v.millionths == n * 1_000_000
}

/// Whether the point is at whole millimetres, within a metre of the origin.
pub open spec fn is_at(point: (Fixed, Fixed), x: int, y: int) -> bool {
    &&& is_whole(point.0, x)
    &&& is_whole(point.1, y)
    &&& -1_000 <= x <= 1_000
    &&& -1_000 <= y <= 1_000
}

/// The product of whole numbers is whole.
pub proof fn lemma_whole_product(a: Fixed, m: int, b: Fixed, n: int)
    requires
        is_whole(a, m),
        is_whole(b, n),
        -9_000_000_000_000 <= m * n <= 9_000_000_000_000,
    ensures
        is_whole(a.times_spec(b), m * n),
{
    let x = magnitude(a.millionths as int) as int;
    let y = magnitude(b.millionths as int) as int;
    let mm = if m < 0 {
        -m
    } else {
        m
    };
    let nn = if n < 0 {
        -n
    } else {
        n
    };
    assert(x == mm * 1_000_000 && y == nn * 1_000_000);
    assert(x * y == (mm * nn) * 1_000_000_000_000) by (nonlinear_arith)
        requires
            x == mm * 1_000_000,
            y == nn * 1_000_000,
    ;
    assert((x * y) / 1_000_000 == (mm * nn) * 1_000_000);
    assert((-m) * (-n) == m * n && (-m) * n == -(m * n) && m * (-n) == -(m * n))
        by (nonlinear_arith);
}

/// The quotient of whole numbers is exact up to a millionth.
proof fn lemma_whole_quotient(a: Fixed, m: int, b: Fixed, n: int)
    requires
        is_whole(a, m),
        is_whole(b, n),
        n != 0,
        -9_000_000_000_000 <= m <= 9_000_000_000_000,
    ensures
        ({
            let e = a.over_spec(b).millionths * n - m * 1_000_000;
            if n > 0 {
                -n < e < n
            } else {
                n < e < -n
            }
        }),
{
    let x = magnitude(a.millionths as int) as int;
    let y = magnitude(b.millionths as int) as int;
    let mm = if m < 0 {
        -m
    } else {
        m
    };
    let nn = if n < 0 {
        -n
    } else {
        n
    };
    assert(x == mm * 1_000_000 && y == nn * 1_000_000);
    let q = x * 1_000_000 / y;
    assert(q * nn <= mm * 1_000_000 < q * nn + nn && 0 <= q <= mm * 1_000_000) by (nonlinear_arith)
        requires
            q == x * 1_000_000 / y,
            x == mm * 1_000_000,
            y == nn * 1_000_000,
            nn >= 1,
            mm >= 0,
    ;
    let v = a.over_spec(b).millionths as int;
    assert(v == if (m < 0) != (n < 0) {
        -q
    } else {
        q
    });
    assert(v * n == if m < 0 {
        -(q * nn)
    } else {
        q * nn
    }) by (nonlinear_arith)
        requires
            nn == if n < 0 {
                -n
            } else {
                n
            },
            v == if (m < 0) != (n < 0) {
                -q
            } else {
                q
            },
    ;
}

/// Products of bounded numbers are bounded.
pub proof fn lemma_small_product(m: int, n: int, bound_m: int, bound_n: int)
    requires
        -bound_m <= m <= bound_m,
        -bound_n <= n <= bound_n,
    ensures
        -(bound_m * bound_n) <= m * n <= bound_m * bound_n,
{
    assert(-(bound_m * bound_n) <= m * n <= bound_m * bound_n) by (nonlinear_arith)
        requires
            -bound_m <= m <= bound_m,
            -bound_n <= n <= bound_n,
    ;
}

/// A combination of whole numbers is whole.
pub proof fn lemma_whole_combination(
    a: (Fixed, Fixed, Fixed),
    m: (int, int, int),
    b: (Fixed, Fixed, Fixed),
    n: (int, int, int),
    bound: int,
)
    requires
        is_whole(a.0, m.0) && is_whole(a.1, m.1) && is_whole(a.2, m.2),
        is_whole(b.0, n.0) && is_whole(b.1, n.1) && is_whole(b.2, n.2),
        0 <= bound <= 2_000_000,
        -bound <= m.0 <= bound && -bound <= m.1 <= bound && -bound <= m.2 <= bound,
        -2_000 <= n.0 <= 2_000 && -2_000 <= n.1 <= 2_000 && -2_000 <= n.2 <= 2_000,
    ensures
        is_whole(
            combine(a.0, b.0, a.1, b.1, a.2, b.2),
            m.0 * n.0 + m.1 * n.1 + m.2 * n.2,
        ),
        -(6_000 * bound) <= m.0 * n.0 + m.1 * n.1 + m.2 * n.2 <= 6_000 * bound,
{
    lemma_small_product(m.0, n.0, bound, 2_000);
    lemma_small_product(m.1, n.1, bound, 2_000);
    lemma_small_product(m.2, n.2, bound, 2_000);
    lemma_whole_product(a.0, m.0, b.0, n.0);
    lemma_whole_product(a.1, m.1, b.1, n.1);
    lemma_whole_product(a.2, m.2, b.2, n.2);
}

/// The squared distance of a whole point from the origin.
pub proof fn lemma_whole_square(p: (Fixed, Fixed), x: int, y: int)
    requires
        is_at(p, x, y),
    ensures
        is_whole(square(p), x * x + y * y),
        0 <= x * x + y * y <= 2_000_000,
{
    lemma_small_product(x, x, 1_000, 1_000);
    lemma_small_product(y, y, 1_000, 1_000);
    assert(x * x >= 0 && y * y >= 0) by (nonlinear_arith);
    lemma_whole_product(p.0, x, p.0, x);
    lemma_whole_product(p.1, y, p.1, y);
}

/// Twice the area of the triangle of three points, with its sign.
pub open spec fn twice_area(a: (int, int), b: (int, int), c: (int, int)) -> int {
    (b.0 - a.0) * (c.1 - a.1) - (c.0 - a.0) * (b.1 - a.1)
}

/// The numbers of which the centre is made.
spec fn top(s: (int, int, int), n: (int, int, int)) -> int {
    s.0 * n.0 + s.1 * n.1 + s.2 * n.2
}

/// The area in the form in which it is computed.
pub proof fn lemma_area(a: (int, int), b: (int, int), c: (int, int))
    ensures
        a.0 * (b.1 - c.1) + b.0 * (c.1 - a.1) + c.0 * (a.1 - b.1) == twice_area(a, b, c),
{
    assert(a.0 * (b.1 - c.1) + b.0 * (c.1 - a.1) + c.0 * (a.1 - b.1) == (b.0 - a.0) * (c.1 - a.1)
        - (c.0 - a.0) * (b.1 - a.1)) by (nonlinear_arith);
}

/// The exact centre is equally far from the first point and the others.
proof fn lemma_exact_centre(
    a: (int, int),
    b: (int, int),
    c: (int, int),
    s: (int, int, int),
    nx: int,
    ny: int,
)
    requires
        nx == s.0 * (b.1 - c.1) + s.1 * (c.1 - a.1) + s.2 * (a.1 - b.1),
        ny == s.0 * (c.0 - b.0) + s.1 * (a.0 - c.0) + s.2 * (b.0 - a.0),
    ensures
        nx * (b.0 - a.0) + ny * (b.1 - a.1) == twice_area(a, b, c) * (s.1 - s.0),
        nx * (c.0 - a.0) + ny * (c.1 - a.1) == twice_area(a, b, c) * (s.2 - s.0),
{
    let u = b.0 - a.0;
    let v = b.1 - a.1;
    let w = c.0 - a.0;
    let z = c.1 - a.1;
    let p = s.1 - s.0;
    let q = s.2 - s.0;
    assert(nx == p * z - q * v) by (nonlinear_arith)
        requires
            nx == s.0 * (b.1 - c.1) + s.1 * (c.1 - a.1) + s.2 * (a.1 - b.1),
            v == b.1 - a.1,
            z == c.1 - a.1,
            p == s.1 - s.0,
            q == s.2 - s.0,
    ;
    assert(ny == q * u - p * w) by (nonlinear_arith)
        requires
            ny == s.0 * (c.0 - b.0) + s.1 * (a.0 - c.0) + s.2 * (b.0 - a.0),
            u == b.0 - a.0,
            w == c.0 - a.0,
            p == s.1 - s.0,
            q == s.2 - s.0,
    ;
    assert((p * z - q * v) * u + (q * u - p * w) * v == (u * z - w * v) * p) by (nonlinear_arith);
    assert((p * z - q * v) * w + (q * u - p * w) * z == (u * z - w * v) * q) by (nonlinear_arith);
}

proof fn lemma_scaled(c: int, u: int, d: int, e: int, n: int)
    requires
        e == c * d - n * 1_000_000,
    ensures
        (c * u) * d == e * u + 1_000_000 * (n * u),
{
    assert((c * u) * d == (c * d) * u) by (nonlinear_arith);
    assert((c * d) * u == e * u + 1_000_000 * (n * u)) by (nonlinear_arith)
        requires
            c * d == e + n * 1_000_000,
    ;
}

/// The difference of the squared distances of a rounded centre.
proof fn lemma_rounded_centre(
    a: (int, int),
    k: (int, int),
    sa: int,
    sk: int,
    area: int,
    nx: int,
    ny: int,
    cx: int,
    cy: int,
)
    requires
        area != 0,
        sa == a.0 * a.0 + a.1 * a.1,
        sk == k.0 * k.0 + k.1 * k.1,
        nx * (k.0 - a.0) + ny * (k.1 - a.1) == area * (sk - sa),
        ({
            let d = 2 * area;
            let size = if d < 0 {
                -d
            } else {
                d
            };
            -size < cx * d - nx * 1_000_000 < size && -size < cy * d - ny * 1_000_000 < size
        }),
    ensures
        ({
            let dx = magnitude(k.0 - a.0) as int;
            let dy = magnitude(k.1 - a.1) as int;
            let from_a = square_between((cx, cy), (a.0 * 1_000_000, a.1 * 1_000_000));
            let from_k = square_between((cx, cy), (k.0 * 1_000_000, k.1 * 1_000_000));
            -2_000_000 * (dx + dy) <= from_a - from_k <= 2_000_000 * (dx + dy)
        }),
{
    let d = 2 * area;
    let size = if d < 0 {
        -d
    } else {
        d
    };
    let u = k.0 - a.0;
    let v = k.1 - a.1;
    let dx = magnitude(u) as int;
    let dy = magnitude(v) as int;
    let ex = cx * d - nx * 1_000_000;
    let ey = cy * d - ny * 1_000_000;
    let from_a = square_between((cx, cy), (a.0 * 1_000_000, a.1 * 1_000_000));
    let from_k = square_between((cx, cy), (k.0 * 1_000_000, k.1 * 1_000_000));
    let diff = from_a - from_k;
    assert(diff == 2_000_000 * (cx * u + cy * v) - 1_000_000_000_000 * (sk - sa)) by {
        assert((a.0 * 1_000_000 - cx) * (a.0 * 1_000_000 - cx) - (k.0 * 1_000_000 - cx) * (k.0
            * 1_000_000 - cx) == 2_000_000 * (cx * (k.0 - a.0)) - 1_000_000_000_000 * (k.0 * k.0
            - a.0 * a.0)) by (nonlinear_arith);
        assert((a.1 * 1_000_000 - cy) * (a.1 * 1_000_000 - cy) - (k.1 * 1_000_000 - cy) * (k.1
            * 1_000_000 - cy) == 2_000_000 * (cy * (k.1 - a.1)) - 1_000_000_000_000 * (k.1 * k.1
            - a.1 * a.1)) by (nonlinear_arith);
    }
    assert(diff * d == 2_000_000 * (ex * u + ey * v)) by {
        lemma_scaled(cx, u, d, ex, nx);
        lemma_scaled(cy, v, d, ey, ny);
        assert((cx * u + cy * v) * d == (cx * u) * d + (cy * v) * d) by (nonlinear_arith);
        assert(diff * d == 2_000_000 * ((cx * u + cy * v) * d) - 1_000_000_000_000 * ((sk - sa)
            * d)) by (nonlinear_arith)
            requires
                diff == 2_000_000 * (cx * u + cy * v) - 1_000_000_000_000 * (sk - sa),
        ;
        assert((sk - sa) * d == 2 * (area * (sk - sa))) by (nonlinear_arith)
            requires
                d == 2 * area,
        ;
    }
    assert(-(size * dx) <= ex * u <= size * dx) by (nonlinear_arith)
        requires
            -size < ex < size,
            u == dx || u == -dx,
            dx >= 0,
    ;
    assert(-(size * dy) <= ey * v <= size * dy) by (nonlinear_arith)
        requires
            -size < ey < size,
            v == dy || v == -dy,
            dy >= 0,
    ;
    let t = 2_000_000 * (dx + dy);
    assert(-(size * t) <= diff * d <= size * t) by {
        assert(size * t == 2_000_000 * (size * dx + size * dy)) by (nonlinear_arith)
            requires
                t == 2_000_000 * (dx + dy),
        ;
    }
    assert(-t <= diff <= t) by (nonlinear_arith)
        requires
            -(size * t) <= diff * d <= size * t,
            size == d || size == -d,
            size >= 1,
    ;
}

/// Through three points at whole millimetres there is a circle exactly where they do not
/// lie on a line.  Its centre is equally far from all three, up to the rounding of the
/// centre to millionths, and its radius is that distance.
pub proof fn lemma_circle_through_three_points(
    p0: (Fixed, Fixed),
    p1: (Fixed, Fixed),
    p2: (Fixed, Fixed),
    a: (int, int),
    b: (int, int),
    c: (int, int),
)
    requires
        is_at(p0, a.0, a.1),
        is_at(p1, b.0, b.1),
        is_at(p2, c.0, c.1),
    ensures
        circumcircle(p0, p1, p2) is None <==> twice_area(a, b, c) == 0,
        circumcircle(p0, p1, p2) matches Some(circle) ==> {
            let centre = (circle.cx.millionths as int, circle.cy.millionths as int);
            let s0 = square_between(centre, (a.0 * 1_000_000, a.1 * 1_000_000));
            let s1 = square_between(centre, (b.0 * 1_000_000, b.1 * 1_000_000));
            let s2 = square_between(centre, (c.0 * 1_000_000, c.1 * 1_000_000));
            let r = circle.r.millionths as int;
            let near1 = 2_000_000 * (magnitude(b.0 - a.0) + magnitude(b.1 - a.1));
            let near2 = 2_000_000 * (magnitude(c.0 - a.0) + magnitude(c.1 - a.1));
            &&& -near1 <= s0 - s1 <= near1
            &&& -near2 <= s0 - s2 <= near2
            &&& r <= 3_000_000_000_000 ==> r * r <= s0 < (r + 1) * (r + 1) + 2_000_000
        },
{
    let y12 = p1.1.minus_spec(p2.1);
    let y20 = p2.1.minus_spec(p0.1);
    let y01 = p0.1.minus_spec(p1.1);
    let x21 = p2.0.minus_spec(p1.0);
    let x02 = p0.0.minus_spec(p2.0);
    let x10 = p1.0.minus_spec(p0.0);
    let ny = (b.1 - c.1, c.1 - a.1, a.1 - b.1);
    let nx = (c.0 - b.0, a.0 - c.0, b.0 - a.0);
    let area = twice_area(a, b, c);
    lemma_area(a, b, c);
    lemma_whole_combination((p0.0, p1.0, p2.0), (a.0, b.0, c.0), (y12, y20, y01), ny, 1_000);
    let half = combine(p0.0, y12, p1.0, y20, p2.0, y01);
    assert(is_whole(half, area));
    assert(is_whole(Fixed::of_spec(2), 2));
    let d = Fixed::of_spec(2).times_spec(half);
    lemma_whole_product(Fixed::of_spec(2), 2, half, area);
    assert(is_whole(d, 2 * area));
    assert(Fixed::of_spec(10_000_000_000).millionths == 10_000_000_000_000_000);
    assert(1_000_000nat * 1_000_000 / 10_000_000_000_000_000 == 0);
    assert(singular::<Fixed>().millionths == 0);
    assert(vanishes(d.abs_spec(), singular()) <==> area == 0);
    if area != 0 {
        lemma_whole_square(p0, a.0, a.1);
        lemma_whole_square(p1, b.0, b.1);
        lemma_whole_square(p2, c.0, c.1);
        let s = (a.0 * a.0 + a.1 * a.1, b.0 * b.0 + b.1 * b.1, c.0 * c.0 + c.1 * c.1);
        let q = (square(p0), square(p1), square(p2));
        lemma_whole_combination(q, s, (y12, y20, y01), ny, 2_000_000);
        lemma_whole_combination(q, s, (x21, x02, x10), nx, 2_000_000);
        let top_x = combine(q.0, y12, q.1, y20, q.2, y01);
        let top_y = combine(q.0, x21, q.1, x02, q.2, x10);
        lemma_whole_quotient(top_x, top(s, ny), d, 2 * area);
        lemma_whole_quotient(top_y, top(s, nx), d, 2 * area);
        let cx = top_x.over_spec(d);
        let cy = top_y.over_spec(d);
        lemma_exact_centre(a, b, c, s, top(s, ny), top(s, nx));
        let x = cx.millionths as int;
        let y = cy.millionths as int;
        lemma_rounded_centre(a, b, s.0, s.1, area, top(s, ny), top(s, nx), x, y);
        lemma_rounded_centre(a, c, s.0, s.2, area, top(s, ny), top(s, nx), x, y);
        lemma_distance((cx, cy), p0);
        assert(square_distance((cx, cy), p0) == square_between(
            (x, y),
            (a.0 * 1_000_000, a.1 * 1_000_000),
        ));
    }
}

} // verus!
