//! How decimal arithmetic stands to that of whole numbers.
//!
//! Laws about lengths and angles are stated over whole numbers of millionths, where
//! nothing is rounded and nothing overflows.  This module says by how much products,
//! roots and distances of decimal numbers can differ from the exact ones.

use vstd::prelude::*;

use crate::fixed::{clamp, held, is_root, magnitude, root, Fixed};
use crate::geometry::{distance, length, vector};
use crate::models::Point3D;
use crate::scalar::Scalar;

verus! {

/// Every number has a square root.
pub proof fn lemma_root(n: nat)
    ensures
        is_root(n, root(n)),
{
    let r = lemma_some_root(n);
    assert(is_root(n, r));
}

proof fn lemma_some_root(n: nat) -> (r: nat)
    ensures
        is_root(n, r),
    decreases n,
{
    if n == 0 {
        assert(0nat * 0nat <= n && n < (0nat + 1) * (0nat + 1)) by (nonlinear_arith)
            requires
                n == 0,
        ;
        0
    } else {
        let r = lemma_some_root((n - 1) as nat);
        assert((r + 1 + 1) * (r + 1 + 1) == (r + 1) * (r + 1) + 2 * r + 3) by (nonlinear_arith);
        if (r + 1) * (r + 1) <= n {
            assert(is_root(n, r + 1));
            r + 1
        } else {
            assert(is_root(n, r));
            r
        }
    }
}

/// A square is exact up to a millionth, unless it is at the end of the range.
pub proof fn lemma_square(v: Fixed)
    ensures
        ({
            let q = v.times_spec(v).millionths as int;
            let exact = v.millionths * v.millionths;
            &&& 0 <= q <= i64::MAX
            &&& q < i64::MAX ==> q * 1_000_000 <= exact < q * 1_000_000 + 1_000_000
            &&& exact < 9_000_000_000_000_000_000_000_000 ==> q < i64::MAX
        }),
{
    let n = v.millionths as int;
    let m = magnitude(n) as int;
    assert(m * m == n * n) by (nonlinear_arith)
        requires
            m == n || m == -n,
    ;
    assert(0 <= n * n) by (nonlinear_arith);
    let q = (m * m) / 1_000_000;
    assert(v.times_spec(v) == held(false, q as nat));
}

/// A product is exact up to a millionth, unless it is at an end of the range.
pub proof fn lemma_product(a: Fixed, b: Fixed)
    ensures
        ({
            let q = a.times_spec(b).millionths as int;
            let exact = a.millionths * b.millionths;
            &&& -i64::MAX <= q <= i64::MAX
            &&& -i64::MAX < q < i64::MAX ==> q * 1_000_000 - 1_000_000 < exact < q * 1_000_000
                + 1_000_000
            &&& magnitude(exact) < 9_000_000_000_000_000_000_000_000 ==> -i64::MAX < q < i64::MAX
        }),
{
    let x = a.millionths as int;
    let y = b.millionths as int;
    let mx = magnitude(x) as int;
    let my = magnitude(y) as int;
    let m = mx * my;
    let negative = (x < 0) != (y < 0);
    assert(0 <= m) by (nonlinear_arith)
        requires
            mx >= 0,
            my >= 0,
            m == mx * my,
    ;
    assert(x * y == if negative {
        -m
    } else {
        m
    }) by (nonlinear_arith)
        requires
            m == mx * my,
            mx == if x < 0 {
                -x
            } else {
                x
            },
            my == if y < 0 {
                -y
            } else {
                y
            },
            negative == ((x < 0) != (y < 0)),
    ;
    assert(a.times_spec(b) == held(negative, (m / 1_000_000) as nat));
}

/// A root is exact up to a millionth.
pub proof fn lemma_sqrt(m: Fixed)
    requires
        0 <= m.millionths,
    ensures
        ({
            let d = m.sqrt_spec().millionths as int;
            &&& 0 <= d
            &&& d * d <= m.millionths * 1_000_000
            &&& m.millionths * 1_000_000 < (d + 1) * (d + 1)
            &&& d <= 3_000_000_000_000 ==> m.millionths < i64::MAX
        }),
{
    if m.millionths > 0 {
        let n = (m.millionths * 1_000_000) as nat;
        lemma_root(n);
        let r = root(n) as int;
        assert(r < 4_000_000_000_000) by (nonlinear_arith)
            requires
                r * r <= n,
                n <= 9_223_372_036_854_775_807_000_000,
                r >= 0,
        ;
        assert(m.sqrt_spec().millionths == r);
        if r <= 3_000_000_000_000 {
            assert((r + 1) * (r + 1) <= 3_000_000_000_001 * 3_000_000_000_001) by (nonlinear_arith)
                requires
                    0 <= r <= 3_000_000_000_000,
            ;
        }
    }
}

/// The square of the distance of two points in the plane, in millionths of millionths.
pub open spec fn square_distance(a: (Fixed, Fixed), b: (Fixed, Fixed)) -> int {
    let dx = b.0.millionths - a.0.millionths;
    let dy = b.1.millionths - a.1.millionths;
    dx * dx + dy * dy
}

/// A difference is exact, or so large that its square is at the end of the range.
proof fn lemma_square_of_difference(a: Fixed, b: Fixed)
    ensures
        ({
            let d = b.minus_spec(a);
            let q = d.times_spec(d).millionths as int;
            let exact = (b.millionths - a.millionths) * (b.millionths - a.millionths);
            &&& 0 <= q <= i64::MAX
            &&& q < i64::MAX ==> q * 1_000_000 <= exact < q * 1_000_000 + 1_000_000
            &&& exact < 9_000_000_000_000_000_000_000_000 ==> q < i64::MAX
        }),
{
    let d = b.minus_spec(a);
    lemma_square(d);
    let exact = b.millionths - a.millionths;
    if d.millionths != exact {
        assert(exact * exact >= i64::MAX * i64::MAX) by (nonlinear_arith)
            requires
                exact >= i64::MAX || exact <= -i64::MAX,
        ;
        let m = d.millionths as int;
        assert(m == i64::MAX || m == -i64::MAX);
        assert(m * m == i64::MAX * i64::MAX) by (nonlinear_arith)
            requires
                m == i64::MAX || m == -i64::MAX,
        ;
    }
}

/// A distance in the plane is exact up to a few millionths, unless it is beyond any
/// printer.
pub proof fn lemma_distance(a: (Fixed, Fixed), b: (Fixed, Fixed))
    ensures
        ({
            let d = distance(a, b).millionths as int;
            &&& 0 <= d
            &&& d <= 3_000_000_000_000 ==> d * d <= square_distance(a, b) && square_distance(a, b)
                < (d + 1) * (d + 1) + 2_000_000
        }),
{
    let dx = b.0.minus_spec(a.0);
    let dy = b.1.minus_spec(a.1);
    lemma_square_of_difference(a.0, b.0);
    lemma_square_of_difference(a.1, b.1);
    let qx = dx.times_spec(dx);
    let qy = dy.times_spec(dy);
    let m = qx.plus_spec(qy);
    assert(m.millionths == clamp(qx.millionths + qy.millionths));
    lemma_sqrt(m);
    assert(distance(a, b) == m.sqrt_spec());
}

/// A distance that is not beyond any printer can be told.
pub proof fn lemma_near_distance(a: (Fixed, Fixed), b: (Fixed, Fixed))
    requires
        square_distance(a, b) < 9_000_000_000_000_000_000_000_000,
    ensures
        distance(a, b).millionths <= 3_000_000_000_000,
{
    let dx = b.0.minus_spec(a.0);
    let dy = b.1.minus_spec(a.1);
    let ex = b.0.millionths - a.0.millionths;
    let ey = b.1.millionths - a.1.millionths;
    assert(ex * ex >= 0 && ey * ey >= 0) by (nonlinear_arith);
    lemma_square_of_difference(a.0, b.0);
    lemma_square_of_difference(a.1, b.1);
    let m = dx.times_spec(dx).plus_spec(dy.times_spec(dy));
    lemma_sqrt(m);
    let d = distance(a, b).millionths as int;
    assert(d * d < 9_000_000_000_000_000_000_000_000);
    assert(d <= 3_000_000_000_000) by (nonlinear_arith)
        requires
            d * d < 9_000_000_000_000_000_000_000_000,
            d >= 0,
    ;
}

/// The square of the length of the way between two points, in millionths of millionths.
pub open spec fn square_way(a: Point3D<Fixed>, b: Point3D<Fixed>) -> int {
    let dx = b.x.millionths - a.x.millionths;
    let dy = b.y.millionths - a.y.millionths;
    let dz = b.z.millionths - a.z.millionths;
    dx * dx + dy * dy + dz * dz
}

proof fn lemma_small_square(n: int)
    ensures
        n * n < 1_000_000 ==> -1_000 < n < 1_000,
{
    if n * n < 1_000_000 {
        assert(-1_000 < n < 1_000) by (nonlinear_arith)
            requires
                n * n < 1_000_000,
        ;
    }
}

/// The length of a way is exact up to a few millionths, unless it is beyond any
/// printer.
pub proof fn lemma_way(a: Point3D<Fixed>, b: Point3D<Fixed>)
    ensures
        ({
            let d = length(vector(a, b)).millionths as int;
            &&& 0 <= d
            &&& d <= 3_000_000_000_000 ==> d * d <= square_way(a, b) && square_way(a, b) < (d + 1)
                * (d + 1) + 3_000_000
            &&& square_way(a, b) < 9_000_000_000_000_000_000_000_000 ==> d <= 3_000_000_000_000
            &&& d == 0 ==> -1_000 < b.x.millionths - a.x.millionths < 1_000 && -1_000
                < b.y.millionths - a.y.millionths < 1_000 && -1_000 < b.z.millionths
                - a.z.millionths < 1_000
        }),
{
    let v = vector(a, b);
    lemma_square_of_difference(a.x, b.x);
    lemma_square_of_difference(a.y, b.y);
    lemma_square_of_difference(a.z, b.z);
    let qx = v.x.times_spec(v.x);
    let qy = v.y.times_spec(v.y);
    let qz = v.z.times_spec(v.z);
    let part = qx.plus_spec(qy);
    let m = part.plus_spec(qz);
    assert(part.millionths == clamp(qx.millionths + qy.millionths));
    assert(m.millionths == clamp(part.millionths + qz.millionths));
    lemma_sqrt(m);
    assert(length(v) == m.sqrt_spec());
    let d = length(v).millionths as int;
    let dx = b.x.millionths - a.x.millionths;
    let dy = b.y.millionths - a.y.millionths;
    let dz = b.z.millionths - a.z.millionths;
    assert(dx * dx >= 0 && dy * dy >= 0 && dz * dz >= 0) by (nonlinear_arith);
    if d == 0 {
        assert((d + 1) * (d + 1) == 1) by (nonlinear_arith)
            requires
                d == 0,
        ;
        assert(m.millionths == 0);
        lemma_small_square(dx);
        lemma_small_square(dy);
        lemma_small_square(dz);
    }
    if square_way(a, b) < 9_000_000_000_000_000_000_000_000 {
        assert(d * d < 9_000_000_000_000_000_000_000_000);
        assert(d <= 3_000_000_000_000) by (nonlinear_arith)
            requires
                d * d < 9_000_000_000_000_000_000_000_000,
                d >= 0,
        ;
    }
}

/// The length of a vector is exact up to a few millionths, unless it is beyond any
/// printer.
pub proof fn lemma_length(v: Point3D<Fixed>)
    ensures
        ({
            let d = length(v).millionths as int;
            let exact = v.x.millionths * v.x.millionths + v.y.millionths * v.y.millionths
                + v.z.millionths * v.z.millionths;
            &&& 0 <= d
            &&& d <= 3_000_000_000_000 ==> d * d <= exact && exact < (d + 1) * (d + 1) + 3_000_000
        }),
{
    lemma_square(v.x);
    lemma_square(v.y);
    lemma_square(v.z);
    let qx = v.x.times_spec(v.x);
    let qy = v.y.times_spec(v.y);
    let qz = v.z.times_spec(v.z);
    let part = qx.plus_spec(qy);
    let m = part.plus_spec(qz);
    assert(part.millionths == clamp(qx.millionths + qy.millionths));
    assert(m.millionths == clamp(part.millionths + qz.millionths));
    lemma_sqrt(m);
    assert(length(v) == m.sqrt_spec());
}

} // verus!
