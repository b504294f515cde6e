//! Distances, angles and arcs.

use vstd::prelude::*;

use crate::fixed::Fixed;
use crate::models::Point3D;
use crate::scalar::{is_vanishing, ratio, ratio_spec, vanishes, zero, zero_spec, Scalar};

verus! {

/// How far an angle runs from `start` to `end` in the direction in which it
/// grows; not positive differences run once around.
pub open spec fn sweep<N: Scalar>(start: N, end: N) -> N {
    let d = end.minus_spec(start);
    if d.at_most_spec(zero_spec()) {
        d.plus_spec(N::tau_spec())
    } else {
        d
    }
}

/// The angle that an arc spans, in radians.
///
/// Where start and end coincide, up to rounding, it is a full turn.
pub open spec fn arc_span_spec<N: Scalar>(start: N, end: N, clockwise: bool) -> N {
    let delta = if clockwise {
        sweep(end, start)
    } else {
        sweep(start, end)
    };
    if vanishes(delta, ratio_spec(1, 10_000_000_000)) {
        N::tau_spec()
    } else {
        delta
    }
}

/// The angle in radians that an arc from angle `start_angle` to angle `end_angle` spans.
///
/// Where start and end coincide, up to rounding, it is a full turn.
pub fn arc_span<N: Scalar>(start_angle: N, end_angle: N, clockwise: bool) -> (result: N)
    ensures
        result == arc_span_spec(start_angle, end_angle, clockwise),
{
    let d = if clockwise {
        start_angle.minus(end_angle)
    } else {
        end_angle.minus(start_angle)
    };
    let delta = if d.at_most(zero()) {
        d.plus(N::tau())
    } else {
        d
    };
    if is_vanishing(delta, ratio(1, 10_000_000_000)) {
        N::tau()
    } else {
        delta
    }
}

/// An arc spans something, and at most a full turn, where its angles are at most a
/// full turn apart; where they are the same, it spans a full turn.
pub proof fn lemma_arc_spans_at_most_a_turn(start: Fixed, end: Fixed, clockwise: bool)
    requires
        -Fixed::tau_spec().millionths <= end.millionths - start.millionths
            <= Fixed::tau_spec().millionths,
    ensures
        0 < arc_span_spec(start, end, clockwise).millionths <= Fixed::tau_spec().millionths,
        start == end ==> arc_span_spec(start, end, clockwise) == Fixed::tau_spec(),
{
    let tiny = ratio_spec::<Fixed>(1, 10_000_000_000);
    assert(Fixed::of_spec(10_000_000_000).millionths == 10_000_000_000_000_000);
    assert(1_000_000nat * 1_000_000 / 10_000_000_000_000_000 == 0);
    assert(tiny.millionths == 0);
}

/// The distance of two points in the plane.
pub open spec fn distance<N: Scalar>(a: (N, N), b: (N, N)) -> N {
    let dx = b.0.minus_spec(a.0);
    let dy = b.1.minus_spec(a.1);
    dx.times_spec(dx).plus_spec(dy.times_spec(dy)).sqrt_spec()
}

/// The distance of two points in the plane.
pub fn distance_of<N: Scalar>(a: (N, N), b: (N, N)) -> (result: N)
    ensures
        result == distance(a, b),
{
    let dx = b.0.minus(a.0);
    let dy = b.1.minus(a.1);
    dx.times(dx).plus(dy.times(dy)).sqrt()
}

/// The angle at which `point` lies as seen from `centre`, in radians.
pub open spec fn bearing<N: Scalar>(centre: (N, N), point: (N, N)) -> N {
    point.1.minus_spec(centre.1).atan2_spec(point.0.minus_spec(centre.0))
}

/// The angle at which `point` lies as seen from `centre`, in radians.
pub fn bearing_of<N: Scalar>(centre: (N, N), point: (N, N)) -> (result: N)
    ensures
        result == bearing(centre, point),
{
    point.1.minus(centre.1).atan2(point.0.minus(centre.0))
}

/// The vector from `a` to `b`.
pub open spec fn vector<N: Scalar>(a: Point3D<N>, b: Point3D<N>) -> Point3D<N> {
    Point3D { x: b.x.minus_spec(a.x), y: b.y.minus_spec(a.y), z: b.z.minus_spec(a.z) }
}

/// The length of a vector.
pub open spec fn length<N: Scalar>(v: Point3D<N>) -> N {
    v.x.times_spec(v.x).plus_spec(v.y.times_spec(v.y)).plus_spec(v.z.times_spec(v.z)).sqrt_spec()
}

/// The vector from `a` to `b`.
pub fn vector_between<N: Scalar>(a: Point3D<N>, b: Point3D<N>) -> (result: Point3D<N>)
    ensures
        result == vector(a, b),
{
    Point3D { x: b.x.minus(a.x), y: b.y.minus(a.y), z: b.z.minus(a.z) }
}

/// The length of a vector.
pub fn length_of<N: Scalar>(v: Point3D<N>) -> (result: N)
    ensures
        result == length(v),
{
    v.x.times(v.x).plus(v.y.times(v.y)).plus(v.z.times(v.z)).sqrt()
}

} // verus!
