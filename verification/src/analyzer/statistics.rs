//! What the statistics of an analysis are, told from the moves alone.
//!
//! The laws on numbers are about decimal numbers, and are stated over whole numbers of
//! millionths.

use vstd::prelude::*;

use crate::analyzer::{simulate, ArcShape, Simulated};
use crate::fixed::Fixed;
use crate::geometry::{length, vector};
use crate::models::{Command, MachineLimits, Point3D, Spanned};
use crate::motion::{words_of_move, MoveWords};
use crate::optimizer::progress::announces_layers;
use crate::scalar::Scalar;

verus! {

// ── The box ───────────────────────────────────────────────────────────────────

/// The simulation after the first `n` commands.
#[verifier::opaque]
spec fn traced<N: Scalar>(
    p: Seq<Spanned<Command<N>>>,
    limits: Option<MachineLimits<N>>,
    n: int,
) -> Simulated<N> {
    simulate(p, limits, n)
}

/// Whether a number is the lesser of two.
pub open spec fn is_least(m: Fixed, a: Fixed, b: Fixed) -> bool {
    m.millionths <= a.millionths && m.millionths <= b.millionths && (m == a || m == b)
}

/// Whether a number is the greater of two.
pub open spec fn is_greatest(m: Fixed, a: Fixed, b: Fixed) -> bool {
    a.millionths <= m.millionths && b.millionths <= m.millionths && (m == a || m == b)
}

/// Whether a point lies in the box of a simulation.
pub open spec fn is_in_the_box(s: Simulated<Fixed>, at: Point3D<Fixed>) -> bool {
    let low = s.stats.bbox_min;
    let high = s.stats.bbox_max;
    &&& low.x.millionths <= at.x.millionths <= high.x.millionths
    &&& low.y.millionths <= at.y.millionths <= high.y.millionths
    &&& low.z.millionths <= at.z.millionths <= high.z.millionths
}

/// Whether the box of `t` holds that of `s`.
pub open spec fn holds_the_box(t: Simulated<Fixed>, s: Simulated<Fixed>) -> bool {
    &&& t.stats.bbox_min.x.millionths <= s.stats.bbox_min.x.millionths
    &&& t.stats.bbox_min.y.millionths <= s.stats.bbox_min.y.millionths
    &&& t.stats.bbox_min.z.millionths <= s.stats.bbox_min.z.millionths
    &&& s.stats.bbox_max.x.millionths <= t.stats.bbox_max.x.millionths
    &&& s.stats.bbox_max.y.millionths <= t.stats.bbox_max.y.millionths
    &&& s.stats.bbox_max.z.millionths <= t.stats.bbox_max.z.millionths
}

proof fn lemma_boxed(s: Simulated<Fixed>, at: Point3D<Fixed>)
    ensures
        holds_the_box(s.boxed(at), s),
        is_in_the_box(s.boxed(at), at),
{
}

proof fn lemma_bulged(s: Simulated<Fixed>, arc: ArcShape<Fixed>, k: int, height: Fixed)
    ensures
        holds_the_box(s.bulged(arc, k, height), s),
        s.bulged(arc, k, height).pos == s.pos,
{
}

proof fn lemma_straight_box(
    s: Simulated<Fixed>,
    line: u32,
    w: MoveWords<Fixed>,
    climbs: bool,
    announced: bool,
    limits: Option<MachineLimits<Fixed>>,
)
    ensures
        ({
            let t = s.after_straight(line, w.x, w.y, w.z, w.e, w.f, climbs, announced, limits);
            &&& is_least(t.stats.bbox_min.x, s.stats.bbox_min.x, t.pos.x)
            &&& is_least(t.stats.bbox_min.y, s.stats.bbox_min.y, t.pos.y)
            &&& is_least(t.stats.bbox_min.z, s.stats.bbox_min.z, t.pos.z)
            &&& is_greatest(t.stats.bbox_max.x, s.stats.bbox_max.x, t.pos.x)
            &&& is_greatest(t.stats.bbox_max.y, s.stats.bbox_max.y, t.pos.y)
            &&& is_greatest(t.stats.bbox_max.z, s.stats.bbox_max.z, t.pos.z)
        }),
{
    let dest = s.destination(w.x, w.y, w.z);
    let ready = s.with_feed(w.f).heading(line, dest, limits).extruded(line, w.e);
    let raised = if climbs {
        ready.climbed(line, w.z, dest, announced)
    } else {
        ready
    };
    let way = length(vector(s.pos, dest));
    let moved = raised.travelled(way).counted();
    assert(ready.stats.bbox_min == s.stats.bbox_min && ready.stats.bbox_max == s.stats.bbox_max);
    assert(raised.stats.bbox_min == s.stats.bbox_min && raised.stats.bbox_max == s.stats.bbox_max);
    assert(moved.stats.bbox_min == s.stats.bbox_min && moved.stats.bbox_max == s.stats.bbox_max);
    let t = s.after_straight(line, w.x, w.y, w.z, w.e, w.f, climbs, announced, limits);
    assert(t.stats == moved.boxed(dest).stats);
}

proof fn lemma_arc_box(
    s: Simulated<Fixed>,
    line: u32,
    w: MoveWords<Fixed>,
    i: Option<Fixed>,
    j: Option<Fixed>,
    clockwise: bool,
    limits: Option<MachineLimits<Fixed>>,
)
    ensures
        ({
            let t = s.after_arc(line, w.x, w.y, w.z, w.e, w.f, i, j, clockwise, limits);
            holds_the_box(t, s) && is_in_the_box(t, t.pos)
        }),
{
    let dest = s.destination(w.x, w.y, w.z);
    let ready = s.with_feed(w.f).heading(line, dest, limits).extruded(line, w.e);
    assert(ready.stats.bbox_min == s.stats.bbox_min && ready.stats.bbox_max == s.stats.bbox_max);
    let arc = s.arc(dest, i, j, clockwise);
    let way = if i is None && j is None {
        length(vector(s.pos, dest))
    } else {
        arc.len_spec()
    };
    let moved = ready.travelled(way);
    assert(moved.stats.bbox_min == s.stats.bbox_min && moved.stats.bbox_max == s.stats.bbox_max);
    let a = moved.boxed(dest);
    lemma_boxed(moved, dest);
    let b = a.bulged(arc, 0, dest.z);
    lemma_bulged(a, arc, 0, dest.z);
    let c = b.bulged(arc, 1, dest.z);
    lemma_bulged(b, arc, 1, dest.z);
    let d = c.bulged(arc, 2, dest.z);
    lemma_bulged(c, arc, 2, dest.z);
    let g = d.bulged(arc, 3, dest.z);
    lemma_bulged(d, arc, 3, dest.z);
    assert(is_in_the_box(g, dest));
}

/// No command makes the box smaller, and a move takes in where it leads.
proof fn lemma_box_grows(
    p: Seq<Spanned<Command<Fixed>>>,
    limits: Option<MachineLimits<Fixed>>,
    n: int,
)
    requires
        0 <= n < p.len(),
    ensures
        holds_the_box(traced(p, limits, n + 1), traced(p, limits, n)),
        words_of_move(p[n].inner) is Some ==> is_in_the_box(
            traced(p, limits, n + 1),
            traced(p, limits, n + 1).pos,
        ),
        p[n].inner is RapidMove || p[n].inner is LinearMove ==> ({
            let s = traced(p, limits, n);
            let t = traced(p, limits, n + 1);
            &&& is_least(t.stats.bbox_min.x, s.stats.bbox_min.x, t.pos.x)
            &&& is_least(t.stats.bbox_min.y, s.stats.bbox_min.y, t.pos.y)
            &&& is_least(t.stats.bbox_min.z, s.stats.bbox_min.z, t.pos.z)
            &&& is_greatest(t.stats.bbox_max.x, s.stats.bbox_max.x, t.pos.x)
            &&& is_greatest(t.stats.bbox_max.y, s.stats.bbox_max.y, t.pos.y)
            &&& is_greatest(t.stats.bbox_max.z, s.stats.bbox_max.z, t.pos.z)
        }),
        words_of_move(p[n].inner) is None ==> traced(p, limits, n + 1).stats.bbox_min
            == traced(p, limits, n).stats.bbox_min && traced(p, limits, n + 1).stats.bbox_max
            == traced(p, limits, n).stats.bbox_max,
{
    reveal(traced);
    let s = simulate(p, limits, n);
    let announced = announces_layers(p);
    if let Some(w) = words_of_move(p[n].inner) {
        match p[n].inner {
            Command::RapidMove { .. } => {
                lemma_straight_box(s, p[n].line, w, false, announced, limits);
            },
            Command::LinearMove { .. } => {
                lemma_straight_box(s, p[n].line, w, true, announced, limits);
            },
            Command::ArcMoveCW { i, j, .. } => {
                lemma_arc_box(s, p[n].line, w, i, j, true, limits);
            },
            Command::ArcMoveCCW { i, j, .. } => {
                lemma_arc_box(s, p[n].line, w, i, j, false, limits);
            },
            _ => {},
        }
    }
}

proof fn lemma_traced_box_encloses(
    p: Seq<Spanned<Command<Fixed>>>,
    limits: Option<MachineLimits<Fixed>>,
    k: int,
    n: int,
)
    requires
        0 <= k < n <= p.len(),
        words_of_move(p[k].inner) is Some,
    ensures
        is_in_the_box(traced(p, limits, n), traced(p, limits, k + 1).pos),
    decreases n,
{
    lemma_box_grows(p, limits, n - 1);
    if k < n - 1 {
        lemma_traced_box_encloses(p, limits, k, n - 1);
    }
}

/// Whether the head is within the range of numbers.
pub open spec fn is_finite_place(at: Point3D<Fixed>) -> bool {
    at.x.is_finite_spec() && at.y.is_finite_spec() && at.z.is_finite_spec()
}

/// The six coordinates of a box, and of a point taken twice.
pub open spec fn bounds_of(low: Point3D<Fixed>, high: Point3D<Fixed>) -> Seq<Fixed> {
    seq![low.x, low.y, low.z, high.x, high.y, high.z]
}

/// Whether one of the moves before `n` has led the head to exactly the bound `b` of the
/// box: bounds 0, 1 and 2 are the least X, Y and Z, and 3, 4 and 5 the greatest.
pub open spec fn is_attained(
    p: Seq<Spanned<Command<Fixed>>>,
    limits: Option<MachineLimits<Fixed>>,
    n: int,
    b: int,
) -> bool {
    let s = simulate(p, limits, n);
    exists|k: int|
        0 <= k < n && words_of_move((#[trigger] p[k]).inner) is Some && bounds_of(
            s.stats.bbox_min,
            s.stats.bbox_max,
        )[b] == bounds_of(simulate(p, limits, k + 1).pos, simulate(p, limits, k + 1).pos)[b]
}

/// The same of the trace.
spec fn is_traced(
    p: Seq<Spanned<Command<Fixed>>>,
    limits: Option<MachineLimits<Fixed>>,
    n: int,
    b: int,
) -> bool {
    let s = traced(p, limits, n);
    exists|k: int|
        0 <= k < n && words_of_move((#[trigger] p[k]).inner) is Some && bounds_of(
            s.stats.bbox_min,
            s.stats.bbox_max,
        )[b] == bounds_of(traced(p, limits, k + 1).pos, traced(p, limits, k + 1).pos)[b]
}

proof fn lemma_traced_box_is_the_least(
    p: Seq<Spanned<Command<Fixed>>>,
    limits: Option<MachineLimits<Fixed>>,
    n: int,
    b: int,
)
    requires
        0 <= n <= p.len(),
        0 <= b < 6,
        forall|k: int|
            0 <= k < n ==> !((#[trigger] p[k]).inner is ArcMoveCW) && !(p[k].inner is ArcMoveCCW),
        forall|k: int| 0 <= k <= n ==> is_finite_place((#[trigger] traced(p, limits, k)).pos),
        exists|k: int| 0 <= k < n && words_of_move((#[trigger] p[k]).inner) is Some,
    ensures
        is_traced(p, limits, n, b),
    decreases n,
{
    let s = traced(p, limits, n - 1);
    let t = traced(p, limits, n);
    lemma_box_grows(p, limits, n - 1);
    let earlier = exists|k: int| 0 <= k < n - 1 && words_of_move((#[trigger] p[k]).inner) is Some;
    if earlier {
        lemma_traced_box_is_the_least(p, limits, n - 1, b);
        let k = choose|k: int|
            0 <= k < n - 1 && words_of_move((#[trigger] p[k]).inner) is Some && bounds_of(
                s.stats.bbox_min,
                s.stats.bbox_max,
            )[b] == bounds_of(traced(p, limits, k + 1).pos, traced(p, limits, k + 1).pos)[b];
        if words_of_move(p[n - 1].inner) is None {
            assert(words_of_move(p[k].inner) is Some);
            assert(is_traced(p, limits, n, b));
        } else {
            let here = bounds_of(t.stats.bbox_min, t.stats.bbox_max)[b];
            if here == bounds_of(t.pos, t.pos)[b] {
                assert(words_of_move(p[n - 1].inner) is Some);
            } else {
                assert(here == bounds_of(s.stats.bbox_min, s.stats.bbox_max)[b]);
                assert(words_of_move(p[k].inner) is Some);
            }
            assert(is_traced(p, limits, n, b));
        }
    } else {
        let k = choose|k: int| 0 <= k < n && words_of_move((#[trigger] p[k]).inner) is Some;
        assert(k == n - 1);
        lemma_no_box_yet(p, limits, n - 1);
        assert(is_finite_place(traced(p, limits, n).pos));
        assert(bounds_of(t.stats.bbox_min, t.stats.bbox_max)[b] == bounds_of(t.pos, t.pos)[b]);
        assert(words_of_move(p[n - 1].inner) is Some);
    }
}

proof fn lemma_no_box_yet(
    p: Seq<Spanned<Command<Fixed>>>,
    limits: Option<MachineLimits<Fixed>>,
    n: int,
)
    requires
        0 <= n <= p.len(),
        forall|k: int| 0 <= k < n ==> words_of_move((#[trigger] p[k]).inner) is None,
    ensures
        ({
            let s = traced(p, limits, n);
            &&& s.stats.bbox_min.x.millionths == i64::MAX - 1
            &&& s.stats.bbox_min.y.millionths == i64::MAX - 1
            &&& s.stats.bbox_min.z.millionths == i64::MAX - 1
            &&& s.stats.bbox_max.x.millionths == 1 - i64::MAX
            &&& s.stats.bbox_max.y.millionths == 1 - i64::MAX
            &&& s.stats.bbox_max.z.millionths == 1 - i64::MAX
        }),
    decreases n,
{
    reveal(traced);
    if n > 0 {
        lemma_no_box_yet(p, limits, n - 1);
        lemma_box_grows(p, limits, n - 1);
        assert(words_of_move(p[n - 1].inner) is None);
    }
}

/// The box encloses every place that a move has led the head to, on each axis.
pub proof fn lemma_box_encloses_every_move(
    p: Seq<Spanned<Command<Fixed>>>,
    limits: Option<MachineLimits<Fixed>>,
    k: int,
    n: int,
)
    requires
        0 <= k < n <= p.len(),
        words_of_move(p[k].inner) is Some,
    ensures
        is_in_the_box(simulate(p, limits, n), simulate(p, limits, k + 1).pos),
{
    lemma_traced_box_encloses(p, limits, k, n);
    assert(traced(p, limits, n) == simulate(p, limits, n)) by {
        reveal(traced);
    }
    assert(traced(p, limits, k + 1) == simulate(p, limits, k + 1)) by {
        reveal(traced);
    }
}

/// The box is no larger than it has to be: in a program without arcs, once there has
/// been a move, each of its six bounds is where some move has led.
pub proof fn lemma_box_is_the_least(
    p: Seq<Spanned<Command<Fixed>>>,
    limits: Option<MachineLimits<Fixed>>,
    n: int,
    b: int,
)
    requires
        0 <= n <= p.len(),
        0 <= b < 6,
        forall|k: int|
            0 <= k < n ==> !((#[trigger] p[k]).inner is ArcMoveCW) && !(p[k].inner is ArcMoveCCW),
        forall|k: int| 0 <= k <= n ==> is_finite_place((#[trigger] simulate(p, limits, k)).pos),
        exists|k: int| 0 <= k < n && words_of_move((#[trigger] p[k]).inner) is Some,
    ensures
        is_attained(p, limits, n, b),
{
    assert forall|k: int| 0 <= k <= n
        implies is_finite_place((#[trigger] traced(p, limits, k)).pos) by {
        lemma_traced(p, limits, k);
        assert(is_finite_place(simulate(p, limits, k).pos));
    }
    lemma_traced_box_is_the_least(p, limits, n, b);
    lemma_traced(p, limits, n);
    let s = traced(p, limits, n);
    let k = choose|k: int|
        0 <= k < n && words_of_move((#[trigger] p[k]).inner) is Some && bounds_of(
            s.stats.bbox_min,
            s.stats.bbox_max,
        )[b] == bounds_of(traced(p, limits, k + 1).pos, traced(p, limits, k + 1).pos)[b];
    lemma_traced(p, limits, k + 1);
    assert(words_of_move(p[k].inner) is Some);
}

proof fn lemma_traced<N: Scalar>(
    p: Seq<Spanned<Command<N>>>,
    limits: Option<MachineLimits<N>>,
    n: int,
)
    ensures
        traced(p, limits, n) == simulate(p, limits, n),
{
    reveal(traced);
}

} // verus!
