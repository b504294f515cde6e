//! What distance, filament, time and layers an analysis counts, told from the moves
//! alone.
//!
//! The laws on numbers are about decimal numbers, and are stated over whole numbers of
//! millionths.

use vstd::prelude::*;

use crate::analyzer::laws::{begins_layer, push_of};
use crate::analyzer::{add_to_last, simulate, Simulated};
use crate::fixed::exact::{lemma_way, square_way};
use crate::fixed::Fixed;
use crate::geometry::{length, vector};
use crate::models::{Command, MachineLimits, Point3D, Spanned};
use crate::motion::{words_of_move, MoveWords};
use crate::optimizer::progress::{announces_layers, is_layer_comment};
use crate::optimizer::straight::is_reachable;
use crate::scalar::Scalar;

verus! {

// ── One move ──────────────────────────────────────────────────────────────────

/// What a straight move adds to the statistics.
pub open spec fn is_counted<N: Scalar>(
    s: Simulated<N>,
    t: Simulated<N>,
    e: Option<N>,
    raised: bool,
) -> bool {
    let way = length(vector(s.pos, t.pos));
    let time = way.over_spec(t.feedrate.over_spec(N::of_spec(60)));
    let times = if raised {
        s.stats.per_layer_times.push(N::of_spec(0))
    } else {
        s.stats.per_layer_times
    };
    &&& t.stats.total_distance_mm == s.stats.total_distance_mm.plus_spec(way)
    &&& t.stats.move_count == s.stats.move_count + 1
    &&& t.stats.total_filament_mm == (match e {
        Some(raw) => if N::of_spec(0).less_spec(push_of(s, raw)) {
            s.stats.total_filament_mm.plus_spec(push_of(s, raw))
        } else {
            s.stats.total_filament_mm
        },
        None => s.stats.total_filament_mm,
    })
    &&& N::of_spec(0).less_spec(t.feedrate) ==> t.stats.estimated_time_seconds
        == s.stats.estimated_time_seconds.plus_spec(time) && t.stats.per_layer_times
        == add_to_last(times, time)
    &&& !N::of_spec(0).less_spec(t.feedrate) ==> t.stats.estimated_time_seconds
        == s.stats.estimated_time_seconds && t.stats.per_layer_times == times
}

proof fn lemma_straight_counts<N: Scalar>(
    s: Simulated<N>,
    line: u32,
    w: MoveWords<N>,
    climbs: bool,
    announced: bool,
    limits: Option<MachineLimits<N>>,
)
    ensures
        ({
            let t = s.after_straight(line, w.x, w.y, w.z, w.e, w.f, climbs, announced, limits);
            is_counted(
                s,
                t,
                w.e,
                climbs && !announced && w.z is Some && s.last_z.less_spec(t.pos.z),
            )
        }),
{
    let dest = s.destination(w.x, w.y, w.z);
    let headed = s.with_feed(w.f).heading(line, dest, limits);
    assert(headed.stats == s.stats && headed.extruder == s.extruder && headed.is_absolute
        == s.is_absolute && headed.last_z == s.last_z);
    let ready = headed.extruded(line, w.e);
    assert(ready.feedrate == headed.feedrate && ready.last_z == s.last_z);
    assert(ready.stats.total_distance_mm == s.stats.total_distance_mm);
    assert(ready.stats.move_count == s.stats.move_count);
    assert(ready.stats.estimated_time_seconds == s.stats.estimated_time_seconds);
    assert(ready.stats.per_layer_times == s.stats.per_layer_times);
    let raised = if climbs {
        ready.climbed(line, w.z, dest, announced)
    } else {
        ready
    };
    assert(raised.feedrate == ready.feedrate);
    assert(raised.stats.total_distance_mm == s.stats.total_distance_mm);
    assert(raised.stats.move_count == s.stats.move_count);
    assert(raised.stats.total_filament_mm == ready.stats.total_filament_mm);
    assert(raised.stats.estimated_time_seconds == s.stats.estimated_time_seconds);
    let way = length(vector(s.pos, dest));
    let moved = raised.travelled(way);
    let t = s.after_straight(line, w.x, w.y, w.z, w.e, w.f, climbs, announced, limits);
    assert(t.pos == dest);
    assert(t.feedrate == raised.feedrate);
    assert(t.stats.total_distance_mm == moved.stats.total_distance_mm);
    assert(t.stats.per_layer_times == moved.stats.per_layer_times);
}

proof fn lemma_straight_move_counts<N: Scalar>(
    p: Seq<Spanned<Command<N>>>,
    limits: Option<MachineLimits<N>>,
    n: int,
)
    requires
        0 <= n < p.len(),
        p[n].inner is RapidMove || p[n].inner is LinearMove,
    ensures
        is_counted(
            simulate(p, limits, n),
            simulate(p, limits, n + 1),
            (words_of_move(p[n].inner)->0).e,
            begins_layer(p, limits, n),
        ),
{
    let s = simulate(p, limits, n);
    let w = words_of_move(p[n].inner)->0;
    let announced = announces_layers(p);
    match p[n].inner {
        Command::RapidMove { .. } => {
            lemma_straight_counts(s, p[n].line, w, false, announced, limits);
        },
        _ => {
            lemma_straight_counts(s, p[n].line, w, true, announced, limits);
        },
    }
}

// ── Distance and time ─────────────────────────────────────────────────────────

/// Whether sums and positions of a simulation are such that no move can lead them beyond
/// the range of numbers.
pub open spec fn has_room(s: Simulated<Fixed>) -> bool {
    &&& is_reachable(s.pos)
    &&& -500_000_000_000 <= s.extruder.millionths <= 500_000_000_000
    &&& 0 <= s.stats.total_distance_mm.millionths <= 4_000_000_000_000_000_000
    &&& 0 <= s.stats.total_filament_mm.millionths <= 4_000_000_000_000_000_000
    &&& 0 <= s.stats.estimated_time_seconds.millionths <= 4_000_000_000_000_000_000
}

proof fn lemma_distance_is_counted(s: Simulated<Fixed>, t: Simulated<Fixed>, e: Option<Fixed>,
    raised: bool)
    requires
        is_counted(s, t, e, raised),
        has_room(s),
        is_reachable(t.pos),
    ensures
        ({
            let d = t.stats.total_distance_mm.millionths - s.stats.total_distance_mm.millionths;
            &&& d == length(vector(s.pos, t.pos)).millionths
            &&& 0 <= d <= 3_000_000_000_000
            &&& d * d <= square_way(s.pos, t.pos)
            &&& square_way(s.pos, t.pos) < (d + 1) * (d + 1) + 3_000_000
        }),
{
    lemma_reachable_way(s.pos, t.pos);
    lemma_way(s.pos, t.pos);
}

proof fn lemma_reachable_way(a: Point3D<Fixed>, b: Point3D<Fixed>)
    requires
        is_reachable(a),
        is_reachable(b),
    ensures
        square_way(a, b) < 9_000_000_000_000_000_000_000_000,
{
    let dx = b.x.millionths - a.x.millionths;
    let dy = b.y.millionths - a.y.millionths;
    let dz = b.z.millionths - a.z.millionths;
    assert(dx * dx <= 1_000_000_000_000_000_000_000_000) by (nonlinear_arith)
        requires
            -1_000_000_000_000 <= dx <= 1_000_000_000_000,
    ;
    assert(dy * dy <= 1_000_000_000_000_000_000_000_000) by (nonlinear_arith)
        requires
            -1_000_000_000_000 <= dy <= 1_000_000_000_000,
    ;
    assert(dz * dz <= 1_000_000_000_000_000_000_000_000) by (nonlinear_arith)
        requires
            -1_000_000_000_000 <= dz <= 1_000_000_000_000,
    ;
}

/// A G0 or G1 adds the length of the straight way from where the head was to where it is.
pub proof fn lemma_distance_is_that_of_the_way(
    p: Seq<Spanned<Command<Fixed>>>,
    limits: Option<MachineLimits<Fixed>>,
    n: int,
)
    requires
        0 <= n < p.len(),
        p[n].inner is RapidMove || p[n].inner is LinearMove,
        has_room(simulate(p, limits, n)),
        is_reachable(simulate(p, limits, n + 1).pos),
    ensures
        ({
            let s = simulate(p, limits, n);
            let t = simulate(p, limits, n + 1);
            let d = t.stats.total_distance_mm.millionths - s.stats.total_distance_mm.millionths;
            &&& 0 <= d
            &&& d * d <= square_way(s.pos, t.pos)
            &&& square_way(s.pos, t.pos) < (d + 1) * (d + 1) + 3_000_000
            &&& t.stats.move_count == s.stats.move_count + 1
        }),
{
    lemma_straight_move_counts(p, limits, n);
    lemma_distance_is_counted(
        simulate(p, limits, n),
        simulate(p, limits, n + 1),
        (words_of_move(p[n].inner)->0).e,
        begins_layer(p, limits, n),
    );
}

proof fn lemma_time_is_counted(s: Simulated<Fixed>, t: Simulated<Fixed>, e: Option<Fixed>,
    raised: bool)
    requires
        is_counted(s, t, e, raised),
        has_room(s),
        is_reachable(t.pos),
    ensures
        ({
            let d = t.stats.total_distance_mm.millionths - s.stats.total_distance_mm.millionths;
            let time = t.stats.estimated_time_seconds.millionths
                - s.stats.estimated_time_seconds.millionths;
            let v = t.feedrate.millionths as int / 60;
            &&& t.feedrate.millionths <= 0 ==> time == 0
            &&& t.feedrate.millionths >= 60 ==> 0 <= time && time * v <= d * 1_000_000
                && d * 1_000_000 < (time + 1) * v
        }),
{
    lemma_distance_is_counted(s, t, e, raised);
    let f = t.feedrate.millionths as int;
    let way = length(vector(s.pos, t.pos));
    let d = way.millionths as int;
    if f >= 60 {
        let v = f / 60;
        let speed = t.feedrate.over_spec(Fixed::of_spec(60));
        assert(Fixed::of_spec(60).millionths == 60_000_000);
        assert((f * 1_000_000) / 60_000_000 == f / 60);
        assert(speed.millionths == v);
        let time = (d * 1_000_000) / v;
        vstd::arithmetic::div_mod::lemma_fundamental_div_mod(d * 1_000_000, v);
        vstd::arithmetic::div_mod::lemma_mod_bound(d * 1_000_000, v);
        assert(time * v == v * time) by (nonlinear_arith);
        assert((time + 1) * v == time * v + v) by (nonlinear_arith);
        assert(0 <= time <= d * 1_000_000) by (nonlinear_arith)
            requires
                time == (d * 1_000_000) / v,
                v >= 1,
                d >= 0,
        ;
        assert(way.over_spec(speed).millionths == time);
    }
}

/// The time of a move is its way over its speed: a G0 or G1 adds that many seconds that
/// they make up the way at the feedrate in force, which is in millimetres per minute.  A
/// feedrate that is not positive adds none.
pub proof fn lemma_time_is_way_over_speed(
    p: Seq<Spanned<Command<Fixed>>>,
    limits: Option<MachineLimits<Fixed>>,
    n: int,
)
    requires
        0 <= n < p.len(),
        p[n].inner is RapidMove || p[n].inner is LinearMove,
        has_room(simulate(p, limits, n)),
        is_reachable(simulate(p, limits, n + 1).pos),
    ensures
        ({
            let s = simulate(p, limits, n);
            let t = simulate(p, limits, n + 1);
            let d = t.stats.total_distance_mm.millionths - s.stats.total_distance_mm.millionths;
            let time = t.stats.estimated_time_seconds.millionths
                - s.stats.estimated_time_seconds.millionths;
            let v = t.feedrate.millionths as int / 60;
            &&& t.feedrate.millionths <= 0 ==> time == 0
            &&& t.feedrate.millionths >= 60 ==> 0 <= time && time * v <= d * 1_000_000
                && d * 1_000_000 < (time + 1) * v
        }),
{
    lemma_straight_move_counts(p, limits, n);
    lemma_time_is_counted(
        simulate(p, limits, n),
        simulate(p, limits, n + 1),
        (words_of_move(p[n].inner)->0).e,
        begins_layer(p, limits, n),
    );
}

// ── Filament ──────────────────────────────────────────────────────────────────

proof fn lemma_filament_is_counted(
    s: Simulated<Fixed>,
    t: Simulated<Fixed>,
    e: Option<Fixed>,
    raised: bool,
)
    requires
        is_counted(s, t, e, raised),
        has_room(s),
        e matches Some(raw) ==> -500_000_000_000 <= raw.millionths <= 500_000_000_000,
    ensures
        t.stats.total_filament_mm.millionths - s.stats.total_filament_mm.millionths == (match e {
            Some(raw) => {
                let push = if s.is_absolute {
                    raw.millionths - s.extruder.millionths
                } else {
                    raw.millionths as int
                };
                if push > 0 {
                    push
                } else {
                    0
                }
            },
            None => 0,
        }),
{
}

/// A G1 that names the extruder adds exactly what it pushes forward; what it draws back
/// is not taken off.
pub proof fn lemma_filament_is_what_is_pushed(
    p: Seq<Spanned<Command<Fixed>>>,
    limits: Option<MachineLimits<Fixed>>,
    n: int,
)
    requires
        0 <= n < p.len(),
        p[n].inner is RapidMove || p[n].inner is LinearMove,
        has_room(simulate(p, limits, n)),
        (words_of_move(p[n].inner)->0).e matches Some(raw) ==> -500_000_000_000 <= raw.millionths
            <= 500_000_000_000,
    ensures
        ({
            let s = simulate(p, limits, n);
            let t = simulate(p, limits, n + 1);
            t.stats.total_filament_mm.millionths - s.stats.total_filament_mm.millionths == (
            match (words_of_move(p[n].inner)->0).e {
                Some(raw) => {
                    let push = if s.is_absolute {
                        raw.millionths - s.extruder.millionths
                    } else {
                        raw.millionths as int
                    };
                    if push > 0 {
                        push
                    } else {
                        0
                    }
                },
                None => 0,
            })
        }),
{
    lemma_straight_move_counts(p, limits, n);
    lemma_filament_is_counted(
        simulate(p, limits, n),
        simulate(p, limits, n + 1),
        (words_of_move(p[n].inner)->0).e,
        begins_layer(p, limits, n),
    );
}

// ── Layers ────────────────────────────────────────────────────────────────────

proof fn lemma_layers_of_a_straight_move<N: Scalar>(
    s: Simulated<N>,
    line: u32,
    w: MoveWords<N>,
    climbs: bool,
    announced: bool,
    limits: Option<MachineLimits<N>>,
)
    ensures
        ({
            let t = s.after_straight(line, w.x, w.y, w.z, w.e, w.f, climbs, announced, limits);
            let raised = climbs && !announced && w.z is Some && s.last_z.less_spec(t.pos.z);
            &&& t.stats.layer_count == if raised {
                s.stats.layer_count + 1
            } else {
                s.stats.layer_count
            }
            &&& t.last_z == if raised {
                t.pos.z
            } else {
                s.last_z
            }
        }),
{
    let dest = s.destination(w.x, w.y, w.z);
    let ready = s.with_feed(w.f).heading(line, dest, limits).extruded(line, w.e);
    assert(ready.last_z == s.last_z && ready.stats.layer_count == s.stats.layer_count);
    let raised = if climbs {
        ready.climbed(line, w.z, dest, announced)
    } else {
        ready
    };
    let t = s.after_straight(line, w.x, w.y, w.z, w.e, w.f, climbs, announced, limits);
    assert(t.last_z == raised.last_z && t.stats.layer_count == raised.stats.layer_count);
}

proof fn lemma_layers_of_an_arc<N: Scalar>(
    s: Simulated<N>,
    line: u32,
    w: MoveWords<N>,
    i: Option<N>,
    j: Option<N>,
    clockwise: bool,
    limits: Option<MachineLimits<N>>,
)
    ensures
        ({
            let t = s.after_arc(line, w.x, w.y, w.z, w.e, w.f, i, j, clockwise, limits);
            &&& t.stats.layer_count == s.stats.layer_count
            &&& t.last_z == s.last_z
            &&& t.stats.move_count == s.stats.move_count
            &&& t.stats.per_layer_times.len() == s.stats.per_layer_times.len()
        }),
{
    let dest = s.destination(w.x, w.y, w.z);
    let ready = s.with_feed(w.f).heading(line, dest, limits).extruded(line, w.e);
    let arc = s.arc(dest, i, j, clockwise);
    let a = ready.travelled(arc.len_spec()).boxed(dest);
    let b = a.bulged(arc, 0, dest.z);
    let c = b.bulged(arc, 1, dest.z);
    let d = c.bulged(arc, 2, dest.z);
    let g = d.bulged(arc, 3, dest.z);
    assert(a.stats.layer_count == s.stats.layer_count && a.last_z == s.last_z && a.stats.move_count
        == s.stats.move_count && a.stats.per_layer_times.len() == s.stats.per_layer_times.len());
    assert(b.stats.layer_count == s.stats.layer_count && b.last_z == s.last_z && b.stats.move_count
        == s.stats.move_count && b.stats.per_layer_times == a.stats.per_layer_times);
    assert(c.stats.layer_count == s.stats.layer_count && c.last_z == s.last_z && c.stats.move_count
        == s.stats.move_count && c.stats.per_layer_times == a.stats.per_layer_times);
    assert(d.stats.layer_count == s.stats.layer_count && d.last_z == s.last_z && d.stats.move_count
        == s.stats.move_count && d.stats.per_layer_times == a.stats.per_layer_times);
    assert(g.stats.layer_count == s.stats.layer_count && g.last_z == s.last_z && g.stats.move_count
        == s.stats.move_count && g.stats.per_layer_times == a.stats.per_layer_times);
}

/// Whether command `n` is the comment `LAYER_CHANGE`.
pub open spec fn announces<N>(p: Seq<Spanned<Command<N>>>, n: int) -> bool {
    p[n].inner == (Command::<N>::Comment { text: "LAYER_CHANGE"@ })
}

/// A layer begins with each comment `LAYER_CHANGE`; in a program without such comments,
/// with each G1 that names Z and leads above the layer before.  Nothing else begins
/// one, and only such a G1 sets the height of the layer.
pub proof fn lemma_layers_begin<N: Scalar>(
    p: Seq<Spanned<Command<N>>>,
    limits: Option<MachineLimits<N>>,
    n: int,
)
    requires
        0 <= n < p.len(),
    ensures
        ({
            let s = simulate(p, limits, n);
            let t = simulate(p, limits, n + 1);
            let any = exists|k: int| 0 <= k < p.len() && #[trigger] announces(p, k);
            let raised = !any && p[n].inner is LinearMove
                && (words_of_move(p[n].inner)->0).z is Some
                && s.last_z.less_spec(t.pos.z);
            &&& t.stats.layer_count == if announces(p, n) || raised {
                s.stats.layer_count + 1
            } else {
                s.stats.layer_count
            }
            &&& t.last_z == if raised {
                t.pos.z
            } else {
                s.last_z
            }
        }),
{
    let s = simulate(p, limits, n);
    let announced = announces_layers(p);
    let any = exists|k: int| 0 <= k < p.len() && #[trigger] announces(p, k);
    assert(any == announced) by {
        if any {
            let k = choose|k: int| 0 <= k < p.len() && #[trigger] announces(p, k);
            assert(is_layer_comment(p[k].inner));
        }
        if announced {
            let k = choose|k: int|
                0 <= k < p.len() && is_layer_comment(
                    (#[trigger] p[k]).inner,
                );
            assert(announces(p, k));
        }
    }
    if let Some(w) = words_of_move(p[n].inner) {
        match p[n].inner {
            Command::RapidMove { .. } => {
                lemma_layers_of_a_straight_move(s, p[n].line, w, false, announced, limits);
            },
            Command::LinearMove { .. } => {
                lemma_layers_of_a_straight_move(s, p[n].line, w, true, announced, limits);
            },
            Command::ArcMoveCW { i, j, .. } => {
                lemma_layers_of_an_arc(s, p[n].line, w, i, j, true, limits);
            },
            Command::ArcMoveCCW { i, j, .. } => {
                lemma_layers_of_an_arc(s, p[n].line, w, i, j, false, limits);
            },
            _ => {},
        }
    }
}

proof fn lemma_layer_time_is_counted(
    s: Simulated<Fixed>,
    t: Simulated<Fixed>,
    e: Option<Fixed>,
    raised: bool,
)
    requires
        is_counted(s, t, e, raised),
        has_room(s),
        is_reachable(t.pos),
        t.feedrate.millionths <= 0 || t.feedrate.millionths >= 60,
        forall|k: int|
            0 <= k < s.stats.per_layer_times.len() ==> 0 <= (
            #[trigger] s.stats.per_layer_times[k]).millionths <= 4_000_000_000_000_000_000,
    ensures
        ({
            let old = s.stats.per_layer_times;
            let new = t.stats.per_layer_times;
            let time = t.stats.estimated_time_seconds.millionths
                - s.stats.estimated_time_seconds.millionths;
            &&& new.len() == if raised {
                old.len() + 1
            } else {
                old.len()
            }
            &&& forall|k: int| 0 <= k < new.len() - 1 ==> #[trigger] new[k] == old[k]
            &&& raised ==> new.last().millionths == time
            &&& !raised && old.len() > 0 ==> new.last().millionths == old.last().millionths + time
        }),
{
    lemma_time_is_counted(s, t, e, raised);
    lemma_distance_is_counted(s, t, e, raised);
    let old = s.stats.per_layer_times;
    if !raised && old.len() > 0 {
        assert(old.last() == old[old.len() - 1]);
    }
    let f = t.feedrate.millionths as int;
    if f >= 60 {
        lemma_seconds(length(vector(s.pos, t.pos)), t.feedrate);
    }
}

/// The seconds of a way are not negative, nor beyond the range of numbers.
proof fn lemma_seconds(way: Fixed, feedrate: Fixed)
    requires
        0 <= way.millionths <= 3_000_000_000_000,
        60 <= feedrate.millionths,
    ensures
        0 <= way.over_spec(feedrate.over_spec(Fixed::of_spec(60))).millionths
            <= 3_000_000_000_000_000_000,
{
    let f = feedrate.millionths as int;
    let v = f / 60;
    let d = way.millionths as int;
    assert(Fixed::of_spec(60).millionths == 60_000_000);
    assert((f * 1_000_000) / 60_000_000 == f / 60);
    assert(0 <= (d * 1_000_000) / v <= d * 1_000_000) by (nonlinear_arith)
        requires
            v >= 1,
            d >= 0,
    ;
}

/// The time of a G0 or G1 is that of the layer that it belongs to, the last one begun;
/// the times of the layers before stay.
pub proof fn lemma_time_belongs_to_the_last_layer(
    p: Seq<Spanned<Command<Fixed>>>,
    limits: Option<MachineLimits<Fixed>>,
    n: int,
)
    requires
        0 <= n < p.len(),
        p[n].inner is RapidMove || p[n].inner is LinearMove,
        has_room(simulate(p, limits, n)),
        is_reachable(simulate(p, limits, n + 1).pos),
        simulate(p, limits, n + 1).feedrate.millionths <= 0 || simulate(
            p,
            limits,
            n + 1,
        ).feedrate.millionths >= 60,
        forall|k: int|
            0 <= k < simulate(p, limits, n).stats.per_layer_times.len() ==> 0 <= (
            #[trigger] simulate(p, limits, n).stats.per_layer_times[k]).millionths
                <= 4_000_000_000_000_000_000,
    ensures
        ({
            let s = simulate(p, limits, n);
            let t = simulate(p, limits, n + 1);
            let old = s.stats.per_layer_times;
            let new = t.stats.per_layer_times;
            let raised = begins_layer(p, limits, n);
            let time = t.stats.estimated_time_seconds.millionths
                - s.stats.estimated_time_seconds.millionths;
            &&& new.len() == if raised {
                old.len() + 1
            } else {
                old.len()
            }
            &&& forall|k: int| 0 <= k < new.len() - 1 ==> #[trigger] new[k] == old[k]
            &&& raised ==> new.last().millionths == time
            &&& !raised && old.len() > 0 ==> new.last().millionths == old.last().millionths + time
        }),
{
    lemma_straight_move_counts(p, limits, n);
    lemma_layer_time_is_counted(
        simulate(p, limits, n),
        simulate(p, limits, n + 1),
        (words_of_move(p[n].inner)->0).e,
        begins_layer(p, limits, n),
    );
}

/// Before the first command nothing has been counted.
pub proof fn lemma_counts_start_at_zero<N: Scalar>(
    p: Seq<Spanned<Command<N>>>,
    limits: Option<MachineLimits<N>>,
)
    ensures
        ({
            let s = simulate(p, limits, 0).stats;
            &&& s.total_distance_mm == N::of_spec(0)
            &&& s.total_filament_mm == N::of_spec(0)
            &&& s.estimated_time_seconds == N::of_spec(0)
            &&& s.layer_count == 0 && s.move_count == 0 && s.per_layer_times.len() == 0
        }),
{
}

/// What is no move counts nothing, but that `LAYER_CHANGE` begins a layer that has taken
/// no time yet.
pub proof fn lemma_only_moves_count<N: Scalar>(
    p: Seq<Spanned<Command<N>>>,
    limits: Option<MachineLimits<N>>,
    n: int,
)
    requires
        0 <= n < p.len(),
        words_of_move(p[n].inner) is None,
    ensures
        ({
            let s = simulate(p, limits, n).stats;
            let t = simulate(p, limits, n + 1).stats;
            &&& t.total_distance_mm == s.total_distance_mm
            &&& t.total_filament_mm == s.total_filament_mm
            &&& t.estimated_time_seconds == s.estimated_time_seconds
            &&& t.move_count == s.move_count
            &&& t.per_layer_times == if announces(p, n) {
                s.per_layer_times.push(N::of_spec(0))
            } else {
                s.per_layer_times
            }
        }),
{
    assert(announces(p, n) == is_layer_comment(p[n].inner));
}

} // verus!
