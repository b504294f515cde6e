//! Simulation of the print head.
//!
//! [`analyze`] runs over a program and simulates the moves of the print head.
//! It yields findings (moves out of bounds, negative coordinates, retractions,
//! layer changes, temperature towers) and statistics.  It changes nothing.

pub mod counts;
pub mod curves;
pub mod laws;
pub mod statistics;

use vstd::prelude::*;

use crate::diagnostics::{findings, Diagnostic, Finding, PrintStats, Severity, Stats};
use crate::geometry::{
    arc_span, arc_span_spec, bearing, bearing_of, distance, distance_of, length, length_of, vector,
    vector_between,
};
use crate::models::{cow_text, program, Command, GCodeCommand, MachineLimits, Point3D, Spanned};
use crate::optimizer::progress::{
    announces_layers, is_layer_comment, layer_comment, layers_announced,
};
use crate::optimizer::{axes_set, is_hotend, move_to, moved, set_axes};
use crate::parser::{parse_setting, setting_in};
use crate::scalar::{or_default, value_or, zero, zero_spec, Scalar};
use crate::text::push_text;
use crate::tower::{detect_tower, is_new_step, new_step, tower_notes, TemperatureStep};

verus! {

/// The result of an analysis.
#[derive(Debug)]
pub struct AnalysisResult<N> {
    /// Everything that was found.
    pub diagnostics: Vec<Diagnostic>,
    /// Statistics of the simulated print.
    pub stats: PrintStats<N>,
}

/// The limits themselves, where there are any.
pub open spec fn limits_of<N>(limits: Option<&MachineLimits<N>>) -> Option<MachineLimits<N>> {
    match limits {
        Some(lim) => Some(*lim),
        None => None,
    }
}

// ── What is found ─────────────────────────────────────────────────────────────

/// The warning about a move to a negative coordinate.
pub open spec fn negative_warning<N: Scalar>(line: u32, dest: Point3D<N>) -> Finding {
    Finding {
        severity: Severity::Warning,
        line,
        code: "W001"@,
        message: "move to negative coordinate "@ + dest.text_spec(),
    }
}

/// Whether any coordinate is negative.
pub open spec fn is_negative<N: Scalar>(dest: Point3D<N>) -> bool {
    dest.x.less_spec(zero_spec()) || dest.y.less_spec(zero_spec()) || dest.z.less_spec(zero_spec())
}

/// The error about a coordinate beyond the limit of its axis.
pub open spec fn bounds_error<N: Scalar>(
    line: u32,
    code: Seq<char>,
    axis: Seq<char>,
    value: N,
    limit: N,
) -> Finding {
    Finding {
        severity: Severity::Error,
        line,
        code,
        message: axis + " "@ + value.fixed_spec(3) + " exceeds machine limit of "@
            + limit.fixed_spec(3) + " mm"@,
    }
}

/// The error about one axis, if its coordinate is beyond the limit.
pub open spec fn axis_errors<N: Scalar>(
    line: u32,
    code: Seq<char>,
    axis: Seq<char>,
    value: N,
    limit: N,
) -> Seq<Finding> {
    if limit.less_spec(value) {
        seq![bounds_error(line, code, axis, value, limit)]
    } else {
        Seq::empty()
    }
}

/// The errors about coordinates beyond the limits.
pub open spec fn bounds_errors<N: Scalar>(
    line: u32,
    dest: Point3D<N>,
    limits: Option<MachineLimits<N>>,
) -> Seq<Finding> {
    match limits {
        Some(lim) => axis_errors(line, "E001"@, "X"@, dest.x, lim.max_x) + axis_errors(
            line,
            "E002"@,
            "Y"@,
            dest.y,
            lim.max_y,
        ) + axis_errors(line, "E003"@, "Z"@, dest.z, lim.max_z),
        None => Seq::empty(),
    }
}

/// What is found at the destination of a move.
pub open spec fn destination_findings<N: Scalar>(
    line: u32,
    dest: Point3D<N>,
    limits: Option<MachineLimits<N>>,
) -> Seq<Finding> {
    (if is_negative(dest) {
        seq![negative_warning(line, dest)]
    } else {
        Seq::empty()
    }) + bounds_errors(line, dest, limits)
}

/// The finding about a retraction: a warning from 2 mm on, a note below.
pub open spec fn retraction<N: Scalar>(line: u32, delta: N) -> Finding {
    Finding {
        severity: if N::of_spec((-2) as i64).less_spec(delta) {
            Severity::Info
        } else {
            Severity::Warning
        },
        line,
        code: "W002"@,
        message: "extruder retraction: E delta "@ + delta.fixed_spec(3) + " mm"@,
    }
}

/// The note on a layer that begins with a climb.
pub open spec fn layer_note<N: Scalar>(line: u32, from: N, to: N) -> Finding {
    Finding {
        severity: Severity::Info,
        line,
        code: "I001"@,
        message: "layer change detected: Z "@ + from.fixed_spec(3) + " → "@ + to.fixed_spec(3),
    }
}

// ── Arcs ──────────────────────────────────────────────────────────────────────

/// The centre, the start, the end and the direction of an arc.
pub struct ArcShape<N> {
    pub centre: (N, N),
    pub start: (N, N),
    pub end: (N, N),
    pub clockwise: bool,
}

impl<N: Copy> Copy for ArcShape<N> {

}

impl<N: Copy> Clone for ArcShape<N> {
    fn clone(&self) -> (result: Self)
        ensures
            result == *self,
    {
        *self
    }
}

impl<N: Scalar> ArcShape<N> {
    /// The radius of the arc.
    pub open spec fn radius(self) -> N {
        distance(self.centre, self.start)
    }

    /// The angle that the arc spans.
    pub open spec fn span(self) -> N {
        arc_span_spec(
            bearing(self.centre, self.start),
            bearing(self.centre, self.end),
            self.clockwise,
        )
    }

    /// The length of the arc.
    pub open spec fn len_spec(self) -> N {
        self.radius().times_spec(self.span())
    }

    /// Whether the arc passes through the point of its circle at `angle`.
    pub open spec fn passes(self, angle: N) -> bool {
        arc_span_spec(bearing(self.centre, self.start), angle, self.clockwise).at_most_spec(
            self.span(),
        )
    }

    /// The points furthest to the right, top, left and bottom of the circle,
    /// with the angles at which they lie.
    pub open spec fn extremes(self) -> Seq<(N, (N, N))> {
        let (cx, cy) = self.centre;
        let r = self.radius();
        let quarter = N::pi_spec().over_spec(N::of_spec(2));
        seq![
            (zero_spec(), (cx.plus_spec(r), cy)),
            (quarter, (cx, cy.plus_spec(r))),
            (N::pi_spec(), (cx.minus_spec(r), cy)),
            (quarter.negate_spec(), (cx, cy.minus_spec(r))),
        ]
    }

    fn sweep(&self) -> (result: N)
        ensures
            result == self.span(),
    {
        arc_span(
            bearing_of(self.centre, self.start),
            bearing_of(self.centre, self.end),
            self.clockwise,
        )
    }

    fn goes_through(&self, angle: N) -> (result: bool)
        ensures
            result == self.passes(angle),
    {
        arc_span(bearing_of(self.centre, self.start), angle, self.clockwise).at_most(self.sweep())
    }
}

// ── Simulation ────────────────────────────────────────────────────────────────

/// The least corner of the box around a box and a point.
pub open spec fn lower_corner<N: Scalar>(low: Point3D<N>, p: Point3D<N>) -> Point3D<N> {
    Point3D { x: low.x.min_spec(p.x), y: low.y.min_spec(p.y), z: low.z.min_spec(p.z) }
}

/// The greatest corner of the box around a box and a point.
pub open spec fn upper_corner<N: Scalar>(high: Point3D<N>, p: Point3D<N>) -> Point3D<N> {
    Point3D { x: high.x.max_spec(p.x), y: high.y.max_spec(p.y), z: high.z.max_spec(p.z) }
}

/// The times of the layers once `time` is added to that of the last.
pub open spec fn add_to_last<N: Scalar>(times: Seq<N>, time: N) -> Seq<N> {
    if times.len() == 0 {
        times
    } else {
        times.update(times.len() - 1, times.last().plus_spec(time))
    }
}

/// The simulated printer, and what the simulation has yielded so far.
#[verifier::ext_equal]
pub struct Simulated<N> {
    /// Position of the head.
    pub pos: Point3D<N>,
    /// Position of the extruder.
    pub extruder: N,
    /// Feedrate in force in mm/min.
    pub feedrate: N,
    /// Whether positioning is absolute.
    pub is_absolute: bool,
    /// Height of the current layer.
    pub last_z: N,
    /// Changes of the hotend temperature.
    pub steps: Seq<TemperatureStep<N>>,
    /// Everything found.
    pub found: Seq<Finding>,
    /// The statistics.
    pub stats: Stats<N>,
}

impl<N: Scalar> Simulated<N> {
    /// The printer before the first command: at the origin, in absolute mode, at 1500 mm/min.
    pub open spec fn start() -> Self {
        Simulated {
            pos: Point3D::origin(),
            extruder: zero_spec(),
            feedrate: N::of_spec(1_500),
            is_absolute: true,
            last_z: zero_spec(),
            steps: Seq::empty(),
            found: Seq::empty(),
            stats: Stats::none(),
        }
    }

    /// Where a move leads.
    pub open spec fn destination(
        self,
        x: Option<N>,
        y: Option<N>,
        z: Option<N>,
    ) -> Point3D<N> {
        Point3D {
            x: moved(self.pos.x, x, self.is_absolute),
            y: moved(self.pos.y, y, self.is_absolute),
            z: moved(self.pos.z, z, self.is_absolute),
        }
    }

    /// With the feedrate of a move in force.
    pub open spec fn with_feed(self, f: Option<N>) -> Self {
        Simulated { feedrate: value_or(f, self.feedrate), ..self }
    }

    /// With what is found at the destination of a move.
    pub open spec fn heading(
        self,
        line: u32,
        dest: Point3D<N>,
        limits: Option<MachineLimits<N>>,
    ) -> Self {
        Simulated { found: self.found + destination_findings(line, dest, limits), ..self }
    }

    /// After the extruder has moved.
    pub open spec fn extruded(self, line: u32, e: Option<N>) -> Self {
        match e {
            Some(raw) => {
                let delta = if self.is_absolute {
                    raw.minus_spec(self.extruder)
                } else {
                    raw
                };
                Simulated {
                    extruder: moved(self.extruder, e, self.is_absolute),
                    found: if zero_spec::<N>().at_most_spec(delta) {
                        self.found
                    } else {
                        self.found.push(retraction(line, delta))
                    },
                    stats: if zero_spec::<N>().less_spec(delta) {
                        Stats {
                            total_filament_mm: self.stats.total_filament_mm.plus_spec(delta),
                            ..self.stats
                        }
                    } else {
                        self.stats
                    },
                    ..self
                }
            },
            None => self,
        }
    }

    /// With a new layer begun.
    pub open spec fn layered(self) -> Self {
        Simulated {
            stats: Stats {
                layer_count: self.stats.layer_count + 1,
                per_layer_times: self.stats.per_layer_times.push(zero_spec()),
                ..self.stats
            },
            ..self
        }
    }

    /// With a new layer begun if a G1 that names Z climbs, and layers are not announced.
    pub open spec fn climbed(self, line: u32, z: Option<N>, dest: Point3D<N>, announced: bool) -> Self {
        if !announced && z is Some && self.last_z.less_spec(dest.z) {
            Simulated {
                found: self.found.push(layer_note(line, self.last_z, dest.z)),
                last_z: dest.z,
                ..self.layered()
            }
        } else {
            self
        }
    }

    /// With the distance and the time of a move accounted for.
    pub open spec fn travelled(self, way: N) -> Self {
        let time = way.over_spec(self.feedrate.over_spec(N::of_spec(60)));
        let distance = self.stats.total_distance_mm.plus_spec(way);
        Simulated {
            stats: if zero_spec::<N>().less_spec(self.feedrate) {
                Stats {
                    total_distance_mm: distance,
                    estimated_time_seconds: self.stats.estimated_time_seconds.plus_spec(time),
                    per_layer_times: add_to_last(self.stats.per_layer_times, time),
                    ..self.stats
                }
            } else {
                Stats { total_distance_mm: distance, ..self.stats }
            },
            ..self
        }
    }

    /// With a linear move counted.
    pub open spec fn counted(self) -> Self {
        Simulated {
            stats: Stats { move_count: self.stats.move_count + 1, ..self.stats },
            ..self
        }
    }

    /// With a point taken into the box.
    pub open spec fn boxed(self, p: Point3D<N>) -> Self {
        Simulated {
            stats: Stats {
                bbox_min: lower_corner(self.stats.bbox_min, p),
                bbox_max: upper_corner(self.stats.bbox_max, p),
                ..self.stats
            },
            ..self
        }
    }

    /// With the head at the destination.
    pub open spec fn arrived(self, dest: Point3D<N>) -> Self {
        Simulated { pos: dest, ..self }
    }

    /// After a linear move.
    pub open spec fn after_straight(
        self,
        line: u32,
        x: Option<N>,
        y: Option<N>,
        z: Option<N>,
        e: Option<N>,
        f: Option<N>,
        climbs: bool,
        announced: bool,
        limits: Option<MachineLimits<N>>,
    ) -> Self {
        let dest = self.destination(x, y, z);
        let ready = self.with_feed(f).heading(line, dest, limits).extruded(line, e);
        let raised = if climbs {
            ready.climbed(line, z, dest, announced)
        } else {
            ready
        };
        raised.travelled(length(vector(self.pos, dest))).counted().boxed(dest).arrived(dest)
    }

    /// With the extreme point number `k` of the arc taken into the box, if the arc passes it.
    pub open spec fn bulged(self, arc: ArcShape<N>, k: int, height: N) -> Self {
        let (angle, (x, y)) = arc.extremes()[k];
        if arc.passes(angle) {
            self.boxed(Point3D { x, y, z: height })
        } else {
            self
        }
    }

    /// The arc that a G2 or G3 describes.
    pub open spec fn arc(
        self,
        dest: Point3D<N>,
        i: Option<N>,
        j: Option<N>,
        clockwise: bool,
    ) -> ArcShape<N> {
        ArcShape {
            centre: (
                self.pos.x.plus_spec(value_or(i, zero_spec())),
                self.pos.y.plus_spec(value_or(j, zero_spec())),
            ),
            start: (self.pos.x, self.pos.y),
            end: (dest.x, dest.y),
            clockwise,
        }
    }

    /// After an arc move.  Without a centre it counts as straight.
    pub open spec fn after_arc(
        self,
        line: u32,
        x: Option<N>,
        y: Option<N>,
        z: Option<N>,
        e: Option<N>,
        f: Option<N>,
        i: Option<N>,
        j: Option<N>,
        clockwise: bool,
        limits: Option<MachineLimits<N>>,
    ) -> Self {
        let dest = self.destination(x, y, z);
        let ready = self.with_feed(f).heading(line, dest, limits).extruded(line, e);
        if i is None && j is None {
            ready.travelled(length(vector(self.pos, dest))).boxed(dest).arrived(dest)
        } else {
            let arc = self.arc(dest, i, j, clockwise);
            ready.travelled(arc.len_spec()).boxed(dest).bulged(arc, 0, dest.z).bulged(
                arc,
                1,
                dest.z,
            ).bulged(arc, 2, dest.z).bulged(arc, 3, dest.z).arrived(dest)
        }
    }

    /// After the hotend is set.
    pub open spec fn heated(self, line: u32, temperature: Option<N>) -> Self {
        match temperature {
            Some(t) => if is_new_step(self.steps, t) {
                Simulated {
                    steps: self.steps.push(
                        TemperatureStep { temperature: t, z: self.pos.z, line },
                    ),
                    ..self
                }
            } else {
                self
            },
            None => self,
        }
    }

    /// After a command.  `announced` says whether comments announce the layers.
    pub open spec fn after(
        self,
        spanned: Spanned<Command<N>>,
        announced: bool,
        limits: Option<MachineLimits<N>>,
    ) -> Self {
        let line = spanned.line;
        match spanned.inner {
            Command::RapidMove { x, y, z, f } => self.after_straight(
                line,
                x,
                y,
                z,
                None,
                f,
                false,
                announced,
                limits,
            ),
            Command::LinearMove { x, y, z, e, f } => self.after_straight(
                line,
                x,
                y,
                z,
                e,
                f,
                true,
                announced,
                limits,
            ),
            Command::ArcMoveCW { x, y, z, e, f, i, j } => self.after_arc(
                line,
                x,
                y,
                z,
                e,
                f,
                i,
                j,
                true,
                limits,
            ),
            Command::ArcMoveCCW { x, y, z, e, f, i, j } => self.after_arc(
                line,
                x,
                y,
                z,
                e,
                f,
                i,
                j,
                false,
                limits,
            ),
            Command::SetAbsolute => Simulated { is_absolute: true, ..self },
            Command::SetRelative => Simulated { is_absolute: false, ..self },
            Command::SetPosition { x, y, z, e } => {
                let set = set_axes(x, y, z, e);
                Simulated {
                    pos: Point3D {
                        x: value_or(set.x, self.pos.x),
                        y: value_or(set.y, self.pos.y),
                        z: value_or(set.z, self.pos.z),
                    },
                    extruder: value_or(set.e, self.extruder),
                    ..self
                }
            },
            Command::MetaCommand { code, params } => if is_hotend(code) {
                self.heated(line, setting_in(params))
            } else {
                self
            },
            Command::Comment { .. } => if is_layer_comment(spanned.inner) {
                self.layered()
            } else {
                self
            },
            _ => self,
        }
    }
}

/// The simulation after the first `n` commands.
pub open spec fn simulate<N: Scalar>(
    p: Seq<Spanned<Command<N>>>,
    limits: Option<MachineLimits<N>>,
    n: int,
) -> Simulated<N>
    decreases n,
{
    if n <= 0 {
        Simulated::start()
    } else {
        simulate(p, limits, n - 1).after(p[n - 1], announces_layers(p), limits)
    }
}

/// The simulation of the whole program.
pub open spec fn simulation<N: Scalar>(
    p: Seq<Spanned<Command<N>>>,
    limits: Option<MachineLimits<N>>,
) -> Simulated<N> {
    simulate(p, limits, p.len() as int)
}

/// Everything that an analysis of the program finds.
pub open spec fn analysis_findings<N: Scalar>(
    p: Seq<Spanned<Command<N>>>,
    limits: Option<MachineLimits<N>>,
) -> Seq<Finding> {
    simulation(p, limits).found + tower_notes(p, simulation(p, limits).steps)
}

/// A command begins at most one layer, and layers and their times go together.
pub proof fn lemma_layers_grow<N: Scalar>(
    p: Seq<Spanned<Command<N>>>,
    limits: Option<MachineLimits<N>>,
    n: int,
    m: int,
)
    requires
        0 <= n <= m,
    ensures
        simulate(p, limits, n).stats.layer_count <= simulate(p, limits, m).stats.layer_count,
        simulate(p, limits, m).stats.layer_count <= m,
        simulate(p, limits, m).stats.move_count <= m,
        simulate(p, limits, m).stats.per_layer_times.len() == simulate(
            p,
            limits,
            m,
        ).stats.layer_count,
    decreases m,
{
    if m > 0 {
        if n < m {
            lemma_layers_grow(p, limits, n, m - 1);
        } else {
            lemma_layers_grow(p, limits, m - 1, m - 1);
        }
    }
}

// ── The pass ──────────────────────────────────────────────────────────────────

/// The simulated printer, and what the simulation has yielded so far.
struct Simulation<N> {
    pos: Point3D<N>,
    extruder: N,
    feedrate: N,
    is_absolute: bool,
    last_z: N,
    steps: Vec<TemperatureStep<N>>,
    diags: Vec<Diagnostic>,
    stats: PrintStats<N>,
}

impl<N> View for Simulation<N> {
    type V = Simulated<N>;

    closed spec fn view(&self) -> Simulated<N> {
        Simulated {
            pos: self.pos,
            extruder: self.extruder,
            feedrate: self.feedrate,
            is_absolute: self.is_absolute,
            last_z: self.last_z,
            steps: self.steps@,
            found: findings(self.diags@),
            stats: self.stats@,
        }
    }
}

fn axis_message<N: Scalar>(axis: &str, value: N, limit: N) -> (result: String)
    ensures
        result@ == axis@ + " "@ + value.fixed_spec(3) + " exceeds machine limit of "@
            + limit.fixed_spec(3) + " mm"@,
{
    let mut message = String::new();
    push_text(&mut message, axis);
    push_text(&mut message, " ");
    push_text(&mut message, value.fixed(3).as_str());
    push_text(&mut message, " exceeds machine limit of ");
    push_text(&mut message, limit.fixed(3).as_str());
    push_text(&mut message, " mm");
    message
}

impl<N: Scalar> Simulation<N> {
    fn new() -> (result: Self)
        ensures
            result@ == Simulated::<N>::start(),
    {
        let s = Simulation {
            pos: Point3D::default(),
            extruder: zero(),
            feedrate: N::of(1_500),
            is_absolute: true,
            last_z: zero(),
            steps: Vec::new(),
            diags: Vec::new(),
            stats: PrintStats::default(),
        };
        proof {
            assert(findings(s.diags@) =~= Seq::<Finding>::empty());
        }
        s
    }

    fn report(&mut self, diagnostic: Diagnostic)
        ensures
            final(self)@ == (Simulated {
                found: old(self)@.found.push(diagnostic@),
                ..old(self)@
            }),
    {
        self.diags.push(diagnostic);
        proof {
            assert(findings(self.diags@) =~= findings(old(self).diags@).push(diagnostic@));
        }
    }

    fn resolve_destination(&self, x: Option<N>, y: Option<N>, z: Option<N>) -> (result: Point3D<N>)
        ensures
            result == self@.destination(x, y, z),
    {
        Point3D {
            x: move_to(self.pos.x, x, self.is_absolute),
            y: move_to(self.pos.y, y, self.is_absolute),
            z: move_to(self.pos.z, z, self.is_absolute),
        }
    }

    fn set_feed(&mut self, f: Option<N>)
        ensures
            final(self)@ == old(self)@.with_feed(f),
    {
        self.feedrate = or_default(f, self.feedrate);
    }

    /// Reports an axis whose coordinate is beyond its limit.
    fn check_axis(
        &mut self,
        line: u32,
        code: &'static str,
        axis: &'static str,
        value: N,
        limit: N,
    )
        ensures
            final(self)@ == (Simulated {
                found: old(self)@.found + axis_errors(line, code@, axis@, value, limit),
                ..old(self)@
            }),
    {
        if limit.less(value) {
            let message = axis_message(axis, value, limit);
            self.report(Diagnostic { severity: Severity::Error, line, code, message });
        }
        proof {
            assert(self@.found =~= old(self)@.found + axis_errors(line, code@, axis@, value, limit));
        }
    }

    /// Reports what is wrong with the destination of a move.
    fn check_destination(&mut self, line: u32, dest: Point3D<N>, limits: Option<&MachineLimits<N>>)
        ensures
            final(self)@ == old(self)@.heading(line, dest, limits_of(limits)),
    {
        if dest.x.less(zero()) || dest.y.less(zero()) || dest.z.less(zero()) {
            let mut message = String::new();
            push_text(&mut message, "move to negative coordinate ");
            push_text(&mut message, dest.to_text().as_str());
            self.report(Diagnostic { severity: Severity::Warning, line, code: "W001", message });
        }
        if let Some(lim) = limits {
            self.check_axis(line, "E001", "X", dest.x, lim.max_x);
            self.check_axis(line, "E002", "Y", dest.y, lim.max_y);
            self.check_axis(line, "E003", "Z", dest.z, lim.max_z);
        }
        proof {
            assert(self@.found =~= old(self)@.found + destination_findings(
                line,
                dest,
                limits_of(limits),
            ));
        }
    }

    fn extrude(&mut self, line: u32, e: Option<N>)
        ensures
            final(self)@ == old(self)@.extruded(line, e),
    {
        if let Some(raw) = e {
            let delta = if self.is_absolute {
                raw.minus(self.extruder)
            } else {
                raw
            };
            if !zero::<N>().at_most(delta) {
                let severity = if N::of(-2).less(delta) {
                    Severity::Info
                } else {
                    Severity::Warning
                };
                let mut message = String::new();
                push_text(&mut message, "extruder retraction: E delta ");
                push_text(&mut message, delta.fixed(3).as_str());
                push_text(&mut message, " mm");
                self.report(Diagnostic { severity, line, code: "W002", message });
            }
            if zero::<N>().less(delta) {
                self.stats.total_filament_mm = self.stats.total_filament_mm.plus(delta);
            }
            self.extruder = move_to(self.extruder, e, self.is_absolute);
        }
    }

    fn begin_layer(&mut self)
        requires
            old(self)@.stats.layer_count < u32::MAX,
        ensures
            final(self)@ == old(self)@.layered(),
    {
        self.stats.layer_count = self.stats.layer_count + 1;
        self.stats.per_layer_times.push(zero());
    }

    fn climb(&mut self, line: u32, z: Option<N>, dest: Point3D<N>, announced: bool)
        requires
            old(self)@.climbed(line, z, dest, announced).stats.layer_count <= u32::MAX,
        ensures
            final(self)@ == old(self)@.climbed(line, z, dest, announced),
    {
        if !announced && z.is_some() && self.last_z.less(dest.z) {
            let mut message = String::new();
            push_text(&mut message, "layer change detected: Z ");
            push_text(&mut message, self.last_z.fixed(3).as_str());
            push_text(&mut message, " → ");
            push_text(&mut message, dest.z.fixed(3).as_str());
            self.report(Diagnostic { severity: Severity::Info, line, code: "I001", message });
            self.begin_layer();
            self.last_z = dest.z;
        }
    }

    fn travel(&mut self, way: N)
        ensures
            final(self)@ == old(self)@.travelled(way),
    {
        self.stats.total_distance_mm = self.stats.total_distance_mm.plus(way);
        if zero::<N>().less(self.feedrate) {
            let time = way.over(self.feedrate.over(N::of(60)));
            self.stats.estimated_time_seconds = self.stats.estimated_time_seconds.plus(time);
            let layers: usize = self.stats.per_layer_times.len();
            if layers > 0 {
                let last = self.stats.per_layer_times[layers - 1];
                self.stats.per_layer_times.set(layers - 1, last.plus(time));
            }
        }
    }

    fn update_bbox(&mut self, p: Point3D<N>)
        ensures
            final(self)@ == old(self)@.boxed(p),
    {
        let low = self.stats.bbox_min;
        let high = self.stats.bbox_max;
        self.stats.bbox_min =
        Point3D { x: low.x.min(p.x), y: low.y.min(p.y), z: low.z.min(p.z) };
        self.stats.bbox_max =
        Point3D { x: high.x.max(p.x), y: high.y.max(p.y), z: high.z.max(p.z) };
    }

    fn straight(
        &mut self,
        line: u32,
        x: Option<N>,
        y: Option<N>,
        z: Option<N>,
        e: Option<N>,
        f: Option<N>,
        climbs: bool,
        announced: bool,
        limits: Option<&MachineLimits<N>>,
    )
        requires
            old(self)@.stats.move_count < usize::MAX,
            old(self)@.after_straight(
                line,
                x,
                y,
                z,
                e,
                f,
                climbs,
                announced,
                limits_of(limits),
            ).stats.layer_count <= u32::MAX,
        ensures
            final(self)@ == old(self)@.after_straight(
                line,
                x,
                y,
                z,
                e,
                f,
                climbs,
                announced,
                limits_of(limits),
            ),
    {
        let dest = self.resolve_destination(x, y, z);
        let way = length_of(vector_between(self.pos, dest));
        self.set_feed(f);
        self.check_destination(line, dest, limits);
        self.extrude(line, e);
        if climbs {
            self.climb(line, z, dest, announced);
        }
        self.travel(way);
        self.stats.move_count = self.stats.move_count + 1;
        self.update_bbox(dest);
        self.pos = dest;
    }

    fn bulge(&mut self, arc: &ArcShape<N>, k: usize, angle: N, x: N, y: N, height: N)
        requires
            k < 4,
            arc.extremes()[k as int] == (angle, (x, y)),
        ensures
            final(self)@ == old(self)@.bulged(*arc, k as int, height),
    {
        if arc.goes_through(angle) {
            self.update_bbox(Point3D { x, y, z: height });
        }
    }

    fn arc_move(
        &mut self,
        line: u32,
        x: Option<N>,
        y: Option<N>,
        z: Option<N>,
        e: Option<N>,
        f: Option<N>,
        i: Option<N>,
        j: Option<N>,
        clockwise: bool,
        limits: Option<&MachineLimits<N>>,
    )
        ensures
            final(self)@ == old(self)@.after_arc(
                line,
                x,
                y,
                z,
                e,
                f,
                i,
                j,
                clockwise,
                limits_of(limits),
            ),
    {
        let dest = self.resolve_destination(x, y, z);
        let start = self.pos;
        self.set_feed(f);
        self.check_destination(line, dest, limits);
        self.extrude(line, e);
        if i.is_none() && j.is_none() {
            self.travel(length_of(vector_between(start, dest)));
            self.update_bbox(dest);
        } else {
            let arc = ArcShape {
                centre: (
                    start.x.plus(or_default(i, zero())),
                    start.y.plus(or_default(j, zero())),
                ),
                start: (start.x, start.y),
                end: (dest.x, dest.y),
                clockwise,
            };
            let r = distance_of(arc.centre, arc.start);
            let (cx, cy) = arc.centre;
            let quarter = N::pi().over(N::of(2));
            self.travel(r.times(arc.sweep()));
            self.update_bbox(dest);
            self.bulge(&arc, 0, zero(), cx.plus(r), cy, dest.z);
            self.bulge(&arc, 1, quarter, cx, cy.plus(r), dest.z);
            self.bulge(&arc, 2, N::pi(), cx.minus(r), cy, dest.z);
            self.bulge(&arc, 3, quarter.negate(), cx, cy.minus(r), dest.z);
        }
        self.pos = dest;
    }

    fn heat(&mut self, line: u32, temperature: Option<N>)
        ensures
            final(self)@ == old(self)@.heated(line, temperature),
    {
        if let Some(t) = temperature {
            if new_step(&self.steps, t) {
                self.steps.push(TemperatureStep { temperature: t, z: self.pos.z, line });
            }
        }
    }

    fn process_command(
        &mut self,
        spanned: &Spanned<GCodeCommand<'_, N>>,
        announced: bool,
        limits: Option<&MachineLimits<N>>,
    )
        requires
            old(self)@.stats.move_count < usize::MAX,
            old(self)@.after(spanned@, announced, limits_of(limits)).stats.layer_count <= u32::MAX,
        ensures
            final(self)@ == old(self)@.after(spanned@, announced, limits_of(limits)),
    {
        let line = spanned.line;
        match &spanned.inner {
            GCodeCommand::RapidMove { x, y, z, f } => {
                self.straight(line, *x, *y, *z, None, *f, false, announced, limits);
            },
            GCodeCommand::LinearMove { x, y, z, e, f } => {
                self.straight(line, *x, *y, *z, *e, *f, true, announced, limits);
            },
            GCodeCommand::ArcMoveCW { x, y, z, e, f, i, j } => {
                self.arc_move(line, *x, *y, *z, *e, *f, *i, *j, true, limits);
            },
            GCodeCommand::ArcMoveCCW { x, y, z, e, f, i, j } => {
                self.arc_move(line, *x, *y, *z, *e, *f, *i, *j, false, limits);
            },
            GCodeCommand::SetAbsolute => {
                self.is_absolute = true;
            },
            GCodeCommand::SetRelative => {
                self.is_absolute = false;
            },
            GCodeCommand::SetPosition { x, y, z, e } => {
                let set = axes_set(*x, *y, *z, *e);
                self.pos =
                Point3D {
                    x: or_default(set.x, self.pos.x),
                    y: or_default(set.y, self.pos.y),
                    z: or_default(set.z, self.pos.z),
                };
                self.extruder = or_default(set.e, self.extruder);
            },
            GCodeCommand::MetaCommand { code, params } => {
                if *code == 104 || *code == 109 {
                    self.heat(line, parse_setting(cow_text(params)));
                }
            },
            GCodeCommand::Comment { .. } => {
                if layer_comment(&spanned.inner) {
                    self.begin_layer();
                }
            },
            _ => {},
        }
    }
}

/// Simulates a program.
///
/// With `limits`, moves beyond them are reported (`E001` to `E003`); without,
/// they are not checked.
pub fn analyze<N: Scalar>(
    commands: &[Spanned<GCodeCommand<'_, N>>],
    limits: Option<&MachineLimits<N>>,
) -> (result: AnalysisResult<N>)
    requires
        simulation(program(commands@), limits_of(limits)).stats.layer_count <= u32::MAX,
    ensures
        findings(result.diagnostics@) == analysis_findings(
            program(commands@),
            limits_of(limits),
        ),
        result.stats@ == simulation(program(commands@), limits_of(limits)).stats,
{
    let ghost p = program(commands@);
    let ghost l = limits_of(limits);
    let announced = layers_announced(commands);
    let mut s: Simulation<N> = Simulation::new();
    let mut idx: usize = 0;
    while idx < commands.len()
        invariant
            idx <= commands.len(),
            p == program(commands@),
            l == limits_of(limits),
            announced == announces_layers(p),
            simulation(p, l).stats.layer_count <= u32::MAX,
            s@ == simulate(p, l, idx as int),
        decreases commands.len() - idx,
    {
        proof {
            assert(p[idx as int] == commands@[idx as int]@);
            lemma_layers_grow(p, l, idx + 1, p.len() as int);
            lemma_layers_grow(p, l, idx as int, idx as int);
            assert(simulate(p, l, idx + 1) == s@.after(commands@[idx as int]@, announced, l));
        }
        s.process_command(&commands[idx], announced, limits);
        idx = idx + 1;
    }
    let tower = detect_tower(commands, &s.steps);
    let mut diagnostics = s.diags;
    let ghost found = findings(diagnostics@);
    if let Some(note) = tower {
        diagnostics.push(note);
        proof {
            assert(findings(diagnostics@) =~= found + seq![note@]);
        }
    } else {
        proof {
            assert(tower_notes(p, s@.steps) =~= Seq::<Finding>::empty());
            assert(findings(diagnostics@) =~= found + tower_notes(p, s@.steps));
        }
    }
    AnalysisResult { diagnostics, stats: s.stats }
}

// ── Laws ──────────────────────────────────────────────────────────────────────

/// The number of comments among the first `n` commands that announce a layer.
pub open spec fn layer_comments<N>(p: Seq<Spanned<Command<N>>>, n: int) -> nat
    decreases n,
{
    if n <= 0 {
        0
    } else if is_layer_comment(p[n - 1].inner) {
        layer_comments(p, n - 1) + 1
    } else {
        layer_comments(p, n - 1)
    }
}

/// Where comments announce the layers, exactly these comments count.
pub proof fn lemma_announced_layers_count<N: Scalar>(
    p: Seq<Spanned<Command<N>>>,
    limits: Option<MachineLimits<N>>,
    n: int,
)
    requires
        announces_layers(p),
    ensures
        simulate(p, limits, n).stats.layer_count == layer_comments(p, n),
        simulate(p, limits, n).last_z == zero_spec::<N>(),
    decreases n,
{
    if n > 0 {
        lemma_announced_layers_count(p, limits, n - 1);
    }
}

/// There is one time per layer.
pub proof fn lemma_one_time_per_layer<N: Scalar>(
    p: Seq<Spanned<Command<N>>>,
    limits: Option<MachineLimits<N>>,
)
    ensures
        simulation(p, limits).stats.per_layer_times.len() == simulation(
            p,
            limits,
        ).stats.layer_count,
{
    lemma_layers_grow(p, limits, 0, p.len() as int);
}

/// The number of G0 and G1 among the first `n` commands.
pub open spec fn linear_moves<N>(p: Seq<Spanned<Command<N>>>, n: int) -> nat
    decreases n,
{
    if n <= 0 {
        0
    } else if p[n - 1].inner is RapidMove || p[n - 1].inner is LinearMove {
        linear_moves(p, n - 1) + 1
    } else {
        linear_moves(p, n - 1)
    }
}

/// Exactly G0 and G1 are counted as moves.
pub proof fn lemma_moves_are_counted<N: Scalar>(
    p: Seq<Spanned<Command<N>>>,
    limits: Option<MachineLimits<N>>,
    n: int,
)
    ensures
        simulate(p, limits, n).stats.move_count == linear_moves(p, n),
    decreases n,
{
    if n > 0 {
        lemma_moves_are_counted(p, limits, n - 1);
    }
}

/// Whether none of the findings is an error.
pub open spec fn without_errors(found: Seq<Finding>) -> bool {
    forall|i: int| 0 <= i < found.len() ==> (#[trigger] found[i]).severity != Severity::Error
}

/// Whether `after` holds the findings of `before`, and behind them no error.
pub open spec fn adds_no_errors(before: Seq<Finding>, after: Seq<Finding>) -> bool {
    &&& extends(before, after)
    &&& forall|i: int|
        before.len() <= i < after.len() ==> (#[trigger] after[i]).severity != Severity::Error
}

/// Whether `after` begins with the findings of `before`.
pub open spec fn extends(before: Seq<Finding>, after: Seq<Finding>) -> bool {
    before.len() <= after.len() && after.take(before.len() as int) =~= before
}

proof fn lemma_ready_found<N: Scalar>(
    s: Simulated<N>,
    line: u32,
    dest: Point3D<N>,
    e: Option<N>,
    f: Option<N>,
    limits: Option<MachineLimits<N>>,
)
    ensures
        extends(s.found, s.with_feed(f).heading(line, dest, limits).extruded(line, e).found),
        limits is None ==> adds_no_errors(
            s.found,
            s.with_feed(f).heading(line, dest, limits).extruded(line, e).found,
        ),
{
}

proof fn lemma_straight_found<N: Scalar>(
    s: Simulated<N>,
    line: u32,
    x: Option<N>,
    y: Option<N>,
    z: Option<N>,
    e: Option<N>,
    f: Option<N>,
    climbs: bool,
    announced: bool,
    limits: Option<MachineLimits<N>>,
)
    ensures
        extends(s.found, s.after_straight(line, x, y, z, e, f, climbs, announced, limits).found),
        limits is None ==> adds_no_errors(
            s.found,
            s.after_straight(line, x, y, z, e, f, climbs, announced, limits).found,
        ),
{
    let dest = s.destination(x, y, z);
    lemma_ready_found(s, line, dest, e, f, limits);
    let ready = s.with_feed(f).heading(line, dest, limits).extruded(line, e);
    let raised = if climbs {
        ready.climbed(line, z, dest, announced)
    } else {
        ready
    };
    assert(raised.found == ready.found || raised.found == ready.found.push(
        layer_note(line, ready.last_z, dest.z),
    ));
    let way = length(vector(s.pos, dest));
    assert(raised.travelled(way).found == raised.found);
    assert(raised.travelled(way).counted().found == raised.found);
}

proof fn lemma_arc_found<N: Scalar>(
    s: Simulated<N>,
    line: u32,
    x: Option<N>,
    y: Option<N>,
    z: Option<N>,
    e: Option<N>,
    f: Option<N>,
    i: Option<N>,
    j: Option<N>,
    clockwise: bool,
    limits: Option<MachineLimits<N>>,
)
    ensures
        extends(s.found, s.after_arc(line, x, y, z, e, f, i, j, clockwise, limits).found),
        limits is None ==> adds_no_errors(
            s.found,
            s.after_arc(line, x, y, z, e, f, i, j, clockwise, limits).found,
        ),
{
    let dest = s.destination(x, y, z);
    lemma_ready_found(s, line, dest, e, f, limits);
    let ready = s.with_feed(f).heading(line, dest, limits).extruded(line, e);
    let arc = s.arc(dest, i, j, clockwise);
    let a = ready.travelled(arc.len_spec()).boxed(dest);
    assert(a.found == ready.found);
    let b = a.bulged(arc, 0, dest.z);
    assert(b.found == a.found);
    let c = b.bulged(arc, 1, dest.z);
    assert(c.found == b.found);
    let d = c.bulged(arc, 2, dest.z);
    assert(d.found == c.found);
    assert(d.bulged(arc, 3, dest.z).found == d.found);
}

proof fn lemma_command_found<N: Scalar>(
    s: Simulated<N>,
    spanned: Spanned<Command<N>>,
    announced: bool,
    limits: Option<MachineLimits<N>>,
)
    ensures
        extends(s.found, s.after(spanned, announced, limits).found),
        limits is None ==> adds_no_errors(s.found, s.after(spanned, announced, limits).found),
{
    let line = spanned.line;
    match spanned.inner {
        Command::RapidMove { x, y, z, f } => {
            lemma_straight_found(s, line, x, y, z, None, f, false, announced, limits);
        },
        Command::LinearMove { x, y, z, e, f } => {
            lemma_straight_found(s, line, x, y, z, e, f, true, announced, limits);
        },
        Command::ArcMoveCW { x, y, z, e, f, i, j } => {
            lemma_arc_found(s, line, x, y, z, e, f, i, j, true, limits);
        },
        Command::ArcMoveCCW { x, y, z, e, f, i, j } => {
            lemma_arc_found(s, line, x, y, z, e, f, i, j, false, limits);
        },
        _ => {
            assert(s.after(spanned, announced, limits).found == s.found);
        },
    }
}

proof fn lemma_no_limits_no_errors_before<N: Scalar>(p: Seq<Spanned<Command<N>>>, n: int)
    ensures
        without_errors(simulate(p, None::<MachineLimits<N>>, n).found),
    decreases n,
{
    if n > 0 {
        lemma_no_limits_no_errors_before(p, n - 1);
        let before = simulate(p, None::<MachineLimits<N>>, n - 1);
        let after = simulate(p, None::<MachineLimits<N>>, n);
        lemma_command_found(before, p[n - 1], announces_layers(p), None::<MachineLimits<N>>);
        assert forall|i: int| 0 <= i < after.found.len() implies (#[trigger] after.found[i]).severity
            != Severity::Error by {
            if i < before.found.len() {
                assert(after.found.take(before.found.len() as int)[i] == before.found[i]);
            }
        }
    }
}

/// Without limits, nothing is an error.
pub proof fn lemma_no_limits_no_errors<N: Scalar>(p: Seq<Spanned<Command<N>>>)
    ensures
        without_errors(analysis_findings(p, None::<MachineLimits<N>>)),
{
    lemma_no_limits_no_errors_before(p, p.len() as int);
}

/// What is found on the first commands stays found.
pub proof fn lemma_findings_accumulate<N: Scalar>(
    p: Seq<Spanned<Command<N>>>,
    limits: Option<MachineLimits<N>>,
    n: int,
    m: int,
)
    requires
        0 <= n <= m,
    ensures
        extends(simulate(p, limits, n).found, simulate(p, limits, m).found),
    decreases m,
{
    if n < m {
        lemma_findings_accumulate(p, limits, n, m - 1);
        lemma_command_found(
            simulate(p, limits, m - 1),
            p[m - 1],
            announces_layers(p),
            limits,
        );
        let a = simulate(p, limits, n).found;
        let b = simulate(p, limits, m - 1).found;
        let c = simulate(p, limits, m).found;
        assert(c.take(a.len() as int) =~= c.take(b.len() as int).take(a.len() as int));
    }
}

// ── What limits add ───────────────────────────────────────────────────────────

/// Whether a finding is an error about a coordinate beyond a limit.
pub open spec fn is_bounds_error(finding: Finding) -> bool {
    finding.severity == Severity::Error && (finding.code == "E001"@ || finding.code == "E002"@
        || finding.code == "E003"@)
}

/// Whether a finding is none about a coordinate beyond a limit.
pub open spec fn no_bounds_error() -> spec_fn(Finding) -> bool {
    |finding: Finding| !is_bounds_error(finding)
}

/// Whether two simulations agree in everything but the errors about limits, which
/// only the first can have.
pub open spec fn agree_but_for_limits<N>(a: Simulated<N>, b: Simulated<N>) -> bool {
    &&& Simulated { found: b.found, ..a } == b
    &&& a.found.filter(no_bounds_error()) == b.found
}

proof fn lemma_filter_of_push(found: Seq<Finding>, finding: Finding)
    requires
        !is_bounds_error(finding),
    ensures
        found.push(finding).filter(no_bounds_error()) == found.filter(no_bounds_error()).push(
            finding,
        ),
{
    reveal(Seq::filter);
    assert(found.push(finding).drop_last() =~= found);
}

proof fn lemma_filter_of_others(found: Seq<Finding>)
    requires
        without_errors(found),
    ensures
        found.filter(no_bounds_error()) == found,
    decreases found.len(),
{
    reveal(Seq::filter);
    if found.len() > 0 {
        let rest = found.drop_last();
        assert forall|i: int| 0 <= i < rest.len() implies (#[trigger] rest[i]).severity
            != Severity::Error by {
            assert(rest[i] == found[i]);
        }
        lemma_filter_of_others(rest);
        assert(found.last() == found[found.len() - 1]);
        assert(rest.push(found.last()) =~= found);
    }
}

proof fn lemma_heading_agrees<N: Scalar>(
    a: Simulated<N>,
    b: Simulated<N>,
    line: u32,
    dest: Point3D<N>,
    limits: Option<MachineLimits<N>>,
)
    requires
        agree_but_for_limits(a, b),
    ensures
        agree_but_for_limits(
            a.heading(line, dest, limits),
            b.heading(line, dest, None::<MachineLimits<N>>),
        ),
{
    let keep = no_bounds_error();
    let errors = bounds_errors(line, dest, limits);
    let warnings = destination_findings(line, dest, None::<MachineLimits<N>>);
    assert(errors.filter(keep).len() == 0) by {
        assert forall|i: int| 0 <= i < errors.len() implies !keep(#[trigger] errors[i]) by {
            assert(is_bounds_error(errors[i]));
        }
        errors.lemma_all_neg_filter_empty(keep);
    }
    assert(destination_findings(line, dest, limits) =~= warnings + errors);
    lemma_filter_of_others(warnings);
    Seq::filter_distributes_over_add(warnings, errors, keep);
    Seq::filter_distributes_over_add(a.found, warnings + errors, keep);
    assert(errors.filter(keep) =~= Seq::<Finding>::empty());
    assert((a.found + (warnings + errors)).filter(keep) =~= b.found + warnings);
}

proof fn lemma_ready_agrees<N: Scalar>(
    a: Simulated<N>,
    b: Simulated<N>,
    line: u32,
    dest: Point3D<N>,
    e: Option<N>,
    f: Option<N>,
    limits: Option<MachineLimits<N>>,
)
    requires
        agree_but_for_limits(a, b),
    ensures
        agree_but_for_limits(
            a.with_feed(f).heading(line, dest, limits).extruded(line, e),
            b.with_feed(f).heading(line, dest, None::<MachineLimits<N>>).extruded(line, e),
        ),
{
    lemma_heading_agrees(a.with_feed(f), b.with_feed(f), line, dest, limits);
    let headed = a.with_feed(f).heading(line, dest, limits);
    if let Some(raw) = e {
        let delta = if headed.is_absolute {
            raw.minus_spec(headed.extruder)
        } else {
            raw
        };
        lemma_filter_of_push(headed.found, retraction(line, delta));
    }
}

proof fn lemma_straight_agrees<N: Scalar>(
    a: Simulated<N>,
    b: Simulated<N>,
    line: u32,
    x: Option<N>,
    y: Option<N>,
    z: Option<N>,
    e: Option<N>,
    f: Option<N>,
    climbs: bool,
    announced: bool,
    limits: Option<MachineLimits<N>>,
)
    requires
        agree_but_for_limits(a, b),
    ensures
        agree_but_for_limits(
            a.after_straight(line, x, y, z, e, f, climbs, announced, limits),
            b.after_straight(line, x, y, z, e, f, climbs, announced, None::<MachineLimits<N>>),
        ),
{
    let dest = a.destination(x, y, z);
    assert(dest == b.destination(x, y, z));
    lemma_ready_agrees(a, b, line, dest, e, f, limits);
    let ready = a.with_feed(f).heading(line, dest, limits).extruded(line, e);
    let ready_b = b.with_feed(f).heading(line, dest, None::<MachineLimits<N>>).extruded(line, e);
    lemma_filter_of_push(ready.found, layer_note(line, ready.last_z, dest.z));
    let raised = if climbs {
        ready.climbed(line, z, dest, announced)
    } else {
        ready
    };
    let raised_b = if climbs {
        ready_b.climbed(line, z, dest, announced)
    } else {
        ready_b
    };
    assert(agree_but_for_limits(raised, raised_b));
    let way = length(vector(a.pos, dest));
    assert(agree_but_for_limits(raised.travelled(way), raised_b.travelled(way)));
    assert(agree_but_for_limits(
        raised.travelled(way).counted(),
        raised_b.travelled(way).counted(),
    ));
}

proof fn lemma_arc_agrees<N: Scalar>(
    a: Simulated<N>,
    b: Simulated<N>,
    line: u32,
    x: Option<N>,
    y: Option<N>,
    z: Option<N>,
    e: Option<N>,
    f: Option<N>,
    i: Option<N>,
    j: Option<N>,
    clockwise: bool,
    limits: Option<MachineLimits<N>>,
)
    requires
        agree_but_for_limits(a, b),
    ensures
        agree_but_for_limits(
            a.after_arc(line, x, y, z, e, f, i, j, clockwise, limits),
            b.after_arc(line, x, y, z, e, f, i, j, clockwise, None::<MachineLimits<N>>),
        ),
{
    let dest = a.destination(x, y, z);
    assert(dest == b.destination(x, y, z));
    lemma_ready_agrees(a, b, line, dest, e, f, limits);
    let ready = a.with_feed(f).heading(line, dest, limits).extruded(line, e);
    let ready_b = b.with_feed(f).heading(line, dest, None::<MachineLimits<N>>).extruded(line, e);
    let arc = a.arc(dest, i, j, clockwise);
    assert(arc == b.arc(dest, i, j, clockwise));
    let way = if i is None && j is None {
        length(vector(a.pos, dest))
    } else {
        arc.len_spec()
    };
    let c = ready.travelled(way).boxed(dest);
    let c_b = ready_b.travelled(way).boxed(dest);
    assert(agree_but_for_limits(ready.travelled(way), ready_b.travelled(way)));
    assert(agree_but_for_limits(c, c_b));
    assert(agree_but_for_limits(c.arrived(dest), c_b.arrived(dest)));
    let d = c.bulged(arc, 0, dest.z);
    let d_b = c_b.bulged(arc, 0, dest.z);
    assert(agree_but_for_limits(d, d_b));
    let g = d.bulged(arc, 1, dest.z);
    let g_b = d_b.bulged(arc, 1, dest.z);
    assert(agree_but_for_limits(g, g_b));
    let h = g.bulged(arc, 2, dest.z);
    let h_b = g_b.bulged(arc, 2, dest.z);
    assert(agree_but_for_limits(h, h_b));
    let k = h.bulged(arc, 3, dest.z);
    let k_b = h_b.bulged(arc, 3, dest.z);
    assert(agree_but_for_limits(k, k_b));
}

proof fn lemma_simulations_agree<N: Scalar>(
    p: Seq<Spanned<Command<N>>>,
    limits: Option<MachineLimits<N>>,
    n: int,
)
    ensures
        agree_but_for_limits(
            simulate(p, limits, n),
            simulate(p, None::<MachineLimits<N>>, n),
        ),
    decreases n,
{
    if n > 0 {
        lemma_simulations_agree(p, limits, n - 1);
        let a = simulate(p, limits, n - 1);
        let b = simulate(p, None::<MachineLimits<N>>, n - 1);
        let announced = announces_layers(p);
        let line = p[n - 1].line;
        match p[n - 1].inner {
            Command::RapidMove { x, y, z, f } => {
                lemma_straight_agrees(a, b, line, x, y, z, None, f, false, announced, limits);
            },
            Command::LinearMove { x, y, z, e, f } => {
                lemma_straight_agrees(a, b, line, x, y, z, e, f, true, announced, limits);
            },
            Command::ArcMoveCW { x, y, z, e, f, i, j } => {
                lemma_arc_agrees(a, b, line, x, y, z, e, f, i, j, true, limits);
            },
            Command::ArcMoveCCW { x, y, z, e, f, i, j } => {
                lemma_arc_agrees(a, b, line, x, y, z, e, f, i, j, false, limits);
            },
            _ => {},
        }
    } else {
        reveal(Seq::filter);
        assert(simulate(p, limits, n).found.filter(no_bounds_error()) =~= simulate(
            p,
            None::<MachineLimits<N>>,
            n,
        ).found);
    }
}

/// Limits change nothing but what they are for: an analysis with limits has the
/// statistics of one without, and finds the same, in the same order, once the
/// errors `E001`, `E002` and `E003` are left out.
pub proof fn lemma_limits_only_add_errors<N: Scalar>(
    p: Seq<Spanned<Command<N>>>,
    limits: Option<MachineLimits<N>>,
)
    ensures
        simulation(p, limits).stats == simulation(p, None::<MachineLimits<N>>).stats,
        analysis_findings(p, limits).filter(no_bounds_error()) == analysis_findings(
            p,
            None::<MachineLimits<N>>,
        ),
{
    let a = simulation(p, limits);
    let b = simulation(p, None::<MachineLimits<N>>);
    lemma_simulations_agree(p, limits, p.len() as int);
    let notes = tower_notes(p, a.steps);
    lemma_filter_of_others(notes);
    Seq::filter_distributes_over_add(a.found, notes, no_bounds_error());
}

} // verus!
