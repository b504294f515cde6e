//! Where commands lead, told axis by axis.
//!
//! The optimizer, the analysis and arc fitting each track the machine.  The laws here
//! say what every command does to what they track, from the words of the command
//! alone, and that they all agree.

use vstd::prelude::*;

use crate::analyzer::{simulate, Simulated};
use crate::arc_fitter::fit_state;
use crate::models::{Command, MachineLimits, Spanned};
use crate::optimizer::progress::announces_layers;
use crate::optimizer::{has_relative, state_at, Tracker};
use crate::scalar::Scalar;

verus! {

// ── Setting positions ─────────────────────────────────────────────────────────

/// A G92 sets each axis that it names to the value that it names, and no other.  The
/// optimizer and the analysis agree on that.
pub proof fn lemma_g92_sets_what_it_names<N: Scalar>(
    p: Seq<Spanned<Command<N>>>,
    limits: Option<MachineLimits<N>>,
    n: int,
    x: Option<N>,
    y: Option<N>,
    z: Option<N>,
    e: Option<N>,
)
    requires
        0 <= n < p.len(),
        p[n].inner == (Command::SetPosition { x, y, z, e }),
        x is Some || y is Some || z is Some || e is Some,
    ensures
        ({
            let s = state_at(p, n);
            let t = state_at(p, n + 1);
            &&& t.x == (match x {
                Some(v) => v,
                None => s.x,
            })
            &&& t.y == (match y {
                Some(v) => v,
                None => s.y,
            })
            &&& t.z == (match z {
                Some(v) => v,
                None => s.z,
            })
            &&& t.e == (match e {
                Some(v) => v,
                None => s.e,
            })
            &&& t == (Tracker { x: t.x, y: t.y, z: t.z, e: t.e, ..s })
        }),
        ({
            let s = simulate(p, limits, n);
            let t = simulate(p, limits, n + 1);
            &&& t.pos.x == (match x {
                Some(v) => v,
                None => s.pos.x,
            })
            &&& t.pos.y == (match y {
                Some(v) => v,
                None => s.pos.y,
            })
            &&& t.pos.z == (match z {
                Some(v) => v,
                None => s.pos.z,
            })
            &&& t.extruder == (match e {
                Some(v) => v,
                None => s.extruder,
            })
            &&& t == (Simulated { pos: t.pos, extruder: t.extruder, ..s })
        }),
{
}

/// A G92 that names no axis sets all of them to zero.
pub proof fn lemma_bare_g92_resets<N: Scalar>(
    p: Seq<Spanned<Command<N>>>,
    limits: Option<MachineLimits<N>>,
    n: int,
)
    requires
        0 <= n < p.len(),
        p[n].inner == (Command::<N>::SetPosition { x: None, y: None, z: None, e: None }),
    ensures
        ({
            let s = state_at(p, n);
            let t = state_at(p, n + 1);
            let zero = N::of_spec(0);
            t == (Tracker { x: zero, y: zero, z: zero, e: zero, ..s })
        }),
        ({
            let s = simulate(p, limits, n);
            let t = simulate(p, limits, n + 1);
            let zero = N::of_spec(0);
            &&& t.pos.x == zero && t.pos.y == zero && t.pos.z == zero && t.extruder == zero
            &&& t == (Simulated { pos: t.pos, extruder: t.extruder, ..s })
        }),
{
}

// ── Moving ────────────────────────────────────────────────────────────────────

/// The words of a move.
pub struct MoveWords<N> {
    pub x: Option<N>,
    pub y: Option<N>,
    pub z: Option<N>,
    pub e: Option<N>,
    pub f: Option<N>,
}

/// The words of a command, where it is G0, G1, G2 or G3.
pub open spec fn words_of_move<N>(command: Command<N>) -> Option<MoveWords<N>> {
    match command {
        Command::RapidMove { x, y, z, f } => Some(MoveWords { x, y, z, e: None, f }),
        Command::LinearMove { x, y, z, e, f } => Some(MoveWords { x, y, z, e, f }),
        Command::ArcMoveCW { x, y, z, e, f, i: _, j: _ } => Some(MoveWords { x, y, z, e, f }),
        Command::ArcMoveCCW { x, y, z, e, f, i: _, j: _ } => Some(MoveWords { x, y, z, e, f }),
        _ => None,
    }
}

/// Whether a coordinate is led from `before` to `after` by a move that names `word`: in
/// absolute positioning to the word, in relative positioning on by the word, and
/// nowhere if there is none.
pub open spec fn is_led<N: Scalar>(
    before: N,
    word: Option<N>,
    after: N,
    absolute: bool,
) -> bool {
    match word {
        Some(v) => if absolute {
            after == v
        } else {
            after == before.plus_spec(v)
        },
        None => if absolute {
            after == before
        } else {
            after == before.plus_spec(N::of_spec(0))
        },
    }
}

/// A move leads each axis where its words say, and sets the feedrate that it names.
pub proof fn lemma_moves_lead_where_they_say<N: Scalar>(
    p: Seq<Spanned<Command<N>>>,
    n: int,
)
    requires
        0 <= n < p.len(),
        words_of_move(p[n].inner) is Some,
    ensures
        ({
            let s = state_at(p, n);
            let t = state_at(p, n + 1);
            let w = words_of_move(p[n].inner)->0;
            &&& is_led(s.x, w.x, t.x, s.is_absolute)
            &&& is_led(s.y, w.y, t.y, s.is_absolute)
            &&& is_led(s.z, w.z, t.z, s.is_absolute)
            &&& is_led(s.e, w.e, t.e, s.is_absolute)
            &&& t.feedrate == (match w.f {
                Some(f) => Some(f),
                None => s.feedrate,
            })
            &&& t == (Tracker { x: t.x, y: t.y, z: t.z, e: t.e, feedrate: t.feedrate, ..s })
        }),
{
}

proof fn lemma_straight_leads<N: Scalar>(
    s: Simulated<N>,
    line: u32,
    w: MoveWords<N>,
    climbs: bool,
    announced: bool,
    limits: Option<MachineLimits<N>>,
)
    ensures
        ({
            let t = s.after_straight(line, w.x, w.y, w.z, w.e, w.f, climbs, announced, limits);
            &&& is_led(s.pos.x, w.x, t.pos.x, s.is_absolute)
            &&& is_led(s.pos.y, w.y, t.pos.y, s.is_absolute)
            &&& is_led(s.pos.z, w.z, t.pos.z, s.is_absolute)
            &&& w.e is Some ==> is_led(s.extruder, w.e, t.extruder, s.is_absolute)
            &&& w.e is None ==> t.extruder == s.extruder
            &&& t.feedrate == (match w.f {
                Some(f) => f,
                None => s.feedrate,
            })
            &&& t.is_absolute == s.is_absolute
            &&& t.steps == s.steps
        }),
{
    let dest = s.destination(w.x, w.y, w.z);
    let ready = s.with_feed(w.f).heading(line, dest, limits).extruded(line, w.e);
    let raised = if climbs {
        ready.climbed(line, w.z, dest, announced)
    } else {
        ready
    };
    let t = s.after_straight(line, w.x, w.y, w.z, w.e, w.f, climbs, announced, limits);
    assert(t.extruder == raised.extruder && raised.extruder == ready.extruder);
    assert(t.feedrate == raised.feedrate && raised.feedrate == ready.feedrate);
    assert(t.is_absolute == raised.is_absolute && raised.is_absolute == ready.is_absolute);
    assert(t.steps == raised.steps && raised.steps == ready.steps);
}

proof fn lemma_arc_leads<N: Scalar>(
    s: Simulated<N>,
    line: u32,
    w: MoveWords<N>,
    i: Option<N>,
    j: Option<N>,
    clockwise: bool,
    limits: Option<MachineLimits<N>>,
)
    ensures
        ({
            let t = s.after_arc(line, w.x, w.y, w.z, w.e, w.f, i, j, clockwise, limits);
            &&& is_led(s.pos.x, w.x, t.pos.x, s.is_absolute)
            &&& is_led(s.pos.y, w.y, t.pos.y, s.is_absolute)
            &&& is_led(s.pos.z, w.z, t.pos.z, s.is_absolute)
            &&& w.e is Some ==> is_led(s.extruder, w.e, t.extruder, s.is_absolute)
            &&& w.e is None ==> t.extruder == s.extruder
            &&& t.feedrate == (match w.f {
                Some(f) => f,
                None => s.feedrate,
            })
            &&& t.is_absolute == s.is_absolute
            &&& t.steps == s.steps
        }),
{
    let dest = s.destination(w.x, w.y, w.z);
    let ready = s.with_feed(w.f).heading(line, dest, limits).extruded(line, w.e);
    let arc = s.arc(dest, i, j, clockwise);
    let a = ready.travelled(arc.len_spec()).boxed(dest);
    let b = a.bulged(arc, 0, dest.z);
    let c = b.bulged(arc, 1, dest.z);
    let d = c.bulged(arc, 2, dest.z);
    let g = d.bulged(arc, 3, dest.z);
    assert(Simulated { stats: ready.stats, ..a } == ready);
    assert(Simulated { stats: ready.stats, ..b } == ready);
    assert(Simulated { stats: ready.stats, ..c } == ready);
    assert(Simulated { stats: ready.stats, ..d } == ready);
    assert(Simulated { stats: ready.stats, ..g } == ready);
}

/// The analysis leads the head and the extruder where the words of a move say.
pub proof fn lemma_analysis_follows_the_words<N: Scalar>(
    p: Seq<Spanned<Command<N>>>,
    limits: Option<MachineLimits<N>>,
    n: int,
)
    requires
        0 <= n < p.len(),
        words_of_move(p[n].inner) is Some,
    ensures
        ({
            let s = simulate(p, limits, n);
            let t = simulate(p, limits, n + 1);
            let w = words_of_move(p[n].inner)->0;
            &&& is_led(s.pos.x, w.x, t.pos.x, s.is_absolute)
            &&& is_led(s.pos.y, w.y, t.pos.y, s.is_absolute)
            &&& is_led(s.pos.z, w.z, t.pos.z, s.is_absolute)
            &&& w.e is Some ==> is_led(s.extruder, w.e, t.extruder, s.is_absolute)
            &&& w.e is None ==> t.extruder == s.extruder
            &&& t.feedrate == (match w.f {
                Some(f) => f,
                None => s.feedrate,
            })
            &&& t.is_absolute == s.is_absolute
            &&& t.steps == s.steps
        }),
{
    let s = simulate(p, limits, n);
    let w = words_of_move(p[n].inner)->0;
    let announced = announces_layers(p);
    match p[n].inner {
        Command::RapidMove { .. } => {
            lemma_straight_leads(s, p[n].line, w, false, announced, limits);
        },
        Command::LinearMove { .. } => {
            lemma_straight_leads(s, p[n].line, w, true, announced, limits);
        },
        Command::ArcMoveCW { i, j, .. } => {
            lemma_arc_leads(s, p[n].line, w, i, j, true, limits);
        },
        Command::ArcMoveCCW { i, j, .. } => {
            lemma_arc_leads(s, p[n].line, w, i, j, false, limits);
        },
        _ => {},
    }
}

// ── Switching ─────────────────────────────────────────────────────────────────

/// G90 and G91 switch between absolute and relative positioning, and nothing else.
pub proof fn lemma_modes_are_switched<N: Scalar>(
    p: Seq<Spanned<Command<N>>>,
    limits: Option<MachineLimits<N>>,
    n: int,
)
    requires
        0 <= n < p.len(),
        p[n].inner is SetAbsolute || p[n].inner is SetRelative,
    ensures
        state_at(p, n + 1) == (Tracker {
            is_absolute: p[n].inner is SetAbsolute,
            last_mode: Some(p[n].inner is SetAbsolute),
            ..state_at(p, n)
        }),
        simulate(p, limits, n + 1) == (Simulated {
            is_absolute: p[n].inner is SetAbsolute,
            ..simulate(p, limits, n)
        }),
{
}

/// Other G-codes and unknown lines change nothing at all; M-codes and comments move
/// nothing and switch no mode.
pub proof fn lemma_other_commands_move_nothing<N: Scalar>(
    p: Seq<Spanned<Command<N>>>,
    limits: Option<MachineLimits<N>>,
    n: int,
)
    requires
        0 <= n < p.len(),
        p[n].inner is GCommand || p[n].inner is Unknown || p[n].inner is Comment || p[n].inner
            is MetaCommand,
    ensures
        ({
            let s = state_at(p, n);
            let t = state_at(p, n + 1);
            t == (Tracker { fan: t.fan, hotend: t.hotend, bed: t.bed, ..s })
        }),
        !(p[n].inner is MetaCommand) ==> state_at(p, n + 1) == state_at(p, n),
        ({
            let s = simulate(p, limits, n);
            let t = simulate(p, limits, n + 1);
            t == (Simulated { steps: t.steps, stats: t.stats, ..s })
        }),
        p[n].inner is GCommand || p[n].inner is Unknown ==> simulate(p, limits, n + 1) == simulate(
            p,
            limits,
            n,
        ),
{
}

/// Before the first command the head and the extruder are at zero, in absolute
/// positioning; no feedrate is known, and the analysis takes 1500 mm/min for one.
pub proof fn lemma_everything_starts_at_zero<N: Scalar>(
    p: Seq<Spanned<Command<N>>>,
    limits: Option<MachineLimits<N>>,
)
    ensures
        ({
            let s = state_at(p, 0);
            let zero = N::of_spec(0);
            &&& s.x == zero && s.y == zero && s.z == zero && s.e == zero
            &&& s.is_absolute && s.feedrate is None && s.last_mode is None
            &&& s.fan is None && s.hotend is None && s.bed is None
        }),
        ({
            let s = simulate(p, limits, 0);
            let zero = N::of_spec(0);
            &&& s.pos.x == zero && s.pos.y == zero && s.pos.z == zero && s.extruder == zero
            &&& s.is_absolute && s.feedrate == N::of_spec(1_500) && s.last_z == zero
            &&& s.found.len() == 0 && s.steps.len() == 0
        }),
{
}

// ── Agreement ─────────────────────────────────────────────────────────────────

/// The optimizer and the analysis have the head at the same place at every command, and
/// the same mode.
pub proof fn lemma_trackers_agree<N: Scalar>(
    p: Seq<Spanned<Command<N>>>,
    limits: Option<MachineLimits<N>>,
    n: int,
)
    requires
        0 <= n <= p.len(),
    ensures
        ({
            let s = state_at(p, n);
            let t = simulate(p, limits, n);
            &&& t.pos.x == s.x && t.pos.y == s.y && t.pos.z == s.z
            &&& t.is_absolute == s.is_absolute
            &&& s.feedrate matches Some(f) ==> t.feedrate == f
        }),
    decreases n,
{
    if n > 0 {
        lemma_trackers_agree(p, limits, n - 1);
        if words_of_move(p[n - 1].inner) is Some {
            lemma_analysis_follows_the_words(p, limits, n - 1);
            lemma_moves_lead_where_they_say(p, n - 1);
        }
    }
}

/// Arc fitting has the head where the optimizer has it, and the same feedrate in force.
pub proof fn lemma_arc_fitting_agrees<N: Scalar>(
    p: Seq<Spanned<Command<N>>>,
    tolerance: N,
    n: int,
)
    requires
        0 <= n <= p.len(),
        !has_relative(p),
    ensures
        state_at(p, n).is_absolute,
        fit_state(p, tolerance, n).x == state_at(p, n).x,
        fit_state(p, tolerance, n).y == state_at(p, n).y,
        fit_state(p, tolerance, n).e == state_at(p, n).e,
        fit_state(p, tolerance, n).feed == state_at(p, n).feedrate,
    decreases n,
{
    if n > 0 {
        lemma_arc_fitting_agrees(p, tolerance, n - 1);
        assert(!(p[n - 1].inner is SetRelative));
    }
}

} // verus!
