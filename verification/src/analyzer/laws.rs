//! What an analysis finds and counts, told from the moves alone.

use vstd::prelude::*;

use crate::analyzer::{
    axis_errors, bounds_errors, destination_findings, extends, is_negative, layer_note,
    negative_warning, retraction, simulate, Simulated,
};
use crate::diagnostics::{Finding, Severity};
use crate::models::{Command, MachineLimits, Point3D, Spanned};
use crate::motion::{words_of_move, MoveWords};
use crate::optimizer::progress::announces_layers;
use crate::scalar::Scalar;

verus! {

// ── Findings ──────────────────────────────────────────────────────────────────

/// Whether one of the findings from `from` on has the given code and severity.
pub open spec fn has_finding(
    found: Seq<Finding>,
    from: int,
    code: Seq<char>,
    severity: Severity,
) -> bool {
    exists|i: int|
        from <= i < found.len() && (#[trigger] found[i]).code == code && found[i].severity
            == severity
}

/// Whether one of the findings from `from` on has the given code.
pub open spec fn has_code(found: Seq<Finding>, from: int, code: Seq<char>) -> bool {
    exists|i: int| from <= i < found.len() && (#[trigger] found[i]).code == code
}

proof fn lemma_codes_differ()
    ensures
        "E001"@ != "E002"@,
        "E001"@ != "E003"@,
        "E002"@ != "E003"@,
        "W001"@ != "E001"@,
        "W001"@ != "E002"@,
        "W001"@ != "E003"@,
        "W002"@ != "E001"@,
        "W002"@ != "E002"@,
        "W002"@ != "E003"@,
        "W002"@ != "W001"@,
        "I001"@ != "E001"@,
        "I001"@ != "E002"@,
        "I001"@ != "E003"@,
        "I001"@ != "W001"@,
        "I001"@ != "W002"@,
{
    reveal_strlit("E001");
    reveal_strlit("E002");
    reveal_strlit("E003");
    reveal_strlit("W001");
    reveal_strlit("W002");
    reveal_strlit("I001");
    assert("E001"@[3] == '1' && "E002"@[3] == '2' && "E003"@[3] == '3');
    assert("E001"@[0] == 'E' && "E002"@[0] == 'E' && "E003"@[0] == 'E');
    assert("W001"@[0] == 'W' && "W002"@[0] == 'W' && "I001"@[0] == 'I');
    assert("W001"@[3] == '1' && "W002"@[3] == '2');
}

/// What a move adds to the findings, part by part.
proof fn lemma_straight_adds<N: Scalar>(
    s: Simulated<N>,
    line: u32,
    w: MoveWords<N>,
    climbs: bool,
    announced: bool,
    limits: Option<MachineLimits<N>>,
)
    ensures
        ({
            let t = s.after_straight(line, w.x, w.y, w.z, w.e, w.f, climbs, announced, limits);
            let delta = if s.is_absolute {
                (w.e->0).minus_spec(s.extruder)
            } else {
                w.e->0
            };
            let drawn = w.e is Some && !N::of_spec(0).at_most_spec(delta);
            let raised = climbs && !announced && w.z is Some && s.last_z.less_spec(t.pos.z);
            &&& t.found == s.found + destination_findings(line, t.pos, limits) + (if drawn {
                seq![retraction(line, delta)]
            } else {
                Seq::empty()
            }) + (if raised {
                seq![layer_note(line, s.last_z, t.pos.z)]
            } else {
                Seq::empty()
            })
            &&& t.last_z == if raised {
                t.pos.z
            } else {
                s.last_z
            }
            &&& t.stats.layer_count == if raised {
                s.stats.layer_count + 1
            } else {
                s.stats.layer_count
            }
        }),
{
    let dest = s.destination(w.x, w.y, w.z);
    let headed = s.with_feed(w.f).heading(line, dest, limits);
    let ready = headed.extruded(line, w.e);
    let raised = if climbs {
        ready.climbed(line, w.z, dest, announced)
    } else {
        ready
    };
    let t = s.after_straight(line, w.x, w.y, w.z, w.e, w.f, climbs, announced, limits);
    assert(t.pos == dest);
    assert(headed.found == s.found + destination_findings(line, dest, limits));
    assert(ready.last_z == s.last_z);
    assert(ready.stats.layer_count == s.stats.layer_count);
    assert(t.found == raised.found);
    assert(t.last_z == raised.last_z);
    assert(t.stats.layer_count == raised.stats.layer_count);
    let delta = if s.is_absolute {
        (w.e->0).minus_spec(s.extruder)
    } else {
        w.e->0
    };
    let drawn = w.e is Some && !N::of_spec(0).at_most_spec(delta);
    let up = climbs && !announced && w.z is Some && s.last_z.less_spec(dest.z);
    assert(t.found =~= s.found + destination_findings(line, t.pos, limits) + (if drawn {
        seq![retraction(line, delta)]
    } else {
        Seq::empty()
    }) + (if up {
        seq![layer_note(line, s.last_z, t.pos.z)]
    } else {
        Seq::empty()
    }));
}

proof fn lemma_arc_adds<N: Scalar>(
    s: Simulated<N>,
    line: u32,
    w: MoveWords<N>,
    i: Option<N>,
    j: Option<N>,
    clockwise: bool,
    limits: Option<MachineLimits<N>>,
)
    ensures
        ({
            let t = s.after_arc(line, w.x, w.y, w.z, w.e, w.f, i, j, clockwise, limits);
            let delta = if s.is_absolute {
                (w.e->0).minus_spec(s.extruder)
            } else {
                w.e->0
            };
            let drawn = w.e is Some && !N::of_spec(0).at_most_spec(delta);
            &&& t.found == s.found + destination_findings(line, t.pos, limits) + (if drawn {
                seq![retraction(line, delta)]
            } else {
                Seq::empty()
            })
            &&& t.last_z == s.last_z
            &&& t.stats.layer_count == s.stats.layer_count
        }),
{
    let dest = s.destination(w.x, w.y, w.z);
    let headed = s.with_feed(w.f).heading(line, dest, limits);
    let ready = headed.extruded(line, w.e);
    let arc = s.arc(dest, i, j, clockwise);
    let a = ready.travelled(arc.len_spec()).boxed(dest);
    let b = a.bulged(arc, 0, dest.z);
    let c = b.bulged(arc, 1, dest.z);
    let d = c.bulged(arc, 2, dest.z);
    let g = d.bulged(arc, 3, dest.z);
    assert(a.found == ready.found && a.last_z == ready.last_z && a.stats.layer_count
        == ready.stats.layer_count);
    assert(b.found == a.found && b.last_z == a.last_z && b.stats.layer_count
        == a.stats.layer_count);
    assert(c.found == b.found && c.last_z == b.last_z && c.stats.layer_count
        == b.stats.layer_count);
    assert(d.found == c.found && d.last_z == c.last_z && d.stats.layer_count
        == c.stats.layer_count);
    assert(g.found == d.found && g.last_z == d.last_z && g.stats.layer_count
        == d.stats.layer_count);
    let t = s.after_arc(line, w.x, w.y, w.z, w.e, w.f, i, j, clockwise, limits);
    let delta = if s.is_absolute {
        (w.e->0).minus_spec(s.extruder)
    } else {
        w.e->0
    };
    let drawn = w.e is Some && !N::of_spec(0).at_most_spec(delta);
    assert(t.found == ready.found);
    assert(t.found =~= s.found + destination_findings(line, t.pos, limits) + (if drawn {
        seq![retraction(line, delta)]
    } else {
        Seq::empty()
    }));
}

/// How far a move pushes the extruder: in absolute positioning from where it stands to
/// the position named, in relative positioning by the length named.
pub open spec fn push_of<N: Scalar>(s: Simulated<N>, e: N) -> N {
    if s.is_absolute {
        e.minus_spec(s.extruder)
    } else {
        e
    }
}

/// Whether the G1 at `n` begins a layer: layers are not announced, and it names Z and
/// leads above the height of the layer before.
pub open spec fn begins_layer<N: Scalar>(
    p: Seq<Spanned<Command<N>>>,
    limits: Option<MachineLimits<N>>,
    n: int,
) -> bool {
    &&& !announces_layers(p)
    &&& p[n].inner matches Command::LinearMove { z, .. } && z is Some
    &&& simulate(p, limits, n).last_z.less_spec(simulate(p, limits, n + 1).pos.z)
}

/// Each move is held to the limits, axis by axis: it adds an error E001 exactly if it
/// leads beyond the limit of X, E002 exactly if it leads beyond that of Y, and E003
/// exactly if it leads beyond that of Z.  It adds a warning W001 exactly if it leads to
/// a negative coordinate, W002 exactly if it draws filament back, as a warning from
/// 2 mm on, and I001 exactly if it begins a layer.  All have the line of the move.
pub proof fn lemma_findings_of_a_move<N: Scalar>(
    p: Seq<Spanned<Command<N>>>,
    limits: Option<MachineLimits<N>>,
    n: int,
)
    requires
        0 <= n < p.len(),
        words_of_move(p[n].inner) is Some,
    ensures
        ({
            let s = simulate(p, limits, n);
            let t = simulate(p, limits, n + 1);
            let w = words_of_move(p[n].inner)->0;
            let old = s.found.len() as int;
            let zero = N::of_spec(0);
            &&& extends(s.found, t.found)
            &&& forall|i: int| old <= i < t.found.len() ==> (#[trigger] t.found[i]).line
                == p[n].line
            &&& has_finding(t.found, old, "E001"@, Severity::Error) <==> (limits matches Some(lim)
                && lim.max_x.less_spec(t.pos.x))
            &&& has_finding(t.found, old, "E002"@, Severity::Error) <==> (limits matches Some(lim)
                && lim.max_y.less_spec(t.pos.y))
            &&& has_finding(t.found, old, "E003"@, Severity::Error) <==> (limits matches Some(lim)
                && lim.max_z.less_spec(t.pos.z))
            &&& has_finding(t.found, old, "W001"@, Severity::Warning) <==> (t.pos.x.less_spec(zero)
                || t.pos.y.less_spec(zero) || t.pos.z.less_spec(zero))
            &&& has_finding(t.found, old, "W002"@, Severity::Warning) <==> (w.e matches Some(e)
                && !zero.at_most_spec(push_of(s, e)) && !N::of_spec((-2) as i64).less_spec(
                push_of(s, e),
            ))
            &&& has_finding(t.found, old, "W002"@, Severity::Info) <==> (w.e matches Some(e)
                && !zero.at_most_spec(push_of(s, e)) && N::of_spec((-2) as i64).less_spec(
                push_of(s, e),
            ))
            &&& has_finding(t.found, old, "I001"@, Severity::Info) <==> begins_layer(p, limits, n)
        }),
{
    let s = simulate(p, limits, n);
    let t = simulate(p, limits, n + 1);
    let w = words_of_move(p[n].inner)->0;
    lemma_move_adds(p, limits, n);
    let push = match w.e {
        Some(e) => Some(push_of(s, e)),
        None => None,
    };
    lemma_added(
        s.found,
        p[n].line,
        t.pos,
        limits,
        push,
        begins_layer(p, limits, n),
        layer_note(p[n].line, s.last_z, t.pos.z),
    );
}

/// The finding about a retraction, if there is one.
spec fn drawn_back<N: Scalar>(line: u32, push: Option<N>) -> Seq<Finding> {
    match push {
        Some(delta) => if N::of_spec(0).at_most_spec(delta) {
            Seq::empty()
        } else {
            seq![retraction(line, delta)]
        },
        None => Seq::empty(),
    }
}

/// The note, if there is one.
spec fn noted(is_noted: bool, note: Finding) -> Seq<Finding> {
    if is_noted {
        seq![note]
    } else {
        Seq::empty()
    }
}

proof fn lemma_move_adds<N: Scalar>(
    p: Seq<Spanned<Command<N>>>,
    limits: Option<MachineLimits<N>>,
    n: int,
)
    requires
        0 <= n < p.len(),
        words_of_move(p[n].inner) is Some,
    ensures
        ({
            let s = simulate(p, limits, n);
            let t = simulate(p, limits, n + 1);
            let w = words_of_move(p[n].inner)->0;
            let push = match w.e {
                Some(e) => Some(push_of(s, e)),
                None => None,
            };
            t.found == s.found + destination_findings(p[n].line, t.pos, limits) + drawn_back(
                p[n].line,
                push,
            ) + noted(begins_layer(p, limits, n), layer_note(p[n].line, s.last_z, t.pos.z))
        }),
{
    let s = simulate(p, limits, n);
    let t = simulate(p, limits, n + 1);
    let w = words_of_move(p[n].inner)->0;
    let line = p[n].line;
    let announced = announces_layers(p);
    match p[n].inner {
        Command::RapidMove { .. } => {
            lemma_straight_adds(s, line, w, false, announced, limits);
        },
        Command::LinearMove { .. } => {
            lemma_straight_adds(s, line, w, true, announced, limits);
        },
        Command::ArcMoveCW { i, j, .. } => {
            lemma_arc_adds(s, line, w, i, j, true, limits);
        },
        Command::ArcMoveCCW { i, j, .. } => {
            lemma_arc_adds(s, line, w, i, j, false, limits);
        },
        _ => {},
    }
    let push = match w.e {
        Some(e) => Some(push_of(s, e)),
        None => None,
    };
    assert(t.found =~= s.found + destination_findings(line, t.pos, limits) + drawn_back(line, push)
        + noted(begins_layer(p, limits, n), layer_note(line, s.last_z, t.pos.z)));
}

proof fn lemma_added<N: Scalar>(
    before: Seq<Finding>,
    line: u32,
    dest: Point3D<N>,
    limits: Option<MachineLimits<N>>,
    push: Option<N>,
    is_noted: bool,
    note: Finding,
)
    requires
        note.line == line,
        note.code == "I001"@,
        note.severity == Severity::Info,
    ensures
        ({
            let found = before + destination_findings(line, dest, limits) + drawn_back(line, push)
                + noted(is_noted, note);
            let old = before.len() as int;
            let zero = N::of_spec(0);
            &&& extends(before, found)
            &&& forall|i: int| old <= i < found.len() ==> (#[trigger] found[i]).line == line
            &&& has_finding(found, old, "E001"@, Severity::Error) <==> (limits matches Some(lim)
                && lim.max_x.less_spec(dest.x))
            &&& has_finding(found, old, "E002"@, Severity::Error) <==> (limits matches Some(lim)
                && lim.max_y.less_spec(dest.y))
            &&& has_finding(found, old, "E003"@, Severity::Error) <==> (limits matches Some(lim)
                && lim.max_z.less_spec(dest.z))
            &&& has_finding(found, old, "W001"@, Severity::Warning) <==> (dest.x.less_spec(zero)
                || dest.y.less_spec(zero) || dest.z.less_spec(zero))
            &&& has_finding(found, old, "W002"@, Severity::Warning) <==> (push matches Some(delta)
                && !zero.at_most_spec(delta) && !N::of_spec((-2) as i64).less_spec(delta))
            &&& has_finding(found, old, "W002"@, Severity::Info) <==> (push matches Some(delta)
                && !zero.at_most_spec(delta) && N::of_spec((-2) as i64).less_spec(delta))
            &&& has_finding(found, old, "I001"@, Severity::Info) <==> is_noted
        }),
{
    let first = destination_findings(line, dest, limits);
    let second = drawn_back(line, push);
    let third = noted(is_noted, note);
    let found = before + first + second + third;
    let old = before.len() as int;
    lemma_codes_differ();
    lemma_destination(line, dest, limits);
    lemma_parts(before, first, second, third, "E001"@, Severity::Error);
    lemma_parts(before, first, second, third, "E002"@, Severity::Error);
    lemma_parts(before, first, second, third, "E003"@, Severity::Error);
    lemma_parts(before, first, second, third, "W001"@, Severity::Warning);
    lemma_parts(before, first, second, third, "W002"@, Severity::Warning);
    lemma_parts(before, first, second, third, "W002"@, Severity::Info);
    lemma_parts(before, first, second, third, "I001"@, Severity::Info);
    assert forall|i: int| old <= i < found.len() implies (#[trigger] found[i]).line == line by {
        if i < old + first.len() {
            assert(found[i] == first[i - old]);
        } else if i < old + first.len() + second.len() {
            assert(found[i] == second[i - old - first.len()]);
        } else {
            assert(found[i] == third[i - old - first.len() - second.len()]);
        }
    }
    assert(found.take(old) =~= before);
    if second.len() > 0 {
        assert(second[0] == retraction(line, push->0));
    }
    if third.len() > 0 {
        assert(third[0] == note);
    }
}

/// A finding is among the new ones exactly if it is in one of their parts.
proof fn lemma_parts(
    before: Seq<Finding>,
    first: Seq<Finding>,
    second: Seq<Finding>,
    third: Seq<Finding>,
    code: Seq<char>,
    severity: Severity,
)
    ensures
        has_finding(before + first + second + third, before.len() as int, code, severity) == (
        has_finding(first, 0, code, severity) || has_finding(second, 0, code, severity)
            || has_finding(third, 0, code, severity)),
{
    let all = before + first + second + third;
    let a = before.len() as int;
    let b = a + first.len();
    let c = b + second.len();
    if has_finding(all, a, code, severity) {
        let i = choose|i: int|
            a <= i < all.len() && (#[trigger] all[i]).code == code && all[i].severity == severity;
        if i < b {
            assert(all[i] == first[i - a]);
        } else if i < c {
            assert(all[i] == second[i - b]);
        } else {
            assert(all[i] == third[i - c]);
        }
    }
    if has_finding(first, 0, code, severity) {
        let i = choose|i: int|
            0 <= i < first.len() && (#[trigger] first[i]).code == code && first[i].severity
                == severity;
        assert(all[a + i] == first[i]);
    }
    if has_finding(second, 0, code, severity) {
        let i = choose|i: int|
            0 <= i < second.len() && (#[trigger] second[i]).code == code && second[i].severity
                == severity;
        assert(all[b + i] == second[i]);
    }
    if has_finding(third, 0, code, severity) {
        let i = choose|i: int|
            0 <= i < third.len() && (#[trigger] third[i]).code == code && third[i].severity
                == severity;
        assert(all[c + i] == third[i]);
    }
}

/// What is found at a destination.
proof fn lemma_destination<N: Scalar>(
    line: u32,
    dest: Point3D<N>,
    limits: Option<MachineLimits<N>>,
)
    ensures
        ({
            let found = destination_findings(line, dest, limits);
            let zero = N::of_spec(0);
            &&& forall|i: int| 0 <= i < found.len() ==> (#[trigger] found[i]).line == line
            &&& has_finding(found, 0, "E001"@, Severity::Error) <==> (limits matches Some(lim)
                && lim.max_x.less_spec(dest.x))
            &&& has_finding(found, 0, "E002"@, Severity::Error) <==> (limits matches Some(lim)
                && lim.max_y.less_spec(dest.y))
            &&& has_finding(found, 0, "E003"@, Severity::Error) <==> (limits matches Some(lim)
                && lim.max_z.less_spec(dest.z))
            &&& has_finding(found, 0, "W001"@, Severity::Warning) <==> (dest.x.less_spec(zero)
                || dest.y.less_spec(zero) || dest.z.less_spec(zero))
            &&& !has_code(found, 0, "W002"@)
            &&& !has_code(found, 0, "I001"@)
        }),
{
    lemma_codes_differ();
    let found = destination_findings(line, dest, limits);
    let none = Seq::<Finding>::empty();
    let warned = if is_negative(dest) {
        seq![negative_warning(line, dest)]
    } else {
        none
    };
    let errors = bounds_errors(line, dest, limits);
    assert(found =~= none + warned + errors + none);
    lemma_bounds_errors(line, dest, limits);
    lemma_parts(none, warned, errors, none, "E001"@, Severity::Error);
    lemma_parts(none, warned, errors, none, "E002"@, Severity::Error);
    lemma_parts(none, warned, errors, none, "E003"@, Severity::Error);
    lemma_parts(none, warned, errors, none, "W001"@, Severity::Warning);
    if is_negative(dest) {
        assert(warned[0] == negative_warning(line, dest));
        assert(has_finding(warned, 0, "W001"@, Severity::Warning));
    }
    assert forall|i: int| 0 <= i < found.len() implies (#[trigger] found[i]).line == line
        && found[i].code != "W002"@ && found[i].code != "I001"@ by {
        if i < warned.len() {
            assert(found[i] == warned[i]);
        } else {
            assert(found[i] == errors[i - warned.len()]);
        }
    }
}

/// What is found about limits.
proof fn lemma_bounds_errors<N: Scalar>(
    line: u32,
    dest: Point3D<N>,
    limits: Option<MachineLimits<N>>,
)
    ensures
        ({
            let found = bounds_errors(line, dest, limits);
            &&& forall|i: int|
                0 <= i < found.len() ==> (#[trigger] found[i]).line == line && found[i].severity
                    == Severity::Error && (found[i].code == "E001"@ || found[i].code == "E002"@
                    || found[i].code == "E003"@)
            &&& has_finding(found, 0, "E001"@, Severity::Error) <==> (limits matches Some(lim)
                && lim.max_x.less_spec(dest.x))
            &&& has_finding(found, 0, "E002"@, Severity::Error) <==> (limits matches Some(lim)
                && lim.max_y.less_spec(dest.y))
            &&& has_finding(found, 0, "E003"@, Severity::Error) <==> (limits matches Some(lim)
                && lim.max_z.less_spec(dest.z))
        }),
{
    lemma_codes_differ();
    if let Some(lim) = limits {
        let found = bounds_errors(line, dest, limits);
        let none = Seq::<Finding>::empty();
        let ex = axis_errors(line, "E001"@, "X"@, dest.x, lim.max_x);
        let ey = axis_errors(line, "E002"@, "Y"@, dest.y, lim.max_y);
        let ez = axis_errors(line, "E003"@, "Z"@, dest.z, lim.max_z);
        assert(found =~= none + ex + ey + ez);
        lemma_parts(none, ex, ey, ez, "E001"@, Severity::Error);
        lemma_parts(none, ex, ey, ez, "E002"@, Severity::Error);
        lemma_parts(none, ex, ey, ez, "E003"@, Severity::Error);
        lemma_axis_errors(line, "E001"@, "X"@, dest.x, lim.max_x, "E001"@);
        lemma_axis_errors(line, "E001"@, "X"@, dest.x, lim.max_x, "E002"@);
        lemma_axis_errors(line, "E001"@, "X"@, dest.x, lim.max_x, "E003"@);
        lemma_axis_errors(line, "E002"@, "Y"@, dest.y, lim.max_y, "E001"@);
        lemma_axis_errors(line, "E002"@, "Y"@, dest.y, lim.max_y, "E002"@);
        lemma_axis_errors(line, "E002"@, "Y"@, dest.y, lim.max_y, "E003"@);
        lemma_axis_errors(line, "E003"@, "Z"@, dest.z, lim.max_z, "E001"@);
        lemma_axis_errors(line, "E003"@, "Z"@, dest.z, lim.max_z, "E002"@);
        lemma_axis_errors(line, "E003"@, "Z"@, dest.z, lim.max_z, "E003"@);
        assert forall|i: int| 0 <= i < found.len() implies (#[trigger] found[i]).line == line
            && found[i].severity == Severity::Error && (found[i].code == "E001"@ || found[i].code
            == "E002"@ || found[i].code == "E003"@) by {
            if i < ex.len() {
                assert(found[i] == ex[i]);
            } else if i < ex.len() + ey.len() {
                assert(found[i] == ey[i - ex.len()]);
            } else {
                assert(found[i] == ez[i - ex.len() - ey.len()]);
            }
        }
    }
}

proof fn lemma_axis_errors<N: Scalar>(
    line: u32,
    code: Seq<char>,
    axis: Seq<char>,
    value: N,
    limit: N,
    other: Seq<char>,
)
    ensures
        has_finding(axis_errors(line, code, axis, value, limit), 0, other, Severity::Error) == (
        limit.less_spec(value) && code == other),
{
    let found = axis_errors(line, code, axis, value, limit);
    if limit.less_spec(value) {
        assert(found[0].code == code);
    }
}

/// What is no move adds nothing to the findings.
pub proof fn lemma_only_moves_are_found<N: Scalar>(
    p: Seq<Spanned<Command<N>>>,
    limits: Option<MachineLimits<N>>,
    n: int,
)
    requires
        0 <= n < p.len(),
        words_of_move(p[n].inner) is None,
    ensures
        simulate(p, limits, n + 1).found == simulate(p, limits, n).found,
{
}

} // verus!
