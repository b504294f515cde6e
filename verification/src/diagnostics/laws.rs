//! What the report in words tells.

use vstd::prelude::*;

use crate::dialect::{Confidence, SlicerDialect};
use crate::diagnostics::{
    change_lines, count_spec, finding_lines, Change, Finding, Report, Severity,
};
use crate::scalar::Scalar;
use crate::text::{decimal, has_text, occurs_at};

verus! {

// ── Counting ──────────────────────────────────────────────────────────────────

/// One more finding is counted among those at least as serious as it, and no others:
/// an error among all, a warning among warnings and notes, a note among notes alone.
pub proof fn lemma_findings_are_counted(found: Seq<Finding>, d: Finding)
    ensures
        count_spec(found.push(d), Severity::Info) == count_spec(found, Severity::Info) + 1,
        count_spec(found.push(d), Severity::Warning) == count_spec(found, Severity::Warning)
            + if d.severity == Severity::Info {
            0int
        } else {
            1
        },
        count_spec(found.push(d), Severity::Error) == count_spec(found, Severity::Error)
            + if d.severity == Severity::Error {
            1int
        } else {
            0
        },
        count_spec(Seq::empty(), Severity::Info) == 0,
        count_spec(Seq::empty(), Severity::Warning) == 0,
        count_spec(Seq::empty(), Severity::Error) == 0,
{
    reveal(Seq::filter);
    assert(found.push(d).drop_last() =~= found);
}

// ── Lines ─────────────────────────────────────────────────────────────────────

/// A line of the statistics: a label, a value, and what stands behind it.
pub open spec fn line(label: Seq<char>, value: Seq<char>, end: Seq<char>) -> Seq<char> {
    label + value + end
}

/// A point in words: its X, Y and Z in parentheses.
pub open spec fn point_words<N: Scalar>(x: N, y: N, z: N) -> Seq<char> {
    "("@ + x.display_spec() + ", "@ + y.display_spec() + ", "@ + z.display_spec() + ")"@
}

/// The words that stand for a severity.
pub open spec fn severity_word(severity: Severity) -> Seq<char> {
    if severity == Severity::Error {
        "error"@
    } else if severity == Severity::Warning {
        "warning"@
    } else {
        "info"@
    }
}

/// The line that tells of a finding: its severity, line, code and message.
pub open spec fn finding_line(d: Finding) -> Seq<char> {
    "["@ + severity_word(d.severity) + "] line "@ + decimal(d.line as nat) + ": "@ + d.code
        + " — "@ + d.message + "\n"@
}

/// The line that tells of a change: its line and what was done.
pub open spec fn change_line(c: Change) -> Seq<char> {
    "line "@ + decimal(c.line as nat) + ": "@ + c.description + "\n"@
}

proof fn lemma_middle(a: Seq<char>, b: Seq<char>, c: Seq<char>)
    ensures
        has_text(a + b + c, b),
{
    assert((a + b + c).subrange(a.len() as int, (a.len() + b.len()) as int) =~= b);
    assert(occurs_at(a + b + c, b, a.len() as int));
}

/// What stands in a part of a text stands in the text.
proof fn lemma_within(a: Seq<char>, b: Seq<char>, c: Seq<char>, piece: Seq<char>)
    requires
        has_text(b, piece),
    ensures
        has_text(a + b + c, piece),
{
    let at = choose|at: int| occurs_at(b, piece, at);
    let whole = a + b + c;
    let from = a.len() + at;
    assert(whole.subrange(from, from + piece.len()) =~= b.subrange(at, at + piece.len()));
    assert(occurs_at(whole, piece, from));
}

proof fn lemma_goes_on(a: Seq<char>, b: Seq<char>, piece: Seq<char>)
    requires
        has_text(a, piece),
    ensures
        has_text(a + b, piece),
{
    let none = Seq::<char>::empty();
    assert(none + a + b =~= a + b);
    lemma_within(none, a, b, piece);
}

/// A text with a line behind it holds the line.
proof fn lemma_line_behind(t: Seq<char>, label: Seq<char>, value: Seq<char>, end: Seq<char>)
    ensures
        has_text(t + label + value + end, line(label, value, end)),
        forall|piece: Seq<char>| #[trigger]
            has_text(t, piece) ==> has_text(t + label + value + end, piece),
{
    let none = Seq::<char>::empty();
    let l = line(label, value, end);
    assert(t + label + value + end =~= t + l + none);
    lemma_middle(t, l, none);
    assert forall|piece: Seq<char>| #[trigger] has_text(t, piece) implies has_text(
        t + label + value + end,
        piece,
    ) by {
        lemma_goes_on(t, label, piece);
        lemma_goes_on(t + label, value, piece);
        lemma_goes_on(t + label + value, end, piece);
    }
}

proof fn lemma_stats_text<N: Scalar>(report: Report<N>)
    ensures
        ({
            let s = report.stats;
            let t = report.stats_text();
            &&& has_text(t, line("Layers    : "@, decimal(s.layer_count), "\n"@))
            &&& has_text(t, line("Moves     : "@, decimal(s.move_count), "\n"@))
            &&& has_text(t, line("Distance  : "@, s.total_distance_mm.fixed_spec(1), " mm\n"@))
            &&& has_text(t, line("Filament  : "@, s.total_filament_mm.fixed_spec(1), " mm\n"@))
            &&& has_text(
                t,
                line(
                    "Est. time : "@,
                    s.estimated_time_seconds.over_spec(N::of_spec(60)).fixed_spec(0),
                    " min\n"@,
                ),
            )
            &&& has_text(t, line("Bbox min  : "@, s.bbox_min.text_spec(), "\n"@))
            &&& has_text(t, line("Bbox max  : "@, s.bbox_max.text_spec(), "\n"@))
        }),
{
    let s = report.stats;
    let minutes = s.estimated_time_seconds.over_spec(N::of_spec(60)).fixed_spec(0);
    let t0 = "═══ GCode-Sentinel Report ═══\n"@;
    let t1 = t0 + "Layers    : "@ + decimal(s.layer_count) + "\n"@;
    let t2 = t1 + "Moves     : "@ + decimal(s.move_count) + "\n"@;
    let t3 = t2 + "Distance  : "@ + s.total_distance_mm.fixed_spec(1) + " mm\n"@;
    let t4 = t3 + "Filament  : "@ + s.total_filament_mm.fixed_spec(1) + " mm\n"@;
    let t5 = t4 + "Est. time : "@ + minutes + " min\n"@;
    let t6 = t5 + "Bbox min  : "@ + s.bbox_min.text_spec() + "\n"@;
    let t7 = t6 + "Bbox max  : "@ + s.bbox_max.text_spec() + "\n"@;
    assert(report.stats_text() == t7);
    lemma_line_behind(t0, "Layers    : "@, decimal(s.layer_count), "\n"@);
    lemma_line_behind(t1, "Moves     : "@, decimal(s.move_count), "\n"@);
    lemma_line_behind(t2, "Distance  : "@, s.total_distance_mm.fixed_spec(1), " mm\n"@);
    lemma_line_behind(t3, "Filament  : "@, s.total_filament_mm.fixed_spec(1), " mm\n"@);
    lemma_line_behind(t4, "Est. time : "@, minutes, " min\n"@);
    lemma_line_behind(t5, "Bbox min  : "@, s.bbox_min.text_spec(), "\n"@);
    lemma_line_behind(t6, "Bbox max  : "@, s.bbox_max.text_spec(), "\n"@);
}

/// What stands in a part of the summary stands in the summary.
proof fn lemma_parts_of_the_summary<N: Scalar>(report: Report<N>, piece: Seq<char>)
    requires
        has_text(report.stats_text(), piece) || has_text(report.slicer_text(), piece) || has_text(
            report.findings_text(),
            piece,
        ) || has_text(report.changes_text(), piece),
    ensures
        has_text(report.summary_spec(), piece),
{
    let a = report.stats_text();
    let b = report.slicer_text();
    let c = report.findings_text();
    let d = report.changes_text();
    let none = Seq::<char>::empty();
    if has_text(a, piece) {
        lemma_goes_on(a, b, piece);
        lemma_goes_on(a + b, c, piece);
        lemma_goes_on(a + b + c, d, piece);
    } else if has_text(b, piece) {
        lemma_within(a, b, c, piece);
        lemma_goes_on(a + b + c, d, piece);
    } else if has_text(c, piece) {
        lemma_within(a + b, c, d, piece);
    } else {
        assert(a + b + c + d + none =~= a + b + c + d);
        lemma_within(a + b + c, d, none, piece);
    }
}

/// The summary tells each statistic behind its label: layers, moves, the distance and
/// the filament in millimetres, the time in minutes, and the two corners of the box.
pub proof fn lemma_summary_tells_the_statistics<N: Scalar>(report: Report<N>)
    ensures
        ({
            let s = report.stats;
            let t = report.summary_spec();
            &&& has_text(t, line("Layers    : "@, decimal(s.layer_count), "\n"@))
            &&& has_text(t, line("Moves     : "@, decimal(s.move_count), "\n"@))
            &&& has_text(t, line("Distance  : "@, s.total_distance_mm.fixed_spec(1), " mm\n"@))
            &&& has_text(t, line("Filament  : "@, s.total_filament_mm.fixed_spec(1), " mm\n"@))
            &&& has_text(
                t,
                line(
                    "Est. time : "@,
                    s.estimated_time_seconds.over_spec(N::of_spec(60)).fixed_spec(0),
                    " min\n"@,
                ),
            )
            &&& has_text(
                t,
                line(
                    "Bbox min  : "@,
                    point_words(s.bbox_min.x, s.bbox_min.y, s.bbox_min.z),
                    "\n"@,
                ),
            )
            &&& has_text(
                t,
                line(
                    "Bbox max  : "@,
                    point_words(s.bbox_max.x, s.bbox_max.y, s.bbox_max.z),
                    "\n"@,
                ),
            )
        }),
{
    lemma_stats_text(report);
    let s = report.stats;
    let minutes = s.estimated_time_seconds.over_spec(N::of_spec(60)).fixed_spec(0);
    lemma_parts_of_the_summary(report, line("Layers    : "@, decimal(s.layer_count), "\n"@));
    lemma_parts_of_the_summary(report, line("Moves     : "@, decimal(s.move_count), "\n"@));
    lemma_parts_of_the_summary(
        report,
        line("Distance  : "@, s.total_distance_mm.fixed_spec(1), " mm\n"@),
    );
    lemma_parts_of_the_summary(
        report,
        line("Filament  : "@, s.total_filament_mm.fixed_spec(1), " mm\n"@),
    );
    lemma_parts_of_the_summary(report, line("Est. time : "@, minutes, " min\n"@));
    lemma_parts_of_the_summary(report, line("Bbox min  : "@, s.bbox_min.text_spec(), "\n"@));
    lemma_parts_of_the_summary(report, line("Bbox max  : "@, s.bbox_max.text_spec(), "\n"@));
}

// ── Findings and changes ──────────────────────────────────────────────────────

proof fn lemma_finding_lines(found: Seq<Finding>, i: int)
    requires
        0 <= i < found.len(),
    ensures
        has_text(finding_lines(found), finding_line(found[i])),
    decreases found.len(),
{
    let rest = finding_lines(found.drop_last());
    let last = "  "@ + found.last().text_spec() + "\n"@;
    if i == found.len() - 1 {
        let none = Seq::<char>::empty();
        assert(rest + last =~= (rest + "  "@) + finding_line(found[i]) + none);
        lemma_middle(rest + "  "@, finding_line(found[i]), none);
    } else {
        lemma_finding_lines(found.drop_last(), i);
        lemma_goes_on(rest, last, finding_line(found[i]));
    }
}

proof fn lemma_change_lines(changes: Seq<Change>, i: int)
    requires
        0 <= i < changes.len(),
    ensures
        has_text(change_lines(changes), change_line(changes[i])),
    decreases changes.len(),
{
    let rest = change_lines(changes.drop_last());
    let c = changes.last();
    let last = "  line "@ + decimal(c.line as nat) + ": "@ + c.description + "\n"@;
    if i == changes.len() - 1 {
        let none = Seq::<char>::empty();
        assert("  line "@ =~= "  "@ + "line "@) by {
            reveal_strlit("  line ");
            reveal_strlit("  ");
            reveal_strlit("line ");
        }
        assert(rest + last =~= (rest + "  "@) + change_line(c) + none);
        lemma_middle(rest + "  "@, change_line(c), none);
    } else {
        lemma_change_lines(changes.drop_last(), i);
        lemma_goes_on(rest, last, change_line(changes[i]));
    }
}

/// The summary tells of every finding, with its severity, line, code and message, and of
/// how many there are; where there are none it says so.
pub proof fn lemma_summary_tells_every_finding<N: Scalar>(report: Report<N>, i: int)
    ensures
        0 <= i < report.diagnostics.len() ==> has_text(
            report.summary_spec(),
            finding_line(report.diagnostics[i]),
        ),
        report.diagnostics.len() > 0 ==> has_text(
            report.summary_spec(),
            "Diagnostics ("@ + decimal(report.diagnostics.len()) + "):\n"@,
        ),
        report.diagnostics.len() == 0 ==> has_text(
            report.summary_spec(),
            "\nNo issues found.\n"@,
        ),
{
    let found = report.diagnostics;
    let t = report.findings_text();
    let none = Seq::<char>::empty();
    if found.len() == 0 {
        assert(none + t + none =~= t);
        lemma_middle(none, t, none);
        lemma_parts_of_the_summary(report, "\nNo issues found.\n"@);
    } else {
        let head = "Diagnostics ("@ + decimal(found.len()) + "):\n"@;
        let lines = finding_lines(found);
        assert("\nDiagnostics ("@ =~= "\n"@ + "Diagnostics ("@) by {
            reveal_strlit("\nDiagnostics (");
            reveal_strlit("\n");
            reveal_strlit("Diagnostics (");
        }
        assert(t =~= "\n"@ + head + lines);
        lemma_middle("\n"@, head, lines);
        lemma_parts_of_the_summary(report, head);
        if 0 <= i < found.len() {
            lemma_finding_lines(found, i);
            assert("\n"@ + head + lines =~= ("\n"@ + head) + lines + none);
            lemma_within("\n"@ + head, lines, none, finding_line(found[i]));
            lemma_parts_of_the_summary(report, finding_line(found[i]));
        }
    }
}

/// The summary tells of every change, with its line, of how many there are, and of
/// whether they were made or would be.
pub proof fn lemma_summary_tells_every_change<N: Scalar>(report: Report<N>, i: int)
    requires
        0 <= i < report.changes.len(),
    ensures
        has_text(report.summary_spec(), change_line(report.changes[i])),
        has_text(
            report.summary_spec(),
            (if report.dry_run {
                "\nWould optimize ("@
            } else {
                "\nOptimized ("@
            }) + decimal(report.changes.len()) + " changes):\n"@,
        ),
{
    let t = report.changes_text();
    let none = Seq::<char>::empty();
    let lines = change_lines(report.changes);
    let word = if report.dry_run {
        "\nWould optimize ("@
    } else {
        "\nOptimized ("@
    };
    let head = word + decimal(report.changes.len()) + " changes):\n"@;
    assert(word =~= "\n"@ + (if report.dry_run {
        "Would optimize"@
    } else {
        "Optimized"@
    }) + " ("@) by {
        reveal_strlit("\n");
        reveal_strlit(" (");
        reveal_strlit("Would optimize");
        reveal_strlit("Optimized");
        reveal_strlit("\nWould optimize (");
        reveal_strlit("\nOptimized (");
    }
    assert(t =~= none + head + lines);
    lemma_middle(none, head, lines);
    lemma_parts_of_the_summary(report, head);
    lemma_change_lines(report.changes, i);
    assert(t =~= head + lines + none);
    lemma_within(head, lines, none, change_line(report.changes[i]));
    lemma_parts_of_the_summary(report, change_line(report.changes[i]));
}

/// The summary names the slicer and how sure its detection is, where it is known, and
/// its version, where that is known.
pub proof fn lemma_summary_names_the_slicer<N: Scalar>(report: Report<N>)
    requires
        report.slicer is Some,
    ensures
        ({
            let m = report.slicer->0;
            let t = report.summary_spec();
            let name = match m.dialect {
                SlicerDialect::OrcaSlicer => "OrcaSlicer"@,
                SlicerDialect::PrusaSlicer => "PrusaSlicer"@,
                SlicerDialect::Cura => "Cura"@,
                SlicerDialect::Unknown => "Unknown"@,
            };
            let sure = match m.confidence {
                Confidence::Absent => "None"@,
                Confidence::Low => "Low"@,
                Confidence::Medium => "Medium"@,
                Confidence::High => "High"@,
            };
            &&& m.dialect != SlicerDialect::Unknown ==> has_text(
                t,
                "Slicer    : "@ + name + " ("@ + sure + ")\n"@,
            )
            &&& m.slicer_version matches Some(v) ==> has_text(t, line("Version   : "@, v, "\n"@))
        }),
{
    let m = report.slicer->0;
    let none = Seq::<char>::empty();
    let first = if m.dialect != SlicerDialect::Unknown {
        "Slicer    : "@ + m.dialect.text_spec() + " ("@ + m.confidence.text_spec() + ")\n"@
    } else {
        none
    };
    let second = match m.slicer_version {
        Some(v) => line("Version   : "@, v, "\n"@),
        None => none,
    };
    let t = report.slicer_text();
    assert(t =~= none + first + second);
    assert(t =~= first + second + none);
    lemma_middle(none, first, second);
    lemma_middle(first, second, none);
    lemma_parts_of_the_summary(report, first);
    lemma_parts_of_the_summary(report, second);
}

} // verus!
