//! Findings about a program, statistics, and the report that collects them.
//!
//! A [`Diagnostic`] is a finding about the G-code itself, not a failure of the
//! tool.  Contracts speak of its view, a [`Finding`].

use vstd::prelude::*;

use crate::dialect::{SlicerDialect, SlicerMetadata, SlicerModel};
use crate::models::Point3D;
use crate::scalar::{zero, zero_spec, Scalar};
use crate::text::{decimal, push_decimal, push_text, same_text};

pub mod laws;

verus! {

/// How serious a finding is.
#[derive(Debug, Clone, Copy, PartialEq, Eq, PartialOrd, Ord, Structural)]
pub enum Severity {
    /// A note; no problem.
    Info,
    /// Something to look at that does not prevent printing.
    Warning,
    /// A definite problem.
    Error,
}

impl Severity {
    /// The place of the severity in the order from the least to the most serious.
    pub open spec fn rank_spec(self) -> int {
        match self {
            Severity::Info => 0,
            Severity::Warning => 1,
            Severity::Error => 2,
        }
    }

    fn rank(self) -> (result: u8)
        ensures
            result == self.rank_spec(),
    {
        match self {
            Severity::Info => 0,
            Severity::Warning => 1,
            Severity::Error => 2,
        }
    }

    /// The name of the severity in reports.
    pub open spec fn text_spec(self) -> Seq<char> {
        match self {
            Severity::Info => "info"@,
            Severity::Warning => "warning"@,
            Severity::Error => "error"@,
        }
    }

    /// The name of the severity in reports.
    pub fn to_text(self) -> (result: &'static str)
        ensures
            result@ == self.text_spec(),
    {
        match self {
            Severity::Info => "info",
            Severity::Warning => "warning",
            Severity::Error => "error",
        }
    }
}

/// A single finding of the analyser or the optimizer.
#[derive(Debug, PartialEq)]
pub struct Diagnostic {
    /// How serious the finding is.
    pub severity: Severity,
    /// 1-based source line that the finding is about; 0 where there is none.
    pub line: u32,
    /// Stable machine-readable code, such as `E001`.
    pub code: &'static str,
    /// The finding in words.
    pub message: String,
}

/// What a [`Diagnostic`] says.
#[verifier::ext_equal]
pub struct Finding {
    pub severity: Severity,
    pub line: u32,
    pub code: Seq<char>,
    pub message: Seq<char>,
}

impl View for Diagnostic {
    type V = Finding;

    open spec fn view(&self) -> Finding {
        Finding {
            severity: self.severity,
            line: self.line,
            code: self.code@,
            message: self.message@,
        }
    }
}

impl Clone for Diagnostic {
    fn clone(&self) -> (result: Self)
        ensures
            result@ == self@,
    {
        Diagnostic {
            severity: self.severity,
            line: self.line,
            code: self.code,
            message: self.message.clone(),
        }
    }
}

/// The findings that a list of diagnostics reports.
pub open spec fn findings(diagnostics: Seq<Diagnostic>) -> Seq<Finding> {
    diagnostics.map_values(|d: Diagnostic| d@)
}

impl Finding {
    /// The finding as a line of a report: `[severity] line N: CODE — message`.
    pub open spec fn text_spec(self) -> Seq<char> {
        "["@ + self.severity.text_spec() + "] line "@ + decimal(self.line as nat) + ": "@
            + self.code + " — "@ + self.message
    }
}

impl Diagnostic {
    /// The finding as a line of a report: `[severity] line N: CODE — message`.
    pub fn to_text(&self) -> (result: String)
        ensures
            result@ == self@.text_spec(),
    {
        let mut text = String::new();
        push_text(&mut text, "[");
        push_text(&mut text, self.severity.to_text());
        push_text(&mut text, "] line ");
        push_decimal(&mut text, self.line as u64);
        push_text(&mut text, ": ");
        push_text(&mut text, self.code);
        push_text(&mut text, " — ");
        push_text(&mut text, self.message.as_str());
        text
    }
}

/// Statistics of a simulated print.
#[derive(Debug, PartialEq)]
pub struct PrintStats<N> {
    /// Number of layer changes.
    pub layer_count: u32,
    /// Distance travelled by the print head in millimetres, printing or not.
    pub total_distance_mm: N,
    /// Filament extruded in millimetres.
    pub total_filament_mm: N,
    /// Estimated print time in seconds from distances and feedrates alone.
    pub estimated_time_seconds: N,
    /// Number of linear moves (G0 and G1).
    pub move_count: usize,
    /// Smallest corner of the box around all moves.
    pub bbox_min: Point3D<N>,
    /// Largest corner of the box around all moves.
    pub bbox_max: Point3D<N>,
    /// Estimated print time of each layer in seconds, one entry per layer change.
    pub per_layer_times: Vec<N>,
}

/// What [`PrintStats`] say.
#[verifier::ext_equal]
pub struct Stats<N> {
    pub layer_count: nat,
    pub total_distance_mm: N,
    pub total_filament_mm: N,
    pub estimated_time_seconds: N,
    pub move_count: nat,
    pub bbox_min: Point3D<N>,
    pub bbox_max: Point3D<N>,
    pub per_layer_times: Seq<N>,
}

impl<N> View for PrintStats<N> {
    type V = Stats<N>;

    open spec fn view(&self) -> Stats<N> {
        Stats {
            layer_count: self.layer_count as nat,
            total_distance_mm: self.total_distance_mm,
            total_filament_mm: self.total_filament_mm,
            estimated_time_seconds: self.estimated_time_seconds,
            move_count: self.move_count as nat,
            bbox_min: self.bbox_min,
            bbox_max: self.bbox_max,
            per_layer_times: self.per_layer_times@,
        }
    }
}

impl<N: Scalar> Stats<N> {
    /// The statistics of a program without commands: an empty box, and nothing else.
    pub open spec fn none() -> Self {
        Stats {
            layer_count: 0,
            total_distance_mm: zero_spec(),
            total_filament_mm: zero_spec(),
            estimated_time_seconds: zero_spec(),
            move_count: 0,
            bbox_min: Point3D {
                x: N::max_value_spec(),
                y: N::max_value_spec(),
                z: N::max_value_spec(),
            },
            bbox_max: Point3D {
                x: N::min_value_spec(),
                y: N::min_value_spec(),
                z: N::min_value_spec(),
            },
            per_layer_times: Seq::empty(),
        }
    }
}

impl<N: Scalar> Default for PrintStats<N> {
    fn default() -> (result: Self)
        ensures
            result@ == Stats::<N>::none(),
    {
        PrintStats {
            layer_count: 0,
            total_distance_mm: zero(),
            total_filament_mm: zero(),
            estimated_time_seconds: zero(),
            move_count: 0,
            bbox_min: Point3D { x: N::max_value(), y: N::max_value(), z: N::max_value() },
            bbox_max: Point3D { x: N::min_value(), y: N::min_value(), z: N::min_value() },
            per_layer_times: Vec::new(),
        }
    }
}

/// A change that the optimizer made, or would make in a dry run.
#[derive(Debug, PartialEq)]
pub struct OptimizationChange {
    /// 1-based line number of the affected command.
    pub line: u32,
    /// The change in words.
    pub description: String,
}

/// What an [`OptimizationChange`] says.
#[verifier::ext_equal]
pub struct Change {
    pub line: u32,
    pub description: Seq<char>,
}

impl View for OptimizationChange {
    type V = Change;

    open spec fn view(&self) -> Change {
        Change { line: self.line, description: self.description@ }
    }
}

impl Clone for OptimizationChange {
    fn clone(&self) -> (result: Self)
        ensures
            result@ == self@,
    {
        OptimizationChange { line: self.line, description: self.description.clone() }
    }
}

/// What a list of changes says.
pub open spec fn change_log(changes: Seq<OptimizationChange>) -> Seq<Change> {
    changes.map_values(|c: OptimizationChange| c@)
}

/// Appends a change to a list.
pub(crate) fn push_change(changes: &mut Vec<OptimizationChange>, change: OptimizationChange)
    ensures
        change_log(final(changes)@) == change_log(old(changes)@).push(change@),
{
    changes.push(change);
    proof {
        assert(change_log(changes@) =~= change_log(old(changes)@).push(change@));
    }
}

/// Whether `d` is at least as serious as `min`.
pub open spec fn at_least(min: Severity) -> spec_fn(Finding) -> bool {
    |d: Finding| d.severity.rank_spec() >= min.rank_spec()
}

/// The number of findings that are at least as serious as `min`.
pub open spec fn count_spec(found: Seq<Finding>, min: Severity) -> nat {
    found.filter(at_least(min)).len()
}

/// The complete result of a run.
#[derive(Debug)]
pub struct AnalysisReport<N> {
    /// Everything that was found.
    pub diagnostics: Vec<Diagnostic>,
    /// Statistics of the simulated print.
    pub stats: PrintStats<N>,
    /// Changes made or proposed by the optimizer.
    pub changes: Vec<OptimizationChange>,
    /// Whether nothing was written.
    pub dry_run: bool,
    /// The slicer that made the program, where detection was run.
    pub slicer: Option<SlicerMetadata<N>>,
}

/// What an [`AnalysisReport`] says.
#[verifier::ext_equal]
pub struct Report<N> {
    pub diagnostics: Seq<Finding>,
    pub stats: Stats<N>,
    pub changes: Seq<Change>,
    pub dry_run: bool,
    pub slicer: Option<SlicerModel<N>>,
}

impl<N> View for AnalysisReport<N> {
    type V = Report<N>;

    open spec fn view(&self) -> Report<N> {
        Report {
            diagnostics: findings(self.diagnostics@),
            stats: self.stats@,
            changes: change_log(self.changes@),
            dry_run: self.dry_run,
            slicer: match self.slicer {
                Some(slicer) => Some(slicer@),
                None => None,
            },
        }
    }
}

/// One line of a report for each finding, indented.
pub open spec fn finding_lines(found: Seq<Finding>) -> Seq<char>
    decreases found.len(),
{
    if found.len() == 0 {
        Seq::empty()
    } else {
        finding_lines(found.drop_last()) + ("  "@ + found.last().text_spec() + "\n"@)
    }
}

/// One line of a report for each change, indented.
pub open spec fn change_lines(changes: Seq<Change>) -> Seq<char>
    decreases changes.len(),
{
    if changes.len() == 0 {
        Seq::empty()
    } else {
        change_lines(changes.drop_last()) + ("  line "@ + decimal(changes.last().line as nat)
            + ": "@ + changes.last().description + "\n"@)
    }
}

impl<N: Scalar> Report<N> {
    pub open spec fn stats_text(self) -> Seq<char> {
        let s = self.stats;
        "═══ GCode-Sentinel Report ═══\n"@ + "Layers    : "@ + decimal(s.layer_count) + "\n"@
            + "Moves     : "@ + decimal(s.move_count) + "\n"@ + "Distance  : "@
            + s.total_distance_mm.fixed_spec(1) + " mm\n"@ + "Filament  : "@
            + s.total_filament_mm.fixed_spec(1) + " mm\n"@ + "Est. time : "@
            + s.estimated_time_seconds.over_spec(N::of_spec(60)).fixed_spec(0) + " min\n"@
            + "Bbox min  : "@ + s.bbox_min.text_spec() + "\n"@ + "Bbox max  : "@
            + s.bbox_max.text_spec() + "\n"@
    }

    pub open spec fn slicer_text(self) -> Seq<char> {
        match self.slicer {
            Some(m) => (if m.dialect != SlicerDialect::Unknown {
                "Slicer    : "@ + m.dialect.text_spec() + " ("@ + m.confidence.text_spec()
                    + ")\n"@
            } else {
                Seq::empty()
            }) + (match m.slicer_version {
                Some(v) => "Version   : "@ + v + "\n"@,
                None => Seq::empty(),
            }),
            None => Seq::empty(),
        }
    }

    pub open spec fn findings_text(self) -> Seq<char> {
        if self.diagnostics.len() == 0 {
            "\nNo issues found.\n"@
        } else {
            "\nDiagnostics ("@ + decimal(self.diagnostics.len()) + "):\n"@ + finding_lines(
                self.diagnostics,
            )
        }
    }

    pub open spec fn changes_text(self) -> Seq<char> {
        if self.changes.len() == 0 {
            Seq::empty()
        } else {
            "\n"@ + (if self.dry_run {
                "Would optimize"@
            } else {
                "Optimized"@
            }) + " ("@ + decimal(self.changes.len()) + " changes):\n"@ + change_lines(
                self.changes,
            )
        }
    }

    /// The report in words: statistics, slicer, findings, changes.
    pub open spec fn summary_spec(self) -> Seq<char> {
        self.stats_text() + self.slicer_text() + self.findings_text() + self.changes_text()
    }
}

impl<N: Scalar> AnalysisReport<N> {
    /// Whether any finding is an error.
    pub fn has_errors(&self) -> (result: bool)
        ensures
            result == exists|i: int|
                0 <= i < self.diagnostics.len() && self.diagnostics[i].severity
                    == Severity::Error,
    {
        let mut i: usize = 0;
        while i < self.diagnostics.len()
            invariant
                i <= self.diagnostics.len(),
                forall|j: int| 0 <= j < i ==> self.diagnostics[j].severity != Severity::Error,
            decreases self.diagnostics.len() - i,
        {
            if self.diagnostics[i].severity == Severity::Error {
                return true;
            }
            i = i + 1;
        }
        false
    }

    /// The number of findings that are at least as serious as `min`.
    pub fn count_at_least(&self, min: Severity) -> (result: usize)
        ensures
            result == count_spec(self@.diagnostics, min),
    {
        let ghost found = findings(self.diagnostics@);
        let mut count: usize = 0;
        let mut i: usize = 0;
        while i < self.diagnostics.len()
            invariant
                i <= self.diagnostics.len(),
                count <= i,
                found == findings(self.diagnostics@),
                count == found.take(i as int).filter(at_least(min)).len(),
            decreases self.diagnostics.len() - i,
        {
            if self.diagnostics[i].severity.rank() >= min.rank() {
                count = count + 1;
            }
            i = i + 1;
            proof {
                assert(found.take(i as int).drop_last() =~= found.take(i - 1));
                reveal(Seq::filter);
            }
        }
        proof {
            assert(found.take(i as int) =~= found);
        }
        count
    }

    fn write_stats(&self, writer: &mut String)
        ensures
            final(writer)@ == old(writer)@ + self@.stats_text(),
    {
        let mut text = String::new();
        push_text(&mut text, "═══ GCode-Sentinel Report ═══\n");
        push_text(&mut text, "Layers    : ");
        push_decimal(&mut text, self.stats.layer_count as u64);
        push_text(&mut text, "\n");
        push_text(&mut text, "Moves     : ");
        push_decimal(&mut text, self.stats.move_count as u64);
        push_text(&mut text, "\n");
        push_text(&mut text, "Distance  : ");
        push_text(&mut text, self.stats.total_distance_mm.fixed(1).as_str());
        push_text(&mut text, " mm\n");
        push_text(&mut text, "Filament  : ");
        push_text(&mut text, self.stats.total_filament_mm.fixed(1).as_str());
        push_text(&mut text, " mm\n");
        push_text(&mut text, "Est. time : ");
        push_text(&mut text, self.stats.estimated_time_seconds.over(N::of(60)).fixed(0).as_str());
        push_text(&mut text, " min\n");
        push_text(&mut text, "Bbox min  : ");
        push_text(&mut text, self.stats.bbox_min.to_text().as_str());
        push_text(&mut text, "\n");
        push_text(&mut text, "Bbox max  : ");
        push_text(&mut text, self.stats.bbox_max.to_text().as_str());
        push_text(&mut text, "\n");
        proof {
            assert(text@ =~= self@.stats_text());
        }
        push_text(writer, text.as_str());
    }

    fn write_slicer(&self, writer: &mut String)
        ensures
            final(writer)@ == old(writer)@ + self@.slicer_text(),
    {
        let mut text = String::new();
        if let Some(slicer) = &self.slicer {
            if slicer.dialect != SlicerDialect::Unknown {
                push_text(&mut text, "Slicer    : ");
                push_text(&mut text, slicer.dialect.to_text());
                push_text(&mut text, " (");
                push_text(&mut text, slicer.confidence.to_text());
                push_text(&mut text, ")\n");
            }
            if let Some(version) = &slicer.slicer_version {
                push_text(&mut text, "Version   : ");
                push_text(&mut text, version.as_str());
                push_text(&mut text, "\n");
            }
        }
        proof {
            assert(text@ =~= self@.slicer_text());
        }
        push_text(writer, text.as_str());
    }

    fn write_findings(&self, writer: &mut String)
        ensures
            final(writer)@ == old(writer)@ + self@.findings_text(),
    {
        if self.diagnostics.len() == 0 {
            push_text(writer, "\nNo issues found.\n");
            return;
        }
        let ghost found = findings(self.diagnostics@);
        let mut lines = String::new();
        let mut i: usize = 0;
        while i < self.diagnostics.len()
            invariant
                i <= self.diagnostics.len(),
                found == findings(self.diagnostics@),
                lines@ == finding_lines(found.take(i as int)),
            decreases self.diagnostics.len() - i,
        {
            let mut line = String::new();
            push_text(&mut line, "  ");
            push_text(&mut line, self.diagnostics[i].to_text().as_str());
            push_text(&mut line, "\n");
            push_text(&mut lines, line.as_str());
            i = i + 1;
            proof {
                assert(found.take(i as int).drop_last() =~= found.take(i - 1));
            }
        }
        proof {
            assert(found.take(i as int) =~= found);
        }
        let mut text = String::new();
        push_text(&mut text, "\nDiagnostics (");
        push_decimal(&mut text, self.diagnostics.len() as u64);
        push_text(&mut text, "):\n");
        push_text(&mut text, lines.as_str());
        push_text(writer, text.as_str());
    }

    fn write_changes(&self, writer: &mut String)
        ensures
            final(writer)@ == old(writer)@ + self@.changes_text(),
    {
        if self.changes.len() == 0 {
            proof {
                assert(old(writer)@ + self@.changes_text() =~= old(writer)@);
            }
            return;
        }
        let ghost log = change_log(self.changes@);
        let mut lines = String::new();
        let mut i: usize = 0;
        while i < self.changes.len()
            invariant
                i <= self.changes.len(),
                log == change_log(self.changes@),
                lines@ == change_lines(log.take(i as int)),
            decreases self.changes.len() - i,
        {
            let mut line = String::new();
            push_text(&mut line, "  line ");
            push_decimal(&mut line, self.changes[i].line as u64);
            push_text(&mut line, ": ");
            push_text(&mut line, self.changes[i].description.as_str());
            push_text(&mut line, "\n");
            push_text(&mut lines, line.as_str());
            i = i + 1;
            proof {
                assert(log.take(i as int).drop_last() =~= log.take(i - 1));
            }
        }
        proof {
            assert(log.take(i as int) =~= log);
        }
        let mut text = String::new();
        push_text(&mut text, "\n");
        if self.dry_run {
            push_text(&mut text, "Would optimize");
        } else {
            push_text(&mut text, "Optimized");
        }
        push_text(&mut text, " (");
        push_decimal(&mut text, self.changes.len() as u64);
        push_text(&mut text, " changes):\n");
        push_text(&mut text, lines.as_str());
        push_text(writer, text.as_str());
    }

    /// Appends the report in words to `writer`.
    pub fn write_summary(&self, writer: &mut String)
        ensures
            final(writer)@ == old(writer)@ + self@.summary_spec(),
    {
        self.write_stats(writer);
        self.write_slicer(writer);
        self.write_findings(writer);
        self.write_changes(writer);
        proof {
            assert(writer@ =~= old(writer)@ + self@.summary_spec());
        }
    }
}

/// The difference between the errors found before and after optimization.
///
/// Errors are matched by code and line.
#[derive(Debug)]
pub struct ValidationDiff {
    /// Errors found after but not before.
    pub new_errors: Vec<Diagnostic>,
    /// Errors found before but not after.
    pub resolved_errors: Vec<Diagnostic>,
    /// Whether there are new errors.
    pub regression_detected: bool,
}

/// Whether some error among `others` has the code and the line of `d`.
pub open spec fn has_match(d: Finding, others: Seq<Finding>) -> bool {
    exists|i: int|
        0 <= i < others.len() && (#[trigger] others[i]).severity == Severity::Error
            && others[i].code == d.code && others[i].line == d.line
}

/// Whether a finding is an error that `others` do not hold.
pub open spec fn is_unmatched(others: Seq<Finding>) -> spec_fn(Finding) -> bool {
    |d: Finding| d.severity == Severity::Error && !has_match(d, others)
}

/// The errors of `found`, in order, that `others` do not hold.
pub open spec fn unmatched_errors(found: Seq<Finding>, others: Seq<Finding>) -> Seq<Finding> {
    found.filter(is_unmatched(others))
}

fn matches_any(d: &Diagnostic, others: &[Diagnostic]) -> (result: bool)
    ensures
        result == has_match(d@, findings(others@)),
{
    let ghost found = findings(others@);
    let mut i: usize = 0;
    while i < others.len()
        invariant
            i <= others.len(),
            found == findings(others@),
            forall|j: int|
                0 <= j < i ==> !((#[trigger] found[j]).severity == Severity::Error && found[j].code
                    == d@.code && found[j].line == d@.line),
        decreases others.len() - i,
    {
        if others[i].severity == Severity::Error && others[i].line == d.line && same_text(
            others[i].code,
            d.code,
        ) {
            proof {
                assert(found[i as int].code == d@.code);
            }
            return true;
        }
        i = i + 1;
    }
    false
}

fn collect_unmatched(list: &[Diagnostic], others: &[Diagnostic]) -> (result: Vec<Diagnostic>)
    ensures
        findings(result@) == unmatched_errors(findings(list@), findings(others@)),
{
    let ghost found = findings(list@);
    let mut out: Vec<Diagnostic> = Vec::new();
    let mut i: usize = 0;
    proof {
        reveal(Seq::filter);
        assert(findings(out@) =~= unmatched_errors(found.take(0), findings(others@)));
    }
    while i < list.len()
        invariant
            i <= list.len(),
            found == findings(list@),
            findings(out@) == unmatched_errors(found.take(i as int), findings(others@)),
        decreases list.len() - i,
    {
        let ghost before = out@;
        let keep = list[i].severity == Severity::Error && !matches_any(&list[i], others);
        if keep {
            out.push(list[i].clone());
        }
        i = i + 1;
        proof {
            reveal(Seq::filter);
            assert(found.take(i as int).drop_last() =~= found.take(i - 1));
            if keep {
                assert(findings(out@) =~= findings(before).push(found[i - 1]));
            }
        }
    }
    proof {
        assert(found.take(i as int) =~= found);
    }
    out
}

impl ValidationDiff {
    /// Compares the findings before (`pre`) and after (`post`) optimization.
    ///
    /// Only errors count; warnings and notes are ignored.
    pub fn compute(pre: &[Diagnostic], post: &[Diagnostic]) -> (result: Self)
        ensures
            findings(result.new_errors@) == unmatched_errors(findings(post@), findings(pre@)),
            findings(result.resolved_errors@) == unmatched_errors(findings(pre@), findings(post@)),
            result.regression_detected == (result.new_errors.len() > 0),
    {
        let new_errors = collect_unmatched(post, pre);
        let resolved_errors = collect_unmatched(pre, post);
        let regression_detected = new_errors.len() > 0;
        ValidationDiff { new_errors, resolved_errors, regression_detected }
    }
}

// ── Laws ──────────────────────────────────────────────────────────────────────

/// A report counts an error exactly where it has errors.
pub proof fn lemma_has_errors_iff_counted(found: Seq<Finding>)
    ensures
        (count_spec(found, Severity::Error) > 0) == exists|i: int|
            0 <= i < found.len() && (#[trigger] found[i]).severity == Severity::Error,
    decreases found.len(),
{
    reveal(Seq::filter);
    if found.len() > 0 {
        let rest = found.drop_last();
        lemma_has_errors_iff_counted(rest);
        if count_spec(found, Severity::Error) > 0 {
            if found.last().severity == Severity::Error {
                assert(found[found.len() - 1].severity == Severity::Error);
            } else {
                let i = choose|i: int|
                    0 <= i < rest.len() && (#[trigger] rest[i]).severity == Severity::Error;
                assert(found[i].severity == Severity::Error);
            }
        }
        if exists|i: int|
            0 <= i < found.len() && (#[trigger] found[i]).severity == Severity::Error {
            let i = choose|i: int|
                0 <= i < found.len() && (#[trigger] found[i]).severity == Severity::Error;
            if i < rest.len() {
                assert(rest[i].severity == Severity::Error);
            }
        }
    }
}

/// The more serious findings are asked for, the fewer are counted.
pub proof fn lemma_count_monotone(found: Seq<Finding>, low: Severity, high: Severity)
    requires
        low.rank_spec() <= high.rank_spec(),
    ensures
        count_spec(found, high) <= count_spec(found, low) <= found.len(),
        count_spec(found, Severity::Info) == found.len(),
    decreases found.len(),
{
    reveal(Seq::filter);
    if found.len() > 0 {
        lemma_count_monotone(found.drop_last(), low, high);
    }
}

/// A list of findings compared with itself shows neither new nor resolved errors.
pub proof fn lemma_no_regression_against_itself(found: Seq<Finding>)
    ensures
        unmatched_errors(found, found).len() == 0,
{
    lemma_unmatched_sound(found, found);
    let out = unmatched_errors(found, found);
    if out.len() > 0 {
        assert(found.contains(out[0]));
        let i = choose|i: int| 0 <= i < found.len() && found[i] == out[0];
        assert(found[i].code == out[0].code);
        assert(has_match(out[0], found));
    }
}

/// Every unmatched error is an error of the list that has no match among the others,
/// and every such error of the list is reported.
pub proof fn lemma_unmatched_sound(found: Seq<Finding>, others: Seq<Finding>)
    ensures
        forall|i: int|
            0 <= i < unmatched_errors(found, others).len() ==> {
                let d = #[trigger] unmatched_errors(found, others)[i];
                &&& found.contains(d)
                &&& d.severity == Severity::Error
                &&& !has_match(d, others)
            },
        forall|j: int|
            0 <= j < found.len() && (#[trigger] found[j]).severity == Severity::Error
                && !has_match(found[j], others) ==> unmatched_errors(found, others).contains(
                found[j],
            ),
    decreases found.len(),
{
    reveal(Seq::filter);
    if found.len() > 0 {
        let rest = found.drop_last();
        lemma_unmatched_sound(rest, others);
        let before = unmatched_errors(rest, others);
        let after = unmatched_errors(found, others);
        assert forall|i: int| 0 <= i < after.len() implies {
            let d = #[trigger] after[i];
            &&& found.contains(d)
            &&& d.severity == Severity::Error
            &&& !has_match(d, others)
        } by {
            if i < before.len() {
                assert(after[i] == before[i]);
                assert(rest.contains(before[i]));
                let k = choose|k: int| 0 <= k < rest.len() && rest[k] == before[i];
                assert(found[k] == before[i]);
            } else {
                assert(after[i] == found.last());
            }
        }
        assert forall|j: int|
            0 <= j < found.len() && (#[trigger] found[j]).severity == Severity::Error
                && !has_match(found[j], others) implies after.contains(found[j]) by {
            if j < rest.len() {
                assert(rest[j] == found[j]);
                assert(before.contains(found[j]));
                let k = choose|k: int| 0 <= k < before.len() && before[k] == found[j];
                assert(after[k] == found[j]);
            } else {
                assert(after.last() == found[j]);
            }
        }
    }
}

} // verus!
