//! A complete run on the text of a program: parse, analyse, optimise, and report.

pub mod laws;

use vstd::prelude::*;

use crate::analyzer::{
    analysis_findings, analyze, layer_comments, lemma_announced_layers_count, lemma_layers_grow,
    limits_of, simulate, simulation,
};
use crate::arc_fitter::{
    arc_warning, fit_arcs, fitted, flavour_from, lemma_fit_keeps_other_commands, lemma_fit_shortens,
    no_curve, supports_arcs, ArcFitConfig,
};
use crate::cli::Cli;
use crate::diagnostics::{
    change_log, count_spec, findings, has_match, lemma_no_regression_against_itself,
    lemma_unmatched_sound, unmatched_errors, AnalysisReport, Change, Diagnostic, Finding,
    OptimizationChange, Severity, Stats, ValidationDiff,
};
use crate::dialect::{detect_dialect, dialect_findings, metadata_for, verdict, SlicerDialect};
use crate::models::{program, Command, GCodeCommand, MachineLimits, ParseError, Spanned};
use crate::optimizer::collinear::{
    collinear_runs, lemma_collinear_runs_in_order, lemma_merge_shortens,
    lemma_only_linear_moves_merge, merge_changes, merge_collinear, merged, no_linear,
};
use crate::optimizer::progress::{
    announces_layers, base_program, insert_progress_markers, is_layer_comment, is_marker,
    lemma_markers_add_no_layers, lemma_progress_keeps_other_commands, marker_notes, no_marker,
    plain_count, with_markers, Timing,
};
use crate::optimizer::laws::{
    is_out_of_scope, lemma_kept_shortens, lemma_only_feedrates_change, lemma_other_commands_stay,
};
use crate::optimizer::{
    by_line, changes_before, effective, has_relative, is_removed, kept, optimize, OptConfig,
};
use crate::parser::{first_fault, parse_all, parsed, read_lines, source_lines};
use crate::scalar::Scalar;
use crate::text::{decimal, push_decimal, push_text};

verus! {

// ── The stages ────────────────────────────────────────────────────────────────

/// The program after collinear merging.
pub open spec fn after_merge<N: Scalar>(
    p: Seq<Spanned<Command<N>>>,
    config: OptConfig,
) -> Seq<Spanned<Command<N>>> {
    if config.merge_collinear && !config.dry_run {
        merged(p, collinear_runs(p), p.len() as int)
    } else {
        p
    }
}

/// The changes of collinear merging.
pub open spec fn changes_of_merge<N: Scalar>(
    p: Seq<Spanned<Command<N>>>,
    config: OptConfig,
) -> Seq<Change> {
    if config.merge_collinear {
        merge_changes(p, collinear_runs(p))
    } else {
        Seq::empty()
    }
}

/// Whether arcs are fitted to the program.
pub open spec fn fits_arcs<N: Scalar>(
    p: Seq<Spanned<Command<N>>>,
    config: ArcFitConfig<N>,
) -> bool {
    config.enabled && !has_relative(p)
}

/// The program after arc fitting.
pub open spec fn after_arcs<N: Scalar>(
    p: Seq<Spanned<Command<N>>>,
    config: ArcFitConfig<N>,
) -> Seq<Spanned<Command<N>>> {
    if fits_arcs(p, config) {
        fitted(p, config.tolerance_mm).out
    } else {
        p
    }
}

/// The changes of arc fitting.
pub open spec fn changes_of_arcs<N: Scalar>(
    p: Seq<Spanned<Command<N>>>,
    config: ArcFitConfig<N>,
) -> Seq<Change> {
    if fits_arcs(p, config) {
        fitted(p, config.tolerance_mm).changes
    } else {
        Seq::empty()
    }
}

/// What arc fitting finds.
pub open spec fn findings_of_arcs<N: Scalar>(
    p: Seq<Spanned<Command<N>>>,
    config: ArcFitConfig<N>,
) -> Seq<Finding> {
    if changes_of_arcs(p, config).len() > 0 && !supports_arcs(flavour_from(p, 0)) {
        seq![arc_warning(flavour_from(p, 0))]
    } else {
        Seq::empty()
    }
}

/// The program after optimization.
pub open spec fn after_optimize<N: Scalar>(
    p: Seq<Spanned<Command<N>>>,
    config: OptConfig,
) -> Seq<Spanned<Command<N>>> {
    if config.dry_run {
        p
    } else {
        kept(p, config, p.len() as int)
    }
}

/// The changes of optimization.
pub open spec fn changes_of_optimize<N: Scalar>(
    p: Seq<Spanned<Command<N>>>,
    config: OptConfig,
) -> Seq<Change> {
    by_line(changes_before(p, config, p.len() as int))
}

/// What the progress markers are computed from.
pub open spec fn timing_of<N: Scalar>(stats: Stats<N>) -> Timing<N> {
    Timing {
        seconds: stats.estimated_time_seconds,
        layers: if stats.layer_count == 0 {
            1
        } else {
            stats.layer_count
        },
        times: stats.per_layer_times,
    }
}

/// The program after the insertion of progress markers.
pub open spec fn after_progress<N: Scalar>(
    p: Seq<Spanned<Command<N>>>,
    config: OptConfig,
    stats: Stats<N>,
) -> Seq<Spanned<Command<N>>> {
    if config.insert_progress {
        let base = base_program(p, config.trust_existing_m73);
        with_markers(base, timing_of(stats), config.trust_existing_m73, base.len() as int)
    } else {
        p
    }
}

/// What the insertion of progress markers finds.
pub open spec fn findings_of_progress<N: Scalar>(
    p: Seq<Spanned<Command<N>>>,
    config: OptConfig,
    stats: Stats<N>,
) -> Seq<Finding> {
    if config.insert_progress {
        let base = base_program(p, config.trust_existing_m73);
        marker_notes(base, timing_of(stats), config.trust_existing_m73, base.len() as int)
    } else {
        Seq::empty()
    }
}

/// The options that the stages depend on.
pub struct Plan<N> {
    /// What the optimizer is to do.
    pub opt: OptConfig,
    /// What arc fitting is to do.
    pub arcs: ArcFitConfig<N>,
    /// The travel limits, if known.
    pub limits: Option<MachineLimits<N>>,
    /// The dialect, if given.
    pub dialect: Option<SlicerDialect>,
    /// The least time of a layer, if one is asked for.
    pub min_layer_time: Option<N>,
}

impl<N: Scalar> Plan<N> {
    /// The program before optimization.
    pub open spec fn fitted_program(self, p: Seq<Spanned<Command<N>>>) -> Seq<
        Spanned<Command<N>>,
    > {
        after_arcs(after_merge(p, self.opt), self.arcs)
    }

    /// The program after all stages.
    pub open spec fn result(self, p: Seq<Spanned<Command<N>>>) -> Seq<Spanned<Command<N>>> {
        after_progress(
            after_optimize(self.fitted_program(p), self.opt),
            self.opt,
            simulation(p, self.limits).stats,
        )
    }

    /// The changes of all stages.
    pub open spec fn changes(self, p: Seq<Spanned<Command<N>>>) -> Seq<Change> {
        changes_of_merge(p, self.opt) + changes_of_arcs(after_merge(p, self.opt), self.arcs)
            + changes_of_optimize(self.fitted_program(p), self.opt)
    }

    /// The errors that the stages introduce.
    pub open spec fn new_errors(self, p: Seq<Spanned<Command<N>>>) -> Seq<Finding> {
        unmatched_errors(
            analysis_findings(self.result(p), self.limits),
            analysis_findings(p, self.limits),
        )
    }

    /// Everything that is reported.
    pub open spec fn found(self, p: Seq<Spanned<Command<N>>>) -> Seq<Finding> {
        let after = simulation(self.result(p), self.limits);
        analysis_findings(self.result(p), self.limits) + findings_of_arcs(
            after_merge(p, self.opt),
            self.arcs,
        ) + findings_of_progress(
            after_optimize(self.fitted_program(p), self.opt),
            self.opt,
            simulation(p, self.limits).stats,
        ) + dialect_findings(p, verdict(p, self.dialect), self.dialect is Some) + (
        match self.min_layer_time {
            Some(threshold) => short_layer_warnings(
                after.stats.per_layer_times,
                threshold,
                after.stats.per_layer_times.len() as int,
            ),
            None => Seq::empty(),
        })
    }
}

// ── Short layers ──────────────────────────────────────────────────────────────

/// The warning about a layer that takes less time than it should.
pub open spec fn short_layer_warning<N: Scalar>(layer: nat, time: N, threshold: N) -> Finding {
    Finding {
        severity: Severity::Warning,
        line: 0,
        code: "W003"@,
        message: "layer "@ + decimal(layer) + " print time "@ + time.fixed_spec(1)
            + "s is below minimum "@ + threshold.display_spec() + "s"@,
    }
}

/// The warnings about those of the first `n` layers that take less time than they should.
pub open spec fn short_layer_warnings<N: Scalar>(
    times: Seq<N>,
    threshold: N,
    n: int,
) -> Seq<Finding>
    decreases n,
{
    if n <= 0 {
        Seq::empty()
    } else if times[n - 1].less_spec(threshold) {
        short_layer_warnings(times, threshold, n - 1).push(
            short_layer_warning(n as nat, times[n - 1], threshold),
        )
    } else {
        short_layer_warnings(times, threshold, n - 1)
    }
}

/// Appends a warning (`W003`) for every layer that takes less than `threshold` seconds.
pub fn warn_about_short_layers<N: Scalar>(
    times: &Vec<N>,
    threshold: N,
    diagnostics: &mut Vec<Diagnostic>,
)
    ensures
        findings(final(diagnostics)@) == findings(old(diagnostics)@) + short_layer_warnings(
            times@,
            threshold,
            times.len() as int,
        ),
{
    let ghost before = findings(diagnostics@);
    let mut i: usize = 0;
    proof {
        assert(findings(diagnostics@) =~= before + short_layer_warnings(times@, threshold, 0));
    }
    while i < times.len()
        invariant
            i <= times.len(),
            findings(diagnostics@) == before + short_layer_warnings(
                times@,
                threshold,
                i as int,
            ),
        decreases times.len() - i,
    {
        let ghost held = findings(diagnostics@);
        if times[i].less(threshold) {
            let mut message = String::new();
            push_text(&mut message, "layer ");
            push_decimal(&mut message, i as u64 + 1);
            push_text(&mut message, " print time ");
            push_text(&mut message, times[i].fixed(1).as_str());
            push_text(&mut message, "s is below minimum ");
            push_text(&mut message, threshold.display().as_str());
            push_text(&mut message, "s");
            let warning = Diagnostic {
                severity: Severity::Warning,
                line: 0,
                code: "W003",
                message,
            };
            diagnostics.push(warning);
            proof {
                assert(warning@ == short_layer_warning((i + 1) as nat, times[i as int], threshold));
                assert(findings(diagnostics@) =~= held.push(warning@));
            }
        }
        i = i + 1;
        proof {
            assert(findings(diagnostics@) =~= before + short_layer_warnings(
                times@,
                threshold,
                i as int,
            ));
        }
    }
}

// ── The run ───────────────────────────────────────────────────────────────────

/// What a run with the given options is to do.
pub open spec fn plan_of<N: Scalar>(cli: Cli<N>, limits: Option<MachineLimits<N>>) -> Plan<N> {
    Plan {
        opt: cli.opt_config_spec(),
        arcs: cli.arc_config_spec(),
        limits,
        dialect: match cli.dialect {
            Some(dialect) => Some(dialect.dialect_spec()),
            None => None,
        },
        min_layer_time: cli.min_layer_time,
    }
}

/// Why a run yields nothing.
#[derive(Debug)]
pub enum PipelineError {
    /// A line cannot be read.
    Parse(ParseError),
    /// The arc tolerance is of no use.
    Tolerance(String),
    /// The optimizer introduced errors.
    Regression(Vec<Diagnostic>),
}

/// What a run yields.
#[derive(Debug)]
pub struct Processed<'a, N> {
    /// The commands after all stages.
    pub commands: Vec<Spanned<GCodeCommand<'a, N>>>,
    /// The report.
    pub report: AnalysisReport<N>,
}

/// Only commands other than progress markers begin layers.
pub proof fn lemma_markers_begin_no_layers<N: Scalar>(
    p: Seq<Spanned<Command<N>>>,
    limits: Option<MachineLimits<N>>,
    n: int,
)
    requires
        0 <= n <= p.len(),
    ensures
        simulate(p, limits, n).stats.layer_count <= plain_count(p, n),
    decreases n,
{
    if n > 0 {
        lemma_markers_begin_no_layers(p, limits, n - 1);
    }
}

/// No stage makes a program longer, but for progress markers: a program of at
/// most `bound` commands has at most `bound` layers after all stages.
pub proof fn lemma_result_is_bounded<N: Scalar>(
    plan: Plan<N>,
    p: Seq<Spanned<Command<N>>>,
    limits: Option<MachineLimits<N>>,
)
    ensures
        after_optimize(plan.fitted_program(p), plan.opt).len() <= p.len(),
        simulation(plan.result(p), limits).stats.layer_count <= p.len(),
{
    lemma_collinear_runs_in_order(p);
    lemma_merge_shortens(p, collinear_runs(p), p.len() as int);
    let q = after_merge(p, plan.opt);
    lemma_fit_shortens(q, plan.arcs.tolerance_mm);
    let r = plan.fitted_program(p);
    lemma_kept_shortens(r, plan.opt, r.len() as int);
    let s = after_optimize(r, plan.opt);
    let out = plan.result(p);
    if plan.opt.insert_progress {
        let base = base_program(s, plan.opt.trust_existing_m73);
        lemma_filter_shortens(s);
        lemma_markers_add_no_layers(
            base,
            timing_of(simulation(p, plan.limits).stats),
            plan.opt.trust_existing_m73,
            base.len() as int,
        );
        lemma_markers_begin_no_layers(out, limits, out.len() as int);
    } else {
        lemma_layers_grow(out, limits, 0, out.len() as int);
    }
}

proof fn lemma_filter_shortens<N>(p: Seq<Spanned<Command<N>>>)
    ensures
        p.filter(no_marker()).len() <= p.len(),
    decreases p.len(),
{
    reveal(Seq::filter);
    if p.len() > 0 {
        lemma_filter_shortens(p.drop_last());
    }
}

fn append_findings(list: &mut Vec<Diagnostic>, more: Vec<Diagnostic>)
    ensures
        findings(final(list)@) == findings(old(list)@) + findings(more@),
{
    let ghost added = more@;
    let mut rest = more;
    list.append(&mut rest);
    proof {
        assert(list@ =~= old(list)@ + added);
        assert(findings(list@) =~= findings(old(list)@) + findings(added));
    }
}

fn append_changes(list: &mut Vec<OptimizationChange>, more: Vec<OptimizationChange>)
    ensures
        change_log(final(list)@) == change_log(old(list)@) + change_log(more@),
{
    let ghost added = more@;
    let mut rest = more;
    list.append(&mut rest);
    proof {
        assert(list@ =~= old(list)@ + added);
        assert(change_log(list@) =~= change_log(old(list)@) + change_log(added));
    }
}

/// Processes the text of a program.
///
/// The program is parsed, analysed, merged, fitted with arcs, optimised, given
/// progress markers, and analysed again, as far as the options ask for it.  The
/// run fails where a line cannot be read, where the arc tolerance is of no use,
/// and where the second analysis shows errors that the first did not.
#[verifier::rlimit(20)]
pub fn run<'a, N: Scalar>(
    input: &'a str,
    cli: &Cli<N>,
    limits: Option<&MachineLimits<N>>,
) -> (result: Result<Processed<'a, N>, PipelineError>)
    requires
        source_lines(input@, 0).len() < u32::MAX,
    ensures
        match first_fault(read_lines::<N>(input@)) {
            Some(fault) => result matches Err(PipelineError::Parse(error)) && error@ == fault,
            None => {
                let p = parsed::<N>(input@);
                let plan = plan_of(*cli, limits_of(limits));
                if !plan.arcs.is_valid() {
                    result matches Err(PipelineError::Tolerance(message)) && message@
                        == "arc tolerance must be a finite number greater than 0 mm, got "@
                        + plan.arcs.tolerance_mm.display_spec()
                } else if plan.new_errors(p).len() > 0 {
                    result matches Err(PipelineError::Regression(errors)) && findings(errors@)
                        == plan.new_errors(p)
                } else {
                    result matches Ok(done) && {
                        &&& program(done.commands@) == plan.result(p)
                        &&& done.report@.diagnostics == plan.found(p)
                        &&& done.report@.stats == simulation(plan.result(p), plan.limits).stats
                        &&& done.report@.changes == plan.changes(p)
                        &&& done.report@.dry_run == plan.opt.dry_run
                        &&& done.report@.slicer == Some(metadata_for(p, verdict(p, plan.dialect)))
                    }
                }
            },
        },
{
    let ghost plan = plan_of(*cli, limits_of(limits));
    let commands = match parse_all::<N>(input) {
        Ok(commands) => commands,
        Err(error) => {
            return Err(PipelineError::Parse(error));
        },
    };
    let ghost p = parsed::<N>(input@);
    proof {
        assert(program(commands@) =~= p);
        lemma_layers_grow(p, limits_of(limits), 0, p.len() as int);
        lemma_result_is_bounded(plan, p, limits_of(limits));
    }
    let opt_config = cli.opt_config();
    let arc_config = cli.arc_config();
    if let Err(message) = arc_config.validate() {
        return Err(PipelineError::Tolerance(message));
    }
    let before = analyze(commands.as_slice(), limits);
    let given = match cli.dialect {
        Some(dialect) => Some(dialect.to_slicer_dialect()),
        None => None,
    };
    let slicer = detect_dialect(commands.as_slice(), given);
    let merge = merge_collinear(commands, &opt_config);
    let arcs = fit_arcs(merge.commands, &arc_config);
    let optimized = optimize(arcs.commands, &opt_config);
    let progress = insert_progress_markers(
        optimized.commands,
        before.stats.estimated_time_seconds,
        before.stats.layer_count,
        before.stats.per_layer_times.as_slice(),
        &opt_config,
    );
    proof {
        assert(program(progress.commands@) =~= plan.result(p));
    }
    let after = analyze(progress.commands.as_slice(), limits);
    let diff = ValidationDiff::compute(
        before.diagnostics.as_slice(),
        after.diagnostics.as_slice(),
    );
    proof {
        assert(findings(diff.new_errors@) == plan.new_errors(p));
        assert(findings(diff.new_errors@).len() == diff.new_errors.len());
    }
    if diff.regression_detected {
        return Err(PipelineError::Regression(diff.new_errors));
    }
    let mut changes = merge.changes;
    proof {
        assert(change_log(changes@) =~= changes_of_merge(p, plan.opt));
        assert(change_log(arcs.changes@) =~= changes_of_arcs(
            after_merge(p, plan.opt),
            plan.arcs,
        ));
        assert(findings(arcs.diagnostics@) =~= findings_of_arcs(
            after_merge(p, plan.opt),
            plan.arcs,
        ));
        assert(findings(progress.diagnostics@) =~= findings_of_progress(
            after_optimize(plan.fitted_program(p), plan.opt),
            plan.opt,
            simulation(p, plan.limits).stats,
        ));
    }
    append_changes(&mut changes, arcs.changes);
    append_changes(&mut changes, optimized.changes);
    let mut diagnostics = after.diagnostics;
    append_findings(&mut diagnostics, arcs.diagnostics);
    append_findings(&mut diagnostics, progress.diagnostics);
    append_findings(&mut diagnostics, slicer.diagnostics);
    if let Some(threshold) = cli.min_layer_time {
        warn_about_short_layers(&after.stats.per_layer_times, threshold, &mut diagnostics);
    }
    proof {
        assert(findings(diagnostics@) =~= plan.found(p));
        assert(change_log(changes@) =~= plan.changes(p));
    }
    let report = AnalysisReport {
        diagnostics,
        stats: after.stats,
        changes,
        dry_run: opt_config.dry_run,
        slicer: Some(slicer.metadata),
    };
    Ok(Processed { commands: progress.commands, report })
}

// ── What follows the run ──────────────────────────────────────────────────────

/// What is to be done once the report has been shown.
#[derive(Debug, PartialEq, Eq)]
pub enum Conclusion {
    /// Print the report as JSON to standard output.
    PrintJson,
    /// Print the report as JSON to standard output, and fail: a check found this
    /// many errors.
    PrintJsonAndFail(usize),
    /// Fail: a check found this many errors.
    Fail(usize),
    /// Write the G-code.
    WriteGCode,
    /// Nothing.
    Done,
}

/// What is to be done once the report has been shown.
pub fn conclude<N: Scalar>(cli: &Cli<N>, report: &AnalysisReport<N>) -> (result: Conclusion)
    ensures
        if cli.is_dry_run_spec() && (exists|i: int|
            0 <= i < report.diagnostics.len() && report.diagnostics[i].severity
                == Severity::Error) {
            if cli.prints_json_spec() {
                result matches Conclusion::PrintJsonAndFail(errors) && errors == count_spec(
                    report@.diagnostics,
                    Severity::Error,
                )
            } else {
                result matches Conclusion::Fail(errors) && errors == count_spec(
                    report@.diagnostics,
                    Severity::Error,
                )
            }
        } else if cli.prints_json_spec() {
            result == Conclusion::PrintJson
        } else if cli.check_only {
            result == Conclusion::Done
        } else {
            result == Conclusion::WriteGCode
        },
{
    if cli.is_dry_run() && report.has_errors() {
        let errors: usize = report.count_at_least(Severity::Error);
        if cli.prints_json() {
            Conclusion::PrintJsonAndFail(errors)
        } else {
            Conclusion::Fail(errors)
        }
    } else if cli.prints_json() {
        Conclusion::PrintJson
    } else if cli.check_only {
        Conclusion::Done
    } else {
        Conclusion::WriteGCode
    }
}

// ── Laws ──────────────────────────────────────────────────────────────────────

/// A run that succeeds introduces no errors: every error that the program has
/// after all stages, it had before, with the same code at the same line.
pub proof fn lemma_success_introduces_no_errors<N: Scalar>(
    plan: Plan<N>,
    p: Seq<Spanned<Command<N>>>,
)
    requires
        plan.new_errors(p).len() == 0,
    ensures
        forall|i: int|
            0 <= i < analysis_findings(plan.result(p), plan.limits).len() && (
            #[trigger] analysis_findings(plan.result(p), plan.limits)[i]).severity
                == Severity::Error ==> has_match(
                analysis_findings(plan.result(p), plan.limits)[i],
                analysis_findings(p, plan.limits),
            ),
{
    lemma_unmatched_sound(
        analysis_findings(plan.result(p), plan.limits),
        analysis_findings(p, plan.limits),
    );
}

/// A dry run without arc fitting and without progress markers leaves the
/// program as it is, and introduces no errors.
pub proof fn lemma_dry_run_leaves_the_program<N: Scalar>(
    plan: Plan<N>,
    p: Seq<Spanned<Command<N>>>,
)
    requires
        plan.opt.dry_run,
        !plan.arcs.enabled,
        !plan.opt.insert_progress,
    ensures
        plan.result(p) == p,
        plan.new_errors(p).len() == 0,
{
    lemma_no_regression_against_itself(analysis_findings(p, plan.limits));
}

/// Whether a command announces a layer.
pub open spec fn announcement<N>() -> spec_fn(Spanned<Command<N>>) -> bool {
    |s: Spanned<Command<N>>| is_layer_comment(s.inner)
}

proof fn lemma_filter_refines<A>(s: Seq<A>, coarse: spec_fn(A) -> bool, fine: spec_fn(A) -> bool)
    requires
        forall|a: A| #[trigger] fine(a) ==> coarse(a),
    ensures
        s.filter(coarse).filter(fine) == s.filter(fine),
    decreases s.len(),
{
    reveal(Seq::filter);
    if s.len() > 0 {
        lemma_filter_refines(s.drop_last(), coarse, fine);
        let rest = s.drop_last().filter(coarse);
        if coarse(s.last()) {
            assert(rest.push(s.last()).drop_last() =~= rest);
        }
    }
}

proof fn lemma_announcements_counted<N>(p: Seq<Spanned<Command<N>>>, n: int)
    requires
        0 <= n <= p.len(),
    ensures
        layer_comments(p, n) == p.take(n).filter(announcement()).len(),
    decreases n,
{
    reveal(Seq::filter);
    if n > 0 {
        lemma_announcements_counted(p, n - 1);
        assert(p.take(n).drop_last() =~= p.take(n - 1));
        assert(p.take(n).last() == p[n - 1]);
    }
}

/// Whether no stage is about commands of this form: comments, unknown lines,
/// G92, G-codes that are no moves, and M-codes that set neither the fan nor a
/// temperature nor the progress.
pub open spec fn is_untouched<N>(command: Command<N>) -> bool {
    match command {
        Command::Comment { .. }
        | Command::Unknown { .. }
        | Command::GCommand { .. }
        | Command::SetPosition { .. } => true,
        Command::MetaCommand { .. } => is_out_of_scope(command) && !is_marker(command),
        _ => false,
    }
}

/// Whether no stage is about a command.
pub open spec fn untouched<N>() -> spec_fn(Spanned<Command<N>>) -> bool {
    |s: Spanned<Command<N>>| is_untouched(s.inner)
}

proof fn lemma_optimization_keeps_untouched<N: Scalar>(
    p: Seq<Spanned<Command<N>>>,
    config: OptConfig,
    n: int,
)
    requires
        0 <= n <= p.len(),
    ensures
        kept(p, config, n).filter(untouched()) == p.take(n).filter(untouched()),
    decreases n,
{
    reveal(Seq::filter);
    if n > 0 {
        lemma_optimization_keeps_untouched(p, config, n - 1);
        assert(p.take(n).drop_last() =~= p.take(n - 1));
        assert(p.take(n).last() == p[n - 1]);
        let before = kept(p, config, n - 1);
        let after = kept(p, config, n);
        if is_untouched(p[n - 1].inner) {
            lemma_other_commands_stay(p, config, n - 1);
            assert(after =~= before.push(p[n - 1]));
            assert(after.drop_last() =~= before);
        } else if !is_removed(p, config, n - 1) {
            lemma_only_feedrates_change(p, config, n - 1);
            assert(after.drop_last() =~= before);
            assert(!is_untouched(effective(p, config, n - 1)));
        }
    } else {
        assert(kept(p, config, n) =~= p.take(n));
    }
}

/// Comments, unknown lines, and all commands that no stage is about pass through
/// all stages unchanged, in their order, with their places in the source.
pub proof fn lemma_other_commands_pass_through<N: Scalar>(
    plan: Plan<N>,
    p: Seq<Spanned<Command<N>>>,
)
    ensures
        plan.result(p).filter(untouched()) == p.filter(untouched()),
{
    let q = after_merge(p, plan.opt);
    assert(q.filter(untouched()) == p.filter(untouched())) by {
        lemma_only_linear_moves_merge(p);
        lemma_filter_refines(p, no_linear(), untouched());
        lemma_filter_refines(q, no_linear(), untouched());
    }
    let r = plan.fitted_program(p);
    assert(r.filter(untouched()) == q.filter(untouched())) by {
        lemma_fit_keeps_other_commands(q, plan.arcs.tolerance_mm);
        lemma_filter_refines(q, no_curve(), untouched());
        lemma_filter_refines(r, no_curve(), untouched());
    }
    let s = after_optimize(r, plan.opt);
    assert(s.filter(untouched()) == r.filter(untouched())) by {
        lemma_optimization_keeps_untouched(r, plan.opt, r.len() as int);
        assert(r.take(r.len() as int) =~= r);
    }
    let out = plan.result(p);
    assert(out.filter(untouched()) == s.filter(untouched())) by {
        lemma_progress_keeps_other_commands(
            s,
            timing_of(simulation(p, plan.limits).stats),
            plan.opt.trust_existing_m73,
        );
        lemma_filter_refines(s, no_marker(), untouched());
        lemma_filter_refines(out, no_marker(), untouched());
    }
}

/// No layer is merged or dropped: where comments announce the layers, there are
/// as many layers after all stages as before.
pub proof fn lemma_layers_are_kept<N: Scalar>(
    plan: Plan<N>,
    p: Seq<Spanned<Command<N>>>,
    limits: Option<MachineLimits<N>>,
)
    requires
        announces_layers(p),
    ensures
        simulation(plan.result(p), limits).stats.layer_count == simulation(
            p,
            limits,
        ).stats.layer_count,
{
    let out = plan.result(p);
    lemma_other_commands_pass_through(plan, p);
    lemma_filter_refines(p, untouched(), announcement());
    lemma_filter_refines(out, untouched(), announcement());
    lemma_announcements_counted(p, p.len() as int);
    lemma_announcements_counted(out, out.len() as int);
    assert(p.take(p.len() as int) =~= p);
    assert(out.take(out.len() as int) =~= out);
    lemma_announced_layers_count(p, limits, p.len() as int);
    let i = choose|i: int| 0 <= i < p.len() && is_layer_comment((#[trigger] p[i]).inner);
    p.lemma_filter_contains(announcement(), i);
    assert(out.filter(announcement()).contains(p[i]));
    out.lemma_filter_contains_rev(announcement(), p[i]);
    assert(announces_layers(out));
    lemma_announced_layers_count(out, limits, out.len() as int);
}

} // verus!
