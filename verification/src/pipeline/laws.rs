//! What a run reports, told from its parts.

use vstd::prelude::*;

use crate::analyzer::{analysis_findings, simulation};
use crate::cli::{Cli, ReportFormat};
use crate::diagnostics::{lemma_unmatched_sound, unmatched_errors, Change, Finding, Severity};
use crate::dialect::{dialect_findings, verdict};
use crate::models::{Command, MachineLimits, Spanned};
use crate::pipeline::{
    after_merge, after_optimize, changes_of_arcs, changes_of_merge, changes_of_optimize,
    findings_of_arcs, findings_of_progress, plan_of, short_layer_warnings, Plan,
};
use crate::scalar::Scalar;
use crate::text::decimal;

verus! {

// ── Short layers ──────────────────────────────────────────────────────────────

/// The number of those of the first `n` layers that take less than the threshold.
pub open spec fn short_layers<N: Scalar>(times: Seq<N>, threshold: N, n: int) -> nat
    decreases n,
{
    if n <= 0 {
        0
    } else {
        short_layers(times, threshold, n - 1) + (if times[n - 1].less_spec(threshold) {
            1nat
        } else {
            0nat
        })
    }
}

/// The words with which the warning about layer `k` begins; layers count from one.
pub open spec fn layer_words(k: int) -> Seq<char> {
    "layer "@ + decimal((k + 1) as nat) + " print time "@
}

/// Whether one of the warnings is about layer `k`.
pub open spec fn warns_about(found: Seq<Finding>, k: int) -> bool {
    exists|i: int|
        0 <= i < found.len() && (#[trigger] found[i]).code == "W003"@ && found[i].severity
            == Severity::Warning && found[i].message.len() >= layer_words(k).len()
            && found[i].message.take(layer_words(k).len() as int) == layer_words(k)
}

/// There is a warning for each layer that takes less than the threshold, and no other.
pub proof fn lemma_short_layers_are_warned_about<N: Scalar>(
    times: Seq<N>,
    threshold: N,
    n: int,
)
    requires
        0 <= n <= times.len(),
    ensures
        short_layer_warnings(times, threshold, n).len() == short_layers(times, threshold, n),
        forall|k: int|
            0 <= k < n && (#[trigger] times[k]).less_spec(threshold) ==> warns_about(
                short_layer_warnings(times, threshold, n),
                k,
            ),
    decreases n,
{
    if n > 0 {
        lemma_short_layers_are_warned_about(times, threshold, n - 1);
        let before = short_layer_warnings(times, threshold, n - 1);
        let now = short_layer_warnings(times, threshold, n);
        assert forall|k: int|
            0 <= k < n && (#[trigger] times[k]).less_spec(threshold)
                implies warns_about(now, k) by {
            if k < n - 1 {
                let i = choose|i: int|
                    0 <= i < before.len() && (#[trigger] before[i]).code == "W003"@
                        && before[i].severity == Severity::Warning && before[i].message.len()
                        >= layer_words(k).len() && before[i].message.take(
                        layer_words(k).len() as int,
                    ) == layer_words(k);
                assert(now[i] == before[i]);
            } else {
                let last = now[now.len() - 1];
                let words = layer_words(k);
                assert(last.message =~= words + (times[k].fixed_spec(1) + "s is below minimum "@
                    + threshold.display_spec() + "s"@));
                assert(last.message.take(words.len() as int) =~= words);
            }
        }
    }
}

// ── Reports ───────────────────────────────────────────────────────────────────

/// Whether all of `part` is in `all`.
pub open spec fn holds_all<A>(all: Seq<A>, part: Seq<A>) -> bool {
    forall|i: int| 0 <= i < part.len() ==> all.contains(#[trigger] part[i])
}

proof fn lemma_holds_part<A>(a: Seq<A>, b: Seq<A>, c: Seq<A>)
    ensures
        holds_all(a + b + c, b),
{
    assert forall|i: int| 0 <= i < b.len() implies (a + b + c).contains(#[trigger] b[i]) by {
        assert((a + b + c)[a.len() + i] == b[i]);
    }
}

proof fn lemma_holds_five_parts<A>(a: Seq<A>, b: Seq<A>, c: Seq<A>, d: Seq<A>, e: Seq<A>)
    ensures
        holds_all(a + b + c + d + e, a),
        holds_all(a + b + c + d + e, b),
        holds_all(a + b + c + d + e, c),
        holds_all(a + b + c + d + e, d),
        holds_all(a + b + c + d + e, e),
{
    let all = a + b + c + d + e;
    let none = Seq::<A>::empty();
    assert(all =~= none + a + (b + c + d + e));
    assert(all =~= a + b + (c + d + e));
    assert(all =~= (a + b) + c + (d + e));
    assert(all =~= (a + b + c + d) + e + none);
    lemma_holds_part(none, a, b + c + d + e);
    lemma_holds_part(a, b, c + d + e);
    lemma_holds_part(a + b, c, d + e);
    lemma_holds_part(a + b + c, d, e);
    lemma_holds_part(a + b + c + d, e, none);
}

/// The report holds everything: what an analysis of the result finds, what arc fitting
/// warns about, the notes on markers and on the dialect, and the warnings about short
/// layers, where they are asked for.
pub proof fn lemma_report_holds_everything<N: Scalar>(
    plan: Plan<N>,
    p: Seq<Spanned<Command<N>>>,
)
    ensures
        holds_all(plan.found(p), analysis_findings(plan.result(p), plan.limits)),
        holds_all(plan.found(p), findings_of_arcs(after_merge(p, plan.opt), plan.arcs)),
        holds_all(
            plan.found(p),
            findings_of_progress(
                after_optimize(plan.fitted_program(p), plan.opt),
                plan.opt,
                simulation(p, plan.limits).stats,
            ),
        ),
        holds_all(
            plan.found(p),
            dialect_findings(p, verdict(p, plan.dialect), plan.dialect is Some),
        ),
        plan.min_layer_time matches Some(threshold) ==> holds_all(
            plan.found(p),
            short_layer_warnings(
                simulation(plan.result(p), plan.limits).stats.per_layer_times,
                threshold,
                simulation(plan.result(p), plan.limits).stats.per_layer_times.len() as int,
            ),
        ),
{
    let a = analysis_findings(plan.result(p), plan.limits);
    let b = findings_of_arcs(after_merge(p, plan.opt), plan.arcs);
    let c = findings_of_progress(
        after_optimize(plan.fitted_program(p), plan.opt),
        plan.opt,
        simulation(p, plan.limits).stats,
    );
    let d = dialect_findings(p, verdict(p, plan.dialect), plan.dialect is Some);
    let times = simulation(plan.result(p), plan.limits).stats.per_layer_times;
    let e = match plan.min_layer_time {
        Some(threshold) => short_layer_warnings(times, threshold, times.len() as int),
        None => Seq::empty(),
    };
    lemma_holds_five_parts(a, b, c, d, e);
}

/// The report holds the changes of every stage.
pub proof fn lemma_report_holds_every_change<N: Scalar>(
    plan: Plan<N>,
    p: Seq<Spanned<Command<N>>>,
)
    ensures
        holds_all(plan.changes(p), changes_of_merge(p, plan.opt)),
        holds_all(plan.changes(p), changes_of_arcs(after_merge(p, plan.opt), plan.arcs)),
        holds_all(plan.changes(p), changes_of_optimize(plan.fitted_program(p), plan.opt)),
        plan.changes(p).len() == changes_of_merge(p, plan.opt).len() + changes_of_arcs(
            after_merge(p, plan.opt),
            plan.arcs,
        ).len() + changes_of_optimize(plan.fitted_program(p), plan.opt).len(),
{
    let a = changes_of_merge(p, plan.opt);
    let b = changes_of_arcs(after_merge(p, plan.opt), plan.arcs);
    let c = changes_of_optimize(plan.fitted_program(p), plan.opt);
    let none = Seq::<Change>::empty();
    assert(plan.changes(p) =~= none + a + (b + c));
    assert(plan.changes(p) =~= a + b + c);
    assert(plan.changes(p) =~= (a + b) + c + none);
    lemma_holds_part(none, a, b + c);
    lemma_holds_part(a, b, c);
    lemma_holds_part(a + b, c, none);
}

/// An error is new exactly if no error before it has both its code and its line: the
/// errors that a run introduces are those of the result that the program did not have.
pub proof fn lemma_new_errors_are_those_that_were_not_there<N: Scalar>(
    plan: Plan<N>,
    p: Seq<Spanned<Command<N>>>,
    d: Finding,
)
    ensures
        plan.new_errors(p).contains(d) <==> {
            let before = analysis_findings(p, plan.limits);
            &&& analysis_findings(plan.result(p), plan.limits).contains(d)
            &&& d.severity == Severity::Error
            &&& forall|j: int|
                0 <= j < before.len() ==> !((#[trigger] before[j]).severity == Severity::Error
                    && before[j].code == d.code && before[j].line == d.line)
        },
{
    let before = analysis_findings(p, plan.limits);
    let after = analysis_findings(plan.result(p), plan.limits);
    lemma_unmatched_sound(after, before);
    let new = unmatched_errors(after, before);
    if new.contains(d) {
        let i = choose|i: int| 0 <= i < new.len() && new[i] == d;
        assert(new[i] == d);
    }
    if after.contains(d) {
        let j = choose|j: int| 0 <= j < after.len() && after[j] == d;
        assert(after[j] == d);
    }
}

// ── Options ───────────────────────────────────────────────────────────────────

/// Every option reaches the stage that it is for.
pub proof fn lemma_options_reach_their_stages<N: Scalar>(
    cli: Cli<N>,
    limits: Option<MachineLimits<N>>,
)
    ensures
        ({
            let plan = plan_of(cli, limits);
            let only_report = cli.check_only || (cli.report_format
                == ReportFormat::Json && cli.report_file is None);
            &&& plan.opt.dry_run == only_report
            &&& plan.opt.merge_collinear == cli.merge_collinear
            &&& plan.opt.insert_progress == cli.insert_progress
            &&& plan.opt.no_travel_merge == cli.no_travel_merge
            &&& plan.opt.no_feedrate_strip == cli.no_feedrate_strip
            &&& plan.opt.trust_existing_m73 == cli.trust_existing_m73
            &&& plan.arcs.enabled == cli.arc_fit
            &&& cli.arc_tolerance matches Some(t) ==> plan.arcs.tolerance_mm == t
            &&& plan.limits == limits
            &&& plan.min_layer_time == cli.min_layer_time
            &&& plan.dialect is Some == cli.dialect is Some
        }),
{
}

/// An explicit limit comes before that of the base, axis by axis.
pub proof fn lemma_explicit_limits_win<N: Scalar>(cli: Cli<N>, base: MachineLimits<N>)
    ensures
        cli.limits_over(base).max_x == (match cli.max_x {
            Some(v) => v,
            None => base.max_x,
        }),
        cli.limits_over(base).max_y == (match cli.max_y {
            Some(v) => v,
            None => base.max_y,
        }),
        cli.limits_over(base).max_z == (match cli.max_z {
            Some(v) => v,
            None => base.max_z,
        }),
{
}

} // verus!
