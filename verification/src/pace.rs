//! That feedrates can be stripped without a trace: an analysis shows the same.

use vstd::prelude::*;

use crate::analyzer::{analysis_findings, simulate, simulation, Simulated};
use crate::geometry::{length, vector};
use crate::models::{Command, MachineLimits, Spanned};
use crate::optimizer::laws::loses_nothing;
use crate::optimizer::progress::{announces_layers, is_layer_comment};
use crate::optimizer::{
    axes_of, effective, is_removed, is_straight, kept, state_at, strip_at, OptConfig,
};
use crate::scalar::{value_or, Scalar};
use crate::tower::hint_from;

verus! {

/// The program as rule 8 leaves it, with no command removed.
pub open spec fn stripped<N: Scalar>(p: Seq<Spanned<Command<N>>>, config: OptConfig) -> Seq<
    Spanned<Command<N>>,
> {
    Seq::new(
        p.len(),
        |i: int|
            Spanned {
                inner: effective(p, config, i),
                line: p[i].line,
                byte_offset: p[i].byte_offset,
            },
    )
}

proof fn lemma_straight_feed<N: Scalar>(
    s: Simulated<N>,
    line: u32,
    x: Option<N>,
    y: Option<N>,
    z: Option<N>,
    e: Option<N>,
    f: Option<N>,
    climbs: bool,
    announced: bool,
    limits: Option<MachineLimits<N>>,
)
    ensures
        s.after_straight(line, x, y, z, e, f, climbs, announced, limits).feedrate == value_or(
            f,
            s.feedrate,
        ),
{
    let dest = s.destination(x, y, z);
    let ready = s.with_feed(f).heading(line, dest, limits).extruded(line, e);
    assert(ready.feedrate == value_or(f, s.feedrate));
    let raised = if climbs {
        ready.climbed(line, z, dest, announced)
    } else {
        ready
    };
    assert(raised.feedrate == ready.feedrate);
    assert(raised.travelled(length(vector(s.pos, dest))).feedrate == raised.feedrate);
}

proof fn lemma_arc_feed<N: Scalar>(
    s: Simulated<N>,
    line: u32,
    x: Option<N>,
    y: Option<N>,
    z: Option<N>,
    e: Option<N>,
    f: Option<N>,
    i: Option<N>,
    j: Option<N>,
    clockwise: bool,
    limits: Option<MachineLimits<N>>,
)
    ensures
        s.after_arc(line, x, y, z, e, f, i, j, clockwise, limits).feedrate == value_or(
            f,
            s.feedrate,
        ),
{
    let dest = s.destination(x, y, z);
    let ready = s.with_feed(f).heading(line, dest, limits).extruded(line, e);
    assert(ready.feedrate == value_or(f, s.feedrate));
    let arc = s.arc(dest, i, j, clockwise);
    let a = ready.travelled(arc.len_spec()).boxed(dest);
    assert(a.feedrate == ready.feedrate);
    let b = a.bulged(arc, 0, dest.z);
    assert(b.feedrate == a.feedrate);
    let c = b.bulged(arc, 1, dest.z);
    assert(c.feedrate == b.feedrate);
    let d = c.bulged(arc, 2, dest.z);
    assert(d.feedrate == c.feedrate);
    assert(d.bulged(arc, 3, dest.z).feedrate == d.feedrate);
}

/// Where the optimizer knows the feedrate in force, the analysis has it too.
proof fn lemma_feedrate_is_tracked<N: Scalar>(
    p: Seq<Spanned<Command<N>>>,
    limits: Option<MachineLimits<N>>,
    n: int,
)
    ensures
        state_at(p, n).feedrate matches Some(f) ==> simulate(p, limits, n).feedrate == f,
    decreases n,
{
    if n > 0 {
        lemma_feedrate_is_tracked(p, limits, n - 1);
        let s = simulate(p, limits, n - 1);
        let announced = announces_layers(p);
        let line = p[n - 1].line;
        match p[n - 1].inner {
            Command::RapidMove { x, y, z, f } => {
                lemma_straight_feed(s, line, x, y, z, None, f, false, announced, limits);
            },
            Command::LinearMove { x, y, z, e, f } => {
                lemma_straight_feed(s, line, x, y, z, e, f, true, announced, limits);
            },
            Command::ArcMoveCW { x, y, z, e, f, i, j } => {
                lemma_arc_feed(s, line, x, y, z, e, f, i, j, true, limits);
            },
            Command::ArcMoveCCW { x, y, z, e, f, i, j } => {
                lemma_arc_feed(s, line, x, y, z, e, f, i, j, false, limits);
            },
            _ => {},
        }
    }
}

proof fn lemma_layers_are_announced_alike<N: Scalar>(
    p: Seq<Spanned<Command<N>>>,
    config: OptConfig,
)
    ensures
        announces_layers(stripped(p, config)) == announces_layers(p),
{
    let q = stripped(p, config);
    if announces_layers(p) {
        let i = choose|i: int| 0 <= i < p.len() && is_layer_comment((#[trigger] p[i]).inner);
        assert(is_layer_comment(q[i].inner));
    }
    if announces_layers(q) {
        let i = choose|i: int| 0 <= i < q.len() && is_layer_comment((#[trigger] q[i]).inner);
        assert(is_layer_comment(p[i].inner));
    }
}

proof fn lemma_hints_stay<N: Scalar>(p: Seq<Spanned<Command<N>>>, config: OptConfig, i: int)
    requires
        0 <= i,
    ensures
        hint_from(stripped(p, config), i) == hint_from(p, i),
    decreases p.len() - i,
{
    if i < p.len() {
        lemma_hints_stay(p, config, i + 1);
        assert(stripped(p, config)[i].line == p[i].line);
        assert(p[i].inner is Comment ==> stripped(p, config)[i].inner == p[i].inner);
    }
}

proof fn lemma_stripping_keeps_the_simulation<N: Scalar>(
    p: Seq<Spanned<Command<N>>>,
    config: OptConfig,
    limits: Option<MachineLimits<N>>,
    n: int,
)
    requires
        0 <= n <= p.len(),
        forall|i: int| 0 <= i < p.len() ==> #[trigger] loses_nothing(p, config, i),
    ensures
        simulate(stripped(p, config), limits, n) == simulate(p, limits, n),
    decreases n,
{
    if n > 0 {
        lemma_stripping_keeps_the_simulation(p, config, limits, n - 1);
        lemma_layers_are_announced_alike(p, config);
        let s = simulate(p, limits, n - 1);
        let command = p[n - 1].inner;
        assert(stripped(p, config)[n - 1].inner == effective(p, config, n - 1));
        assert(stripped(p, config)[n - 1].line == p[n - 1].line);
        if let Some(f) = strip_at(p, config, n - 1) {
            assert(loses_nothing(p, config, n - 1));
            lemma_feedrate_is_tracked(p, limits, n - 1);
            assert(is_straight(command));
            assert(axes_of(command)->0.f == Some(f));
            assert(s.with_feed(Some(f)) == s);
            assert(s.with_feed(None) == s);
        }
    }
}

/// Stripping feedrates that are in force changes nothing that an analysis shows:
/// neither the statistics nor any finding.
pub proof fn lemma_stripping_keeps_the_analysis<N: Scalar>(
    p: Seq<Spanned<Command<N>>>,
    config: OptConfig,
    limits: Option<MachineLimits<N>>,
)
    requires
        forall|i: int| 0 <= i < p.len() ==> #[trigger] loses_nothing(p, config, i),
    ensures
        simulation(stripped(p, config), limits) == simulation(p, limits),
        analysis_findings(stripped(p, config), limits) == analysis_findings(p, limits),
{
    lemma_stripping_keeps_the_simulation(p, config, limits, p.len() as int);
    lemma_hints_stay(p, config, 0);
}

/// Where optimization removes no command, all it does is to strip feedrates.
pub proof fn lemma_only_stripped<N: Scalar>(
    p: Seq<Spanned<Command<N>>>,
    config: OptConfig,
    n: int,
)
    requires
        0 <= n <= p.len(),
        forall|i: int| 0 <= i < p.len() ==> !#[trigger] is_removed(p, config, i),
    ensures
        kept(p, config, n) == stripped(p, config).take(n),
    decreases n,
{
    let q = stripped(p, config);
    if n > 0 {
        lemma_only_stripped(p, config, n - 1);
        assert(!is_removed(p, config, n - 1));
        assert(q.take(n) =~= q.take(n - 1).push(q[n - 1]));
    } else {
        assert(kept(p, config, n) =~= q.take(n));
    }
}

} // verus!
