//! Progress markers (M73) at layer boundaries.

pub mod shares;

use std::borrow::Cow;

use vstd::prelude::*;

use crate::diagnostics::{findings, Diagnostic, Finding, Severity};
use crate::fixed::{magnitude, Fixed};
use crate::models::{cow_text, program, Command, GCodeCommand, Spanned};
use crate::optimizer::OptConfig;
use crate::scalar::{ratio, ratio_spec, sum_of, total, zero, zero_spec, Scalar};
use crate::text::{decimal, push_decimal, push_text, same_text};

verus! {

/// The result of inserting progress markers.
#[derive(Debug)]
pub struct ProgressInsertionResult<'a, N> {
    /// The commands with their markers.
    pub commands: Vec<Spanned<GCodeCommand<'a, N>>>,
    /// One `I002` note per inserted marker.
    pub diagnostics: Vec<Diagnostic>,
}

// ── Layer boundaries ──────────────────────────────────────────────────────────

/// Whether the command is a progress marker.
pub open spec fn is_marker<N>(command: Command<N>) -> bool {
    command matches Command::MetaCommand { code, .. } && code == 73
}

/// Whether the command is the comment by which slicers announce a layer.
pub open spec fn is_layer_comment<N>(command: Command<N>) -> bool {
    command matches Command::Comment { text } && text == "LAYER_CHANGE"@
}

/// Whether layers are announced anywhere in the program.
pub open spec fn announces_layers<N>(p: Seq<Spanned<Command<N>>>) -> bool {
    exists|i: int| 0 <= i < p.len() && is_layer_comment((#[trigger] p[i]).inner)
}

/// The Z coordinate that a G0 or G1 leads to, if it names one.
pub open spec fn z_of<N>(command: Command<N>) -> Option<N> {
    match command {
        Command::RapidMove { z, .. } => z,
        Command::LinearMove { z, .. } => z,
        _ => None,
    }
}

/// Heights closer than this are the same: 1e-9 mm.
pub open spec fn height_tolerance<N: Scalar>() -> N {
    ratio_spec(1, 1_000_000_000)
}

/// Whether `z` lies above the last height.
pub open spec fn climbs<N: Scalar>(z: N, last: Option<N>) -> bool {
    last matches Some(height) ==> height.plus_spec(height_tolerance()).less_spec(z)
}

/// The last height among the first `n` commands: the Z of the last move that names one.
pub open spec fn last_height<N: Scalar>(p: Seq<Spanned<Command<N>>>, n: int) -> Option<N>
    decreases n,
{
    if n <= 0 {
        None
    } else {
        match z_of(p[n - 1].inner) {
            Some(z) => Some(z),
            None => last_height(p, n - 1),
        }
    }
}

/// Whether a layer begins at command `i`: with the announcing comment where the
/// program has such comments, and with a climb where it has none.
pub open spec fn is_boundary<N: Scalar>(p: Seq<Spanned<Command<N>>>, i: int) -> bool {
    if announces_layers(p) {
        is_layer_comment(p[i].inner)
    } else {
        z_of(p[i].inner) matches Some(z) && climbs(z, last_height(p, i))
    }
}

/// The number of layers that begin in the first `n` commands.
pub open spec fn boundaries<N: Scalar>(p: Seq<Spanned<Command<N>>>, n: int) -> nat
    decreases n,
{
    if n <= 0 {
        0
    } else if is_boundary(p, n - 1) {
        boundaries(p, n - 1) + 1
    } else {
        boundaries(p, n - 1)
    }
}

// ── Markers ───────────────────────────────────────────────────────────────────

/// The share of the print that layer `k` of `layers` completes: by time where
/// the times of the layers are known, by number where they are not.
pub open spec fn share<N: Scalar>(k: nat, layers: nat, times: Seq<N>) -> N {
    let total = sum_of(times, times.len() as int);
    if zero_spec::<N>().less_spec(total) {
        sum_of(
            times,
            if k <= times.len() {
                k as int
            } else {
                times.len() as int
            },
        ).over_spec(total)
    } else {
        N::count_spec(k as u64).over_spec(N::count_spec(layers as u64))
    }
}

/// The share in percent, at most 100.
pub open spec fn percent<N: Scalar>(share: N) -> u32 {
    share.times_spec(N::of_spec(100)).round_spec().min_spec(N::of_spec(100)).to_u32_spec()
}

/// The minutes that remain of `seconds` once `share` of them has passed.
pub open spec fn minutes_left<N: Scalar>(seconds: N, share: N) -> u32 {
    let remaining = N::of_spec(1).minus_spec(share.min_spec(N::of_spec(1))).max_spec(zero_spec());
    seconds.times_spec(remaining).over_spec(N::of_spec(60)).round_spec().to_u32_spec()
}

/// What the markers are computed from.
pub struct Timing<N> {
    /// Estimated time of the whole print in seconds.
    pub seconds: N,
    /// Number of layers; at least one.
    pub layers: nat,
    /// Estimated time of each layer in seconds.
    pub times: Seq<N>,
}

impl<N: Scalar> Timing<N> {
    /// The parameters of the marker of layer `k`.
    pub open spec fn params(self, k: nat) -> Seq<char> {
        let share = share(k, self.layers, self.times);
        "P"@ + decimal(percent(share) as nat) + " R"@ + decimal(
            minutes_left(self.seconds, share) as nat,
        )
    }

    /// The marker of layer `k`.
    pub open spec fn marker(self, k: nat) -> Spanned<Command<N>> {
        Spanned {
            inner: Command::MetaCommand { code: 73, params: self.params(k) },
            line: 0,
            byte_offset: 0,
        }
    }

    /// The note on the marker of layer `k`, which begins at `line`.
    pub open spec fn note(self, k: nat, line: u32) -> Finding {
        Finding {
            severity: Severity::Info,
            line,
            code: "I002"@,
            message: "inserted M73 "@ + self.params(k) + " at layer "@ + decimal(k) + "/"@
                + decimal(self.layers),
        }
    }
}

/// Whether a marker stands directly before or behind command `i`.
pub open spec fn has_marker<N>(p: Seq<Spanned<Command<N>>>, i: int) -> bool {
    ||| 0 < i && is_marker(p[i - 1].inner)
    ||| i + 1 < p.len() && is_marker(p[i + 1].inner)
}

/// The layer whose marker is inserted behind command `i`, if one is.
///
/// There are no more markers than layers.  Where existing markers are trusted,
/// none is inserted at a boundary that has one directly before or behind it.
pub open spec fn marked_layer<N: Scalar>(
    p: Seq<Spanned<Command<N>>>,
    layers: nat,
    trust: bool,
    i: int,
) -> Option<nat> {
    if is_boundary(p, i) && boundaries(p, i) < layers && !(trust && has_marker(p, i)) {
        Some(boundaries(p, i) + 1)
    } else {
        None
    }
}

/// The first `n` commands with their markers.
pub open spec fn with_markers<N: Scalar>(
    p: Seq<Spanned<Command<N>>>,
    timing: Timing<N>,
    trust: bool,
    n: int,
) -> Seq<Spanned<Command<N>>>
    decreases n,
{
    if n <= 0 {
        Seq::empty()
    } else {
        let before = with_markers(p, timing, trust, n - 1).push(p[n - 1]);
        match marked_layer(p, timing.layers, trust, n - 1) {
            Some(k) => before.push(timing.marker(k)),
            None => before,
        }
    }
}

/// The notes on the markers among the first `n` commands.
pub open spec fn marker_notes<N: Scalar>(
    p: Seq<Spanned<Command<N>>>,
    timing: Timing<N>,
    trust: bool,
    n: int,
) -> Seq<Finding>
    decreases n,
{
    if n <= 0 {
        Seq::empty()
    } else {
        let before = marker_notes(p, timing, trust, n - 1);
        match marked_layer(p, timing.layers, trust, n - 1) {
            Some(k) => before.push(timing.note(k, p[n - 1].line)),
            None => before,
        }
    }
}

/// Whether a command is no progress marker.
pub open spec fn no_marker<N>() -> spec_fn(Spanned<Command<N>>) -> bool {
    |s: Spanned<Command<N>>| !is_marker(s.inner)
}

/// The program that markers are inserted into: without its own markers, unless
/// they are trusted.
pub open spec fn base_program<N>(p: Seq<Spanned<Command<N>>>, trust: bool) -> Seq<
    Spanned<Command<N>>,
> {
    if trust {
        p
    } else {
        p.filter(no_marker())
    }
}

fn marker<N>(command: &GCodeCommand<'_, N>) -> (result: bool)
    ensures
        result == is_marker(command@),
{
    match command {
        GCodeCommand::MetaCommand { code, .. } => *code == 73,
        _ => false,
    }
}

/// For each command, whether it is a progress marker.
fn marker_places<N>(commands: &Vec<Spanned<GCodeCommand<'_, N>>>) -> (result: Vec<bool>)
    ensures
        result.len() == commands.len(),
        forall|j: int|
            0 <= j < commands.len() ==> #[trigger] result[j] == is_marker(
                program(commands@)[j].inner,
            ),
{
    let mut places: Vec<bool> = Vec::new();
    let mut i: usize = 0;
    while i < commands.len()
        invariant
            i <= commands.len(),
            places.len() == i,
            forall|j: int|
                0 <= j < i ==> #[trigger] places[j] == is_marker(program(commands@)[j].inner),
        decreases commands.len() - i,
    {
        proof {
            assert(program(commands@)[i as int] == commands@[i as int]@);
        }
        places.push(marker(&commands[i].inner));
        i = i + 1;
    }
    places
}

/// Whether the command is the comment by which slicers announce a layer.
pub fn layer_comment<N>(command: &GCodeCommand<'_, N>) -> (result: bool)
    ensures
        result == is_layer_comment(command@),
{
    match command {
        GCodeCommand::Comment { text } => same_text(cow_text(text), "LAYER_CHANGE"),
        _ => false,
    }
}

/// Whether layers are announced anywhere in the program.
pub fn layers_announced<N>(commands: &[Spanned<GCodeCommand<'_, N>>]) -> (result: bool)
    ensures
        result == announces_layers(program(commands@)),
{
    let ghost p = program(commands@);
    let mut i: usize = 0;
    while i < commands.len()
        invariant
            i <= commands.len(),
            p == program(commands@),
            forall|j: int| 0 <= j < i ==> !is_layer_comment((#[trigger] p[j]).inner),
        decreases commands.len() - i,
    {
        proof {
            assert(p[i as int] == commands@[i as int]@);
        }
        if layer_comment(&commands[i].inner) {
            return true;
        }
        i = i + 1;
    }
    false
}

fn strip_markers<'a, N: Scalar>(commands: Vec<Spanned<GCodeCommand<'a, N>>>) -> (result: Vec<
    Spanned<GCodeCommand<'a, N>>,
>)
    ensures
        program(result@) == program(commands@).filter(no_marker()),
{
    let ghost all = commands@;
    let ghost p = program(all);
    let mut out: Vec<Spanned<GCodeCommand<'a, N>>> = Vec::new();
    proof {
        reveal(Seq::filter);
        assert(program(out@) =~= p.take(0).filter(no_marker()));
    }
    for spanned in it: commands
        invariant
            it.seq() == all,
            p == program(all),
            program(out@) == p.take(it.index() as int).filter(no_marker()),
    {
        let ghost i = it.index() as int;
        let ghost before = out@;
        let drop = marker(&spanned.inner);
        proof {
            reveal(Seq::filter);
            assert(p[i] == spanned@);
            assert(p.take(i + 1).drop_last() =~= p.take(i));
        }
        if !drop {
            out.push(spanned);
            proof {
                assert(program(out@) =~= program(before).push(p[i]));
            }
        }
    }
    proof {
        assert(p.take(p.len() as int) =~= p);
    }
    out
}

fn move_height<N: Scalar>(command: &GCodeCommand<'_, N>) -> (result: Option<N>)
    ensures
        result == z_of(command@),
{
    match command {
        GCodeCommand::RapidMove { z, .. } => *z,
        GCodeCommand::LinearMove { z, .. } => *z,
        _ => None,
    }
}

fn is_climb<N: Scalar>(z: N, last: Option<N>) -> (result: bool)
    ensures
        result == climbs(z, last),
{
    match last {
        Some(height) => height.plus(ratio(1, 1_000_000_000)).less(z),
        None => true,
    }
}

fn marker_params<N: Scalar>(seconds: N, share: N) -> (result: String)
    ensures
        result@ == "P"@ + decimal(percent(share) as nat) + " R"@ + decimal(
            minutes_left(seconds, share) as nat,
        ),
{
    let hundred = N::of(100);
    let percentage: u32 = share.times(hundred).round().min(hundred).to_u32();
    let remaining = N::of(1).minus(share.min(N::of(1))).max(zero());
    let minutes: u32 = seconds.times(remaining).over(N::of(60)).round().to_u32();
    let mut params = String::new();
    push_text(&mut params, "P");
    push_decimal(&mut params, percentage as u64);
    push_text(&mut params, " R");
    push_decimal(&mut params, minutes as u64);
    params
}

fn marker_note(params: &str, k: u32, layers: u32, line: u32) -> (result: Diagnostic)
    ensures
        result@ == (Finding {
            severity: Severity::Info,
            line,
            code: "I002"@,
            message: "inserted M73 "@ + params@ + " at layer "@ + decimal(k as nat) + "/"@
                + decimal(layers as nat),
        }),
{
    let mut message = String::new();
    push_text(&mut message, "inserted M73 ");
    push_text(&mut message, params);
    push_text(&mut message, " at layer ");
    push_decimal(&mut message, k as u64);
    push_text(&mut message, "/");
    push_decimal(&mut message, layers as u64);
    Diagnostic { severity: Severity::Info, line, code: "I002", message }
}

/// Inserts progress markers at layer boundaries.
///
/// Does nothing unless `config.insert_progress` is set.  Existing markers are
/// stripped first, unless `config.trust_existing_m73` is set; then they stay,
/// and a marker is inserted only at boundaries that have none directly before
/// or behind them.  There are no more markers than `layer_count` layers (or than one).
pub fn insert_progress_markers<'a, N: Scalar>(
    commands: Vec<Spanned<GCodeCommand<'a, N>>>,
    estimated_time_seconds: N,
    layer_count: u32,
    per_layer_times: &[N],
    config: &OptConfig,
) -> (result: ProgressInsertionResult<'a, N>)
    ensures
        !config.insert_progress ==> result.commands@ == commands@ && result.diagnostics.len() == 0,
        config.insert_progress ==> {
            let base = base_program(program(commands@), config.trust_existing_m73);
            let timing = Timing {
                seconds: estimated_time_seconds,
                layers: if layer_count == 0 {
                    1
                } else {
                    layer_count as nat
                },
                times: per_layer_times@,
            };
            &&& program(result.commands@) == with_markers(
                base,
                timing,
                config.trust_existing_m73,
                base.len() as int,
            )
            &&& findings(result.diagnostics@) == marker_notes(
                base,
                timing,
                config.trust_existing_m73,
                base.len() as int,
            )
        },
{
    let mut diagnostics: Vec<Diagnostic> = Vec::new();
    if !config.insert_progress {
        return ProgressInsertionResult { commands, diagnostics };
    }
    let trust = config.trust_existing_m73;
    let layers: u32 = if layer_count == 0 {
        1
    } else {
        layer_count
    };
    let ghost timing = Timing {
        seconds: estimated_time_seconds,
        layers: layers as nat,
        times: per_layer_times@,
    };
    let total: N = total(per_layer_times);
    let timed = zero::<N>().less(total);
    let base = if trust {
        commands
    } else {
        strip_markers(commands)
    };
    let ghost all = base@;
    let ghost p = program(base@);
    let announced = layers_announced(base.as_slice());
    let mut output: Vec<Spanned<GCodeCommand<'a, N>>> = Vec::new();
    let mut layers_seen: u32 = 0;
    let mut elapsed: N = zero();
    let mut height: Option<N> = None;
    let markers = marker_places(&base);
    let count: usize = base.len();
    let mut idx: usize = 0;
    proof {
        assert(program(output@) =~= with_markers(p, timing, trust, 0));
        assert(findings(diagnostics@) =~= marker_notes(p, timing, trust, 0));
    }
    for spanned in it: base
        invariant
            it.seq() == all,
            p == program(all),
            announced == announces_layers(p),
            timing.seconds == estimated_time_seconds,
            timing.layers == layers,
            timing.times == per_layer_times@,
            timed == zero_spec::<N>().less_spec(total),
            total == sum_of(per_layer_times@, per_layer_times.len() as int),
            layers_seen <= layers,
            layers_seen == if boundaries(p, it.index() as int) < layers {
                boundaries(p, it.index() as int)
            } else {
                layers as nat
            },
            elapsed == sum_of(
                per_layer_times@,
                if layers_seen <= per_layer_times.len() {
                    layers_seen as int
                } else {
                    per_layer_times.len() as int
                },
            ),
            height == last_height(p, it.index() as int),
            idx == it.index(),
            count == all.len(),
            markers.len() == count,
            forall|j: int| 0 <= j < count ==> #[trigger] markers[j] == is_marker(p[j].inner),
            program(output@) == with_markers(p, timing, trust, it.index() as int),
            findings(diagnostics@) == marker_notes(p, timing, trust, it.index() as int),
    {
        let ghost i = it.index() as int;
        let ghost before = output@;
        let ghost notes = diagnostics@;
        let line = spanned.line;
        proof {
            assert(p[i] == spanned@);
        }
        let comment = layer_comment(&spanned.inner);
        let mut climb = false;
        if let Some(z) = move_height(&spanned.inner) {
            climb = is_climb(z, height);
            height = Some(z);
        }
        let boundary = if announced {
            comment
        } else {
            climb
        };
        proof {
            assert(boundary == is_boundary(p, i));
        }
        output.push(spanned);
        proof {
            assert(program(output@) =~= program(before).push(p[i]));
        }
        if boundary && layers_seen < layers {
            if (layers_seen as usize) < per_layer_times.len() {
                elapsed = elapsed.plus(per_layer_times[layers_seen as usize]);
            }
            layers_seen = layers_seen + 1;
            let marked = (idx > 0 && markers[idx - 1]) || (idx + 1 < count && markers[idx + 1]);
            proof {
                assert(marked == has_marker(p, i));
            }
            if !(trust && marked) {
                let share = if timed {
                    elapsed.over(total)
                } else {
                    N::count(layers_seen as u64).over(N::count(layers as u64))
                };
                let params = marker_params(estimated_time_seconds, share);
                let note = marker_note(params.as_str(), layers_seen, layers, line);
                let m73 = Spanned {
                    inner: GCodeCommand::MetaCommand { code: 73, params: Cow::Owned(params) },
                    line: 0,
                    byte_offset: 0,
                };
                let ghost without = output@;
                output.push(m73);
                diagnostics.push(note);
                proof {
                    let k = layers_seen as nat;
                    assert(share == self::share(k, timing.layers, timing.times));
                    assert(m73@ == timing.marker(k));
                    assert(note@ == timing.note(k, line));
                    assert(program(output@) =~= program(without).push(m73@));
                    assert(findings(diagnostics@) =~= findings(notes).push(note@));
                }
            }
        }
        idx = idx + 1;
    }
    ProgressInsertionResult { commands: output, diagnostics }
}

// ── Laws ──────────────────────────────────────────────────────────────────────

/// The number of commands among the first `n` that are no progress markers.
pub open spec fn plain_count<N>(p: Seq<Spanned<Command<N>>>, n: int) -> nat
    decreases n,
{
    if n <= 0 {
        0
    } else if is_marker(p[n - 1].inner) {
        plain_count(p, n - 1)
    } else {
        plain_count(p, n - 1) + 1
    }
}

proof fn lemma_plain_count_prefix<N>(
    a: Seq<Spanned<Command<N>>>,
    b: Seq<Spanned<Command<N>>>,
    n: int,
)
    requires
        0 <= n <= a.len(),
        n <= b.len(),
        forall|i: int| 0 <= i < n ==> a[i] == b[i],
    ensures
        plain_count(a, n) == plain_count(b, n),
        plain_count(a, n) <= n,
    decreases n,
{
    if n > 0 {
        lemma_plain_count_prefix(a, b, n - 1);
    }
}

proof fn lemma_plain_count_push<N>(p: Seq<Spanned<Command<N>>>, c: Spanned<Command<N>>)
    ensures
        plain_count(p.push(c), p.len() as int + 1) == plain_count(p, p.len() as int) + if is_marker(
            c.inner,
        ) {
            0nat
        } else {
            1nat
        },
{
    lemma_plain_count_prefix(p.push(c), p, p.len() as int);
}

/// Inserting markers changes the number of no other commands.
pub proof fn lemma_markers_add_no_layers<N: Scalar>(
    p: Seq<Spanned<Command<N>>>,
    timing: Timing<N>,
    trust: bool,
    n: int,
)
    requires
        0 <= n <= p.len(),
    ensures
        plain_count(
            with_markers(p, timing, trust, n),
            with_markers(p, timing, trust, n).len() as int,
        ) == plain_count(p, n),
        plain_count(p, n) <= n,
    decreases n,
{
    if n > 0 {
        lemma_markers_add_no_layers(p, timing, trust, n - 1);
        let before = with_markers(p, timing, trust, n - 1);
        lemma_plain_count_push(before, p[n - 1]);
        match marked_layer(p, timing.layers, trust, n - 1) {
            Some(k) => {
                lemma_plain_count_push(before.push(p[n - 1]), timing.marker(k));
            },
            None => {},
        }
    }
}

/// Inserting markers alters no other command: they all stay, in their order.
pub proof fn lemma_markers_keep_other_commands<N: Scalar>(
    p: Seq<Spanned<Command<N>>>,
    timing: Timing<N>,
    trust: bool,
    n: int,
)
    requires
        0 <= n <= p.len(),
    ensures
        with_markers(p, timing, trust, n).filter(no_marker()) == p.take(n).filter(no_marker()),
    decreases n,
{
    reveal(Seq::filter);
    if n > 0 {
        lemma_markers_keep_other_commands(p, timing, trust, n - 1);
        let before = with_markers(p, timing, trust, n - 1);
        let pushed = before.push(p[n - 1]);
        assert(p.take(n).drop_last() =~= p.take(n - 1));
        assert(p.take(n).last() == p[n - 1]);
        assert(pushed.drop_last() =~= before);
        assert(pushed.filter(no_marker()) == p.take(n).filter(no_marker()));
        match marked_layer(p, timing.layers, trust, n - 1) {
            Some(k) => {
                assert(pushed.push(timing.marker(k)).drop_last() =~= pushed);
            },
            None => {},
        }
    } else {
        assert(with_markers(p, timing, trust, n) =~= p.take(n));
    }
}

proof fn lemma_filter_twice<N>(p: Seq<Spanned<Command<N>>>)
    ensures
        p.filter(no_marker()).filter(no_marker()) == p.filter(no_marker()),
    decreases p.len(),
{
    reveal(Seq::filter);
    if p.len() > 0 {
        lemma_filter_twice(p.drop_last());
        let rest = p.drop_last().filter(no_marker());
        if no_marker()(p.last()) {
            assert(rest.push(p.last()).drop_last() =~= rest);
        }
    }
}

/// Whatever becomes of the markers, no other command of the program is altered.
pub proof fn lemma_progress_keeps_other_commands<N: Scalar>(
    p: Seq<Spanned<Command<N>>>,
    timing: Timing<N>,
    trust: bool,
)
    ensures
        with_markers(
            base_program(p, trust),
            timing,
            trust,
            base_program(p, trust).len() as int,
        ).filter(no_marker()) == p.filter(no_marker()),
{
    let base = base_program(p, trust);
    lemma_markers_keep_other_commands(base, timing, trust, base.len() as int);
    assert(base.take(base.len() as int) =~= base);
    lemma_filter_twice(p);
}

/// There is one note per inserted marker, there are no more markers than layers,
/// and each makes the program one command longer.
pub proof fn lemma_one_note_per_marker<N: Scalar>(
    p: Seq<Spanned<Command<N>>>,
    timing: Timing<N>,
    trust: bool,
    n: int,
)
    requires
        0 <= n <= p.len(),
    ensures
        with_markers(p, timing, trust, n).len() == n + marker_notes(p, timing, trust, n).len(),
        marker_notes(p, timing, trust, n).len() <= boundaries(p, n),
        marker_notes(p, timing, trust, n).len() <= timing.layers,
        !trust && boundaries(p, n) <= timing.layers ==> marker_notes(p, timing, trust, n).len()
            == boundaries(p, n),
    decreases n,
{
    if n > 0 {
        lemma_one_note_per_marker(p, timing, trust, n - 1);
    }
}

/// Where comments announce the layers, the layers begin with these comments and
/// nowhere else.
pub proof fn lemma_comments_take_precedence<N: Scalar>(p: Seq<Spanned<Command<N>>>, i: int)
    requires
        announces_layers(p),
    ensures
        is_boundary(p, i) == is_layer_comment(p[i].inner),
{
}

// ── Progress in decimal numbers ───────────────────────────────────────────────

proof fn lemma_same_over_same(n: Fixed)
    requires
        n.millionths > 0,
    ensures
        n.over_spec(n) == Fixed::of_spec(1),
{
    let size = n.millionths as int;
    assert(size * 1_000_000 / size == 1_000_000) by {
        vstd::arithmetic::mul::lemma_mul_is_commutative(size, 1_000_000);
        vstd::arithmetic::div_mod::lemma_div_multiples_vanish(1_000_000, size);
    }
}

/// The marker of the last layer says that all is done and nothing remains.
pub proof fn lemma_last_layer_completes(timing: Timing<Fixed>)
    requires
        0 < timing.layers <= u32::MAX,
        timing.times.len() <= timing.layers,
    ensures
        timing.params(timing.layers) == "P100 R0"@,
{
    let times = timing.times;
    let total = sum_of(times, times.len() as int);
    let done = share(timing.layers, timing.layers, times);
    if zero_spec::<Fixed>().less_spec(total) {
        lemma_same_over_same(total);
    } else {
        lemma_same_over_same(Fixed::count_spec(timing.layers as u64));
    }
    assert(done == Fixed::of_spec(1));
    assert(done.millionths == 1_000_000);
    assert(Fixed::of_spec(100).millionths == 100_000_000);
    assert(1_000_000int * 100_000_000int / 1_000_000 == 100_000_000) by (nonlinear_arith);
    assert(magnitude(1_000_000) * magnitude(100_000_000) / 1_000_000 == 100_000_000);
    assert(done.times_spec(Fixed::of_spec(100)).millionths == 100_000_000);
    assert(percent(done) == 100);
    let remaining = Fixed::of_spec(1).minus_spec(done.min_spec(Fixed::of_spec(1))).max_spec(
        zero_spec(),
    );
    assert(remaining.millionths == 0);
    let size = magnitude(timing.seconds.millionths as int);
    assert(size * 0 == 0);
    assert(size * magnitude(remaining.millionths as int) / 1_000_000 == 0);
    assert(timing.seconds.times_spec(remaining).millionths == 0);
    assert(minutes_left(timing.seconds, done) == 0);
    reveal_strlit("P");
    reveal_strlit(" R");
    reveal_strlit("P100 R0");
    reveal_with_fuel(decimal, 4);
    assert(timing.params(timing.layers) =~= "P100 R0"@);
}

/// Whether no time is negative.
pub open spec fn are_times(times: Seq<Fixed>) -> bool {
    forall|i: int| 0 <= i < times.len() ==> 0 <= (#[trigger] times[i]).millionths
}

proof fn lemma_sums_grow(times: Seq<Fixed>, k: int, m: int)
    requires
        are_times(times),
        0 <= k <= m <= times.len(),
    ensures
        0 <= sum_of(times, k).millionths <= sum_of(times, m).millionths,
    decreases m,
{
    if m > 0 {
        assert(0 <= times[m - 1].millionths);
        if k < m {
            lemma_sums_grow(times, k, m - 1);
        } else {
            lemma_sums_grow(times, m - 1, m - 1);
        }
    }
}

proof fn lemma_quotients_grow(a: Fixed, b: Fixed, n: Fixed)
    requires
        0 <= a.millionths <= b.millionths,
        n.millionths > 0,
    ensures
        0 <= a.over_spec(n).millionths <= b.over_spec(n).millionths,
{
    let x = a.millionths * 1_000_000;
    let y = b.millionths * 1_000_000;
    vstd::arithmetic::div_mod::lemma_div_is_ordered(x, y, n.millionths as int);
    vstd::arithmetic::div_mod::lemma_div_pos_is_pos(x, n.millionths as int);
}

proof fn lemma_products_grow(a: Fixed, b: Fixed, n: Fixed)
    requires
        0 <= a.millionths <= b.millionths,
        n.millionths >= 0,
    ensures
        0 <= n.times_spec(a).millionths <= n.times_spec(b).millionths,
        0 <= a.times_spec(n).millionths <= b.times_spec(n).millionths,
{
    let x = n.millionths * a.millionths;
    let y = n.millionths * b.millionths;
    vstd::arithmetic::mul::lemma_mul_inequality(
        a.millionths as int,
        b.millionths as int,
        n.millionths as int,
    );
    vstd::arithmetic::mul::lemma_mul_is_commutative(n.millionths as int, a.millionths as int);
    vstd::arithmetic::mul::lemma_mul_is_commutative(n.millionths as int, b.millionths as int);
    assert(0 <= x) by (nonlinear_arith)
        requires
            x == n.millionths * a.millionths,
            n.millionths >= 0,
            a.millionths >= 0,
    ;
    assert(0 <= x <= y);
    vstd::arithmetic::div_mod::lemma_div_is_ordered(x, y, 1_000_000);
}

/// Progress never goes back: a later layer has done as many percent as an earlier
/// one or more, and leaves as many minutes or fewer.
pub proof fn lemma_progress_grows(timing: Timing<Fixed>, k: nat, m: nat)
    requires
        0 < timing.layers <= u32::MAX,
        timing.times.len() <= timing.layers,
        are_times(timing.times),
        timing.seconds.millionths >= 0,
        k <= m <= timing.layers,
    ensures
        percent(share(k, timing.layers, timing.times)) <= percent(
            share(m, timing.layers, timing.times),
        ),
        minutes_left(timing.seconds, share(m, timing.layers, timing.times)) <= minutes_left(
            timing.seconds,
            share(k, timing.layers, timing.times),
        ),
{
    let times = timing.times;
    let n = times.len() as int;
    let total = sum_of(times, n);
    let a = share(k, timing.layers, times);
    let b = share(m, timing.layers, times);
    if zero_spec::<Fixed>().less_spec(total) {
        let i = if k <= n {
            k as int
        } else {
            n
        };
        let j = if m <= n {
            m as int
        } else {
            n
        };
        lemma_sums_grow(times, i, j);
        lemma_quotients_grow(sum_of(times, i), sum_of(times, j), total);
    } else {
        lemma_quotients_grow(
            Fixed::count_spec(k as u64),
            Fixed::count_spec(m as u64),
            Fixed::count_spec(timing.layers as u64),
        );
    }
    assert(0 <= a.millionths <= b.millionths);
    let hundred = Fixed::of_spec(100);
    lemma_products_grow(a, b, hundred);
    let one = Fixed::of_spec(1);
    let rest_a = one.minus_spec(a.min_spec(one)).max_spec(zero_spec());
    let rest_b = one.minus_spec(b.min_spec(one)).max_spec(zero_spec());
    assert(0 <= rest_b.millionths <= rest_a.millionths);
    lemma_products_grow(rest_b, rest_a, timing.seconds);
    lemma_quotients_grow(
        timing.seconds.times_spec(rest_b),
        timing.seconds.times_spec(rest_a),
        Fixed::of_spec(60),
    );
}

// ── Inserting again ───────────────────────────────────────────────────────────

proof fn lemma_markers_so_far<N: Scalar>(
    p: Seq<Spanned<Command<N>>>,
    timing: Timing<N>,
    trust: bool,
    m: int,
    n: int,
)
    requires
        0 <= m <= n <= p.len(),
    ensures
        with_markers(p, timing, trust, m).len() <= with_markers(p, timing, trust, n).len(),
        forall|j: int|
            0 <= j < with_markers(p, timing, trust, m).len() ==> with_markers(
                p,
                timing,
                trust,
                n,
            )[j] == #[trigger] with_markers(p, timing, trust, m)[j],
    decreases n,
{
    if m < n {
        lemma_markers_so_far(p, timing, trust, m, n - 1);
    }
}

/// Where command `k` stands once the markers are inserted, and what stands behind it.
proof fn lemma_place_among_markers<N: Scalar>(
    p: Seq<Spanned<Command<N>>>,
    timing: Timing<N>,
    trust: bool,
    k: int,
)
    requires
        0 <= k < p.len(),
    ensures
        ({
            let q = with_markers(p, timing, trust, p.len() as int);
            let at = with_markers(p, timing, trust, k).len() as int;
            let next = with_markers(p, timing, trust, k + 1).len() as int;
            &&& q[at] == p[k]
            &&& match marked_layer(p, timing.layers, trust, k) {
                Some(_) => next == at + 2 && is_marker(q[at + 1].inner),
                None => next == at + 1,
            }
            &&& next <= q.len()
        }),
{
    let before = with_markers(p, timing, trust, k);
    let after = with_markers(p, timing, trust, k + 1);
    let at = before.len() as int;
    lemma_markers_so_far(p, timing, trust, k + 1, p.len() as int);
    assert(after[at] == p[k]);
    match marked_layer(p, timing.layers, trust, k) {
        Some(layer) => {
            assert(after[at + 1] == timing.marker(layer));
        },
        None => {},
    }
}

/// Every command behind insertion is one of the program, or a marker.
proof fn lemma_commands_among_markers<N: Scalar>(
    p: Seq<Spanned<Command<N>>>,
    timing: Timing<N>,
    trust: bool,
    n: int,
    j: int,
) -> (k: int)
    requires
        0 <= n <= p.len(),
        0 <= j < with_markers(p, timing, trust, n).len(),
    ensures
        0 <= k < n,
        ({
            let at = with_markers(p, timing, trust, k).len();
            j == at || j == at + 1 && marked_layer(p, timing.layers, trust, k) is Some
        }),
    decreases n,
{
    if j < with_markers(p, timing, trust, n - 1).len() {
        lemma_commands_among_markers(p, timing, trust, n - 1, j)
    } else {
        n - 1
    }
}

proof fn lemma_markers_announce_nothing<N: Scalar>(
    p: Seq<Spanned<Command<N>>>,
    timing: Timing<N>,
    trust: bool,
)
    ensures
        announces_layers(with_markers(p, timing, trust, p.len() as int)) == announces_layers(p),
{
    let n = p.len() as int;
    let q = with_markers(p, timing, trust, n);
    if announces_layers(p) {
        let k = choose|k: int| 0 <= k < p.len() && is_layer_comment((#[trigger] p[k]).inner);
        lemma_place_among_markers(p, timing, trust, k);
        let at = with_markers(p, timing, trust, k).len() as int;
        assert(is_layer_comment(q[at].inner));
    }
    if announces_layers(q) {
        let j = choose|j: int| 0 <= j < q.len() && is_layer_comment((#[trigger] q[j]).inner);
        let k = lemma_commands_among_markers(p, timing, trust, n, j);
        lemma_place_among_markers(p, timing, trust, k);
        assert(is_layer_comment(p[k].inner));
    }
}

/// Markers are no boundaries, and hide none.
proof fn lemma_boundaries_among_markers<N: Scalar>(
    p: Seq<Spanned<Command<N>>>,
    timing: Timing<N>,
    trust: bool,
    k: int,
)
    requires
        0 <= k <= p.len(),
    ensures
        ({
            let q = with_markers(p, timing, trust, p.len() as int);
            let at = with_markers(p, timing, trust, k).len() as int;
            &&& last_height(q, at) == last_height(p, k)
            &&& boundaries(q, at) == boundaries(p, k)
            &&& k < p.len() ==> is_boundary(q, at) == is_boundary(p, k)
        }),
    decreases k,
{
    let q = with_markers(p, timing, trust, p.len() as int);
    lemma_markers_announce_nothing(p, timing, trust);
    if k > 0 {
        lemma_boundaries_among_markers(p, timing, trust, k - 1);
        lemma_place_among_markers(p, timing, trust, k - 1);
        let before = with_markers(p, timing, trust, k - 1).len() as int;
        reveal_with_fuel(last_height, 3);
        reveal_with_fuel(boundaries, 3);
        if marked_layer(p, timing.layers, trust, k - 1) is Some {
            assert(!is_boundary(q, before + 1));
        }
    }
    if k < p.len() {
        lemma_place_among_markers(p, timing, trust, k);
    }
}

/// No boundary lacks a marker once they are inserted.
proof fn lemma_no_marker_is_missing<N: Scalar>(
    p: Seq<Spanned<Command<N>>>,
    timing: Timing<N>,
    trust: bool,
    j: int,
)
    requires
        0 <= j < with_markers(p, timing, trust, p.len() as int).len(),
    ensures
        marked_layer(
            with_markers(p, timing, trust, p.len() as int),
            timing.layers,
            true,
            j,
        ) is None,
{
    let n = p.len() as int;
    let q = with_markers(p, timing, trust, n);
    let k = lemma_commands_among_markers(p, timing, trust, n, j);
    let at = with_markers(p, timing, trust, k).len() as int;
    lemma_place_among_markers(p, timing, trust, k);
    lemma_boundaries_among_markers(p, timing, trust, k);
    if j == at {
        if is_boundary(p, k) && boundaries(p, k) < timing.layers {
            if marked_layer(p, timing.layers, trust, k) is Some {
                assert(is_marker(q[j + 1].inner));
            } else {
                assert(trust && has_marker(p, k));
                if 0 < k && is_marker(p[k - 1].inner) {
                    lemma_place_among_markers(p, timing, trust, k - 1);
                    assert(!is_boundary(p, k - 1));
                    assert(q[j - 1] == p[k - 1]);
                } else {
                    lemma_place_among_markers(p, timing, trust, k + 1);
                    assert(q[j + 1] == p[k + 1]);
                }
            }
        }
    } else {
        assert(!is_boundary(q, j));
    }
}

proof fn lemma_nothing_to_insert<N: Scalar>(
    p: Seq<Spanned<Command<N>>>,
    timing: Timing<N>,
    n: int,
)
    requires
        0 <= n <= p.len(),
        forall|j: int|
            0 <= j < p.len() ==> #[trigger] marked_layer(p, timing.layers, true, j) is None,
    ensures
        with_markers(p, timing, true, n) == p.take(n),
        marker_notes(p, timing, true, n).len() == 0,
    decreases n,
{
    if n > 0 {
        lemma_nothing_to_insert(p, timing, n - 1);
        assert(marked_layer(p, timing.layers, true, n - 1) is None);
        assert(p.take(n) =~= p.take(n - 1).push(p[n - 1]));
    } else {
        assert(with_markers(p, timing, true, n) =~= p.take(n));
    }
}

/// Where markers are trusted, inserting them once more inserts none: no boundary
/// lacks one any longer.
pub proof fn lemma_trusted_markers_suffice<N: Scalar>(
    p: Seq<Spanned<Command<N>>>,
    timing: Timing<N>,
    trust: bool,
    again: Timing<N>,
)
    requires
        again.layers == timing.layers,
    ensures
        ({
            let q = with_markers(p, timing, trust, p.len() as int);
            &&& with_markers(q, again, true, q.len() as int) == q
            &&& marker_notes(q, again, true, q.len() as int).len() == 0
        }),
{
    let q = with_markers(p, timing, trust, p.len() as int);
    assert forall|j: int| 0 <= j < q.len() implies #[trigger] marked_layer(
        q,
        again.layers,
        true,
        j,
    ) is None by {
        lemma_no_marker_is_missing(p, timing, trust, j);
    }
    lemma_nothing_to_insert(q, again, q.len() as int);
    assert(q.take(q.len() as int) =~= q);
}

} // verus!
