//! What the comments and commands of a program say of its slicer.

use vstd::prelude::*;

use crate::diagnostics::{Finding, Severity};
use crate::dialect::{
    has_field, judged, last_config, lowercase, missing_warning, missing_warnings, opens_config,
    seconds_in, signals, signature_from, signature_in, time_scan, time_step, with_comments,
    with_metadata, Confidence, SlicerDialect, SlicerModel, TimeScan,
};
use crate::fixed::{all_digits, Fixed};
use crate::models::{Command, Spanned};
use crate::scalar::{zero_spec, Scalar};
use crate::text::{has_prefix, has_text, is_digit};

verus! {

// ── Print times ───────────────────────────────────────────────────────────────

/// Digits wait for their unit.
proof fn lemma_digits_wait<N: Scalar>(text: Seq<char>, from: int, digits: Seq<char>, k: int)
    requires
        0 <= from,
        from + digits.len() <= text.len(),
        text.subrange(from, from + digits.len()) == digits,
        all_digits(digits),
        0 <= k <= digits.len(),
        time_scan::<N>(text, from) is Some,
        (time_scan::<N>(text, from)->0).digits.len() == 0,
    ensures
        time_scan::<N>(text, from + k) == Some(
            TimeScan {
                seconds: (time_scan::<N>(text, from)->0).seconds,
                digits: digits.take(k),
            },
        ),
    decreases k,
{
    if k > 0 {
        lemma_digits_wait::<N>(text, from, digits, k - 1);
        assert(text.subrange(from, from + digits.len())[k - 1] == digits[k - 1]);
        assert(is_digit(digits[k - 1]));
        assert(digits.take(k - 1).push(digits[k - 1]) =~= digits.take(k));
    } else {
        assert(digits.take(0) =~= (time_scan::<N>(text, from)->0).digits);
    }
}

/// The seconds of a number of units.
pub open spec fn seconds_of(unit: char) -> int {
    if unit == 'h' {
        3_600
    } else if unit == 'm' {
        60
    } else if unit == 's' {
        1
    } else {
        0
    }
}

/// Digits and their unit add to the seconds.
proof fn lemma_unit_adds(
    text: Seq<char>,
    from: int,
    digits: Seq<char>,
    n: Fixed,
    unit: char,
    before: Fixed,
)
    requires
        0 <= from,
        from + digits.len() + 1 <= text.len(),
        text.subrange(from, from + digits.len()) == digits,
        text[from + digits.len()] == unit,
        digits.len() > 0,
        all_digits(digits),
        !is_digit(unit),
        Fixed::parse_spec(digits) == Some(n),
        time_scan::<Fixed>(text, from) == Some(
            TimeScan { seconds: before, digits: Seq::<char>::empty() },
        ),
        0 <= n.millionths <= 1_000_000_000_000,
        0 <= before.millionths <= 1_000_000_000_000_000_000,
    ensures
        time_scan::<Fixed>(text, from + digits.len() + 1) == Some(
            TimeScan {
                seconds: Fixed {
                    millionths: (before.millionths + n.millionths * seconds_of(unit)) as i64,
                },
                digits: Seq::<char>::empty(),
            },
        ),
{
    let k = digits.len() as int;
    lemma_digits_wait::<Fixed>(text, from, digits, k);
    assert(digits.take(k) =~= digits);
    let s = TimeScan { seconds: before, digits };
    assert(time_scan::<Fixed>(text, from + k) == Some(s));
    assert(time_scan::<Fixed>(text, from + k + 1) == time_step(s, unit));
    assert(Fixed::of_spec(3_600).millionths == 3_600_000_000);
    assert(Fixed::of_spec(60).millionths == 60_000_000);
    let size = n.millionths as int;
    assert((size * 3_600_000_000) / 1_000_000 == size * 3_600);
    assert((size * 60_000_000) / 1_000_000 == size * 60);
    assert(n.times_spec(Fixed::of_spec(3_600)).millionths == size * 3_600);
    assert(n.times_spec(Fixed::of_spec(60)).millionths == size * 60);
    let added = seconds_of(unit);
    if unit == 'h' {
        assert(size * added == size * 3_600);
    } else if unit == 'm' {
        assert(size * added == size * 60);
    } else if unit == 's' {
        assert(size * added == size);
    } else {
        assert(size * added == 0);
    }
}

/// A blank changes nothing where no digits wait.
proof fn lemma_blank_is_skipped(text: Seq<char>, from: int, before: Fixed)
    requires
        0 <= from < text.len(),
        text[from] == ' ',
        time_scan::<Fixed>(text, from) == Some(
            TimeScan { seconds: before, digits: Seq::<char>::empty() },
        ),
    ensures
        time_scan::<Fixed>(text, from + 1) == Some(
            TimeScan { seconds: before, digits: Seq::<char>::empty() },
        ),
{
}

/// Hours, minutes and seconds add up: an hour has 3600 seconds, a minute 60.
pub proof fn lemma_times_add_up(
    hours: Seq<char>,
    minutes: Seq<char>,
    seconds: Seq<char>,
    h: Fixed,
    m: Fixed,
    s: Fixed,
)
    requires
        all_digits(hours) && hours.len() > 0 && Fixed::parse_spec(hours) == Some(h),
        all_digits(minutes) && minutes.len() > 0 && Fixed::parse_spec(minutes) == Some(m),
        all_digits(seconds) && seconds.len() > 0 && Fixed::parse_spec(seconds) == Some(s),
        0 <= h.millionths <= 1_000_000_000_000,
        0 <= m.millionths <= 1_000_000_000_000,
        0 <= s.millionths <= 1_000_000_000_000,
    ensures
        ({
            let text = hours + seq!['h', ' '] + minutes + seq!['m', ' '] + seconds + seq!['s'];
            let total = 3_600 * h.millionths + 60 * m.millionths + s.millionths;
            seconds_in::<Fixed>(text) == if total > 0 {
                Some(Fixed { millionths: total as i64 })
            } else {
                None
            }
        }),
{
    let text = hours + seq!['h', ' '] + minutes + seq!['m', ' '] + seconds + seq!['s'];
    let none = Fixed { millionths: 0 };
    assert(zero_spec::<Fixed>() == none);
    let a = hours.len() as int;
    let b = a + 2 + minutes.len();
    let c = b + 2 + seconds.len();
    assert(time_scan::<Fixed>(text, 0) == Some(
        TimeScan { seconds: none, digits: Seq::<char>::empty() },
    ));
    assert(text.subrange(0, a) =~= hours);
    lemma_unit_adds(text, 0, hours, h, 'h', none);
    let t1 = Fixed { millionths: (3_600 * h.millionths) as i64 };
    lemma_blank_is_skipped(text, a + 1, t1);
    assert(text.subrange(a + 2, b) =~= minutes);
    lemma_unit_adds(text, a + 2, minutes, m, 'm', t1);
    let t2 = Fixed { millionths: (3_600 * h.millionths + 60 * m.millionths) as i64 };
    lemma_blank_is_skipped(text, b + 1, t2);
    assert(text.subrange(b + 2, c) =~= seconds);
    lemma_unit_adds(text, b + 2, seconds, s, 's', t2);
    assert(text.len() == c + 1);
}

// ── Signs ─────────────────────────────────────────────────────────────────────

/// Whether a command is an `M73` with `R`, as `OrcaSlicer` and `PrusaSlicer` write it, or
/// a comment that names the type of a feature, as they write it too.
pub open spec fn is_theirs<N>(command: Command<N>) -> bool {
    match command {
        Command::MetaCommand { code, params } => code == 73 && params.contains('R'),
        Command::Comment { text } => has_prefix(text, "TYPE:"@),
        _ => false,
    }
}

/// Whether a command is an `M900`, as `PrusaSlicer` writes it.
pub open spec fn is_linear_advance<N>(command: Command<N>) -> bool {
    command matches Command::MetaCommand { code, .. } && code == 900
}

/// Whether a command is an `M73` with `P` and no `R`, as Cura writes it.
pub open spec fn is_curas<N>(command: Command<N>) -> bool {
    command matches Command::MetaCommand { code, params } && code == 73 && params.contains('P')
        && !params.contains('R')
}

/// How many of the first `n` commands are of a sort.
pub open spec fn count_of<N>(
    p: Seq<Spanned<Command<N>>>,
    sort: spec_fn(Command<N>) -> bool,
    n: int,
) -> nat
    decreases n,
{
    if n <= 0 {
        0
    } else {
        count_of(p, sort, n - 1) + if sort(p[n - 1].inner) {
            1nat
        } else {
            0nat
        }
    }
}

proof fn lemma_signals_count<N>(p: Seq<Spanned<Command<N>>>, n: int)
    requires
        0 <= n <= p.len(),
    ensures
        signals(p, n).orca_prusa == count_of(p, |c: Command<N>| is_theirs(c), n),
        signals(p, n).prusa == count_of(p, |c: Command<N>| is_linear_advance(c), n),
        signals(p, n).cura == count_of(p, |c: Command<N>| is_curas(c), n),
    decreases n,
{
    if n > 0 {
        lemma_signals_count(p, n - 1);
    }
}

/// Without a signature the signs decide: none, and the dialect is unknown; more signs of
/// Cura than of the others, and it is Cura; else `PrusaSlicer` where there is an `M900`,
/// and `OrcaSlicer` where there is none.  Two signs of the dialect or more make the
/// confidence medium, one makes it low.
pub proof fn lemma_signs_decide<N>(p: Seq<Spanned<Command<N>>>)
    ensures
        ({
            let n = p.len() as int;
            let theirs = count_of(p, |c: Command<N>| is_theirs(c), n);
            let prusas = count_of(p, |c: Command<N>| is_linear_advance(c), n);
            let curas = count_of(p, |c: Command<N>| is_curas(c), n);
            let others = theirs + prusas;
            let (dialect, confidence) = judged(signals(p, n));
            &&& dialect == SlicerDialect::Unknown <==> others == 0 && curas == 0
            &&& dialect == SlicerDialect::Cura <==> curas > others
            &&& dialect == SlicerDialect::PrusaSlicer <==> prusas > 0 && curas <= others
            &&& confidence == Confidence::Absent <==> others == 0 && curas == 0
            &&& confidence == Confidence::Medium <==> (if curas > others {
                curas
            } else {
                others
            }) >= 2
            &&& confidence != Confidence::High
        }),
{
    lemma_signals_count(p, p.len() as int);
}

// ── Where comments count ──────────────────────────────────────────────────────

/// Whether two programs have the same commands from `from` up to `to`.
pub open spec fn agree<N>(
    p: Seq<Spanned<Command<N>>>,
    q: Seq<Spanned<Command<N>>>,
    from: int,
    to: int,
) -> bool {
    forall|k: int| from <= k < to ==> #[trigger] p[k] == q[k]
}

/// A signature is looked for among the first 100 commands alone: programs that agree on
/// these have the same signature.
pub proof fn lemma_signatures_are_at_the_top<N>(
    p: Seq<Spanned<Command<N>>>,
    q: Seq<Spanned<Command<N>>>,
    i: int,
)
    requires
        0 <= i,
        p.len() >= 100,
        q.len() >= 100,
        agree(p, q, 0, 100),
    ensures
        signature_from(p, i) == signature_from(q, i),
    decreases 100 - i,
{
    if i < 100 {
        assert(p[i] == q[i]);
        lemma_signatures_are_at_the_top(p, q, i + 1);
    }
}

/// The first comment among the first 100 commands that bears a signature gives it.
pub proof fn lemma_first_signature_counts<N>(p: Seq<Spanned<Command<N>>>, i: int, k: int)
    requires
        0 <= i <= k < p.len(),
        k < 100,
        p[k].inner is Comment,
        signature_in(p[k].inner->text, lowercase(p[k].inner->text)) is Some,
        forall|j: int|
            i <= j < k ==> ((#[trigger] p[j]).inner is Comment ==> signature_in(
                p[j].inner->text,
                lowercase(p[j].inner->text),
            ) is None),
    ensures
        signature_from(p, i) == Some(
            (
                signature_in(
                    p[k].inner->text,
                    lowercase(p[k].inner->text),
                )->0,
                p[k].line,
            ),
        ),
    decreases k - i,
{
    if i < k {
        assert(p[i].inner is Comment ==> signature_in(
            p[i].inner->text,
            lowercase(p[i].inner->text),
        ) is None);
        lemma_first_signature_counts(p, i + 1, k);
    }
}

proof fn lemma_comments_agree<N: Scalar>(
    m: SlicerModel<N>,
    p: Seq<Spanned<Command<N>>>,
    q: Seq<Spanned<Command<N>>>,
    cura: bool,
    from: int,
    to: int,
)
    requires
        agree(p, q, from, to),
    ensures
        with_comments(m, p, cura, from, to) == with_comments(m, q, cura, from, to),
    decreases to - from,
{
    if from < to {
        lemma_comments_agree(m, p, q, cura, from, to - 1);
        assert(p[to - 1] == q[to - 1]);
    }
}

/// What Cura says stands among the first 100 commands: programs that agree on these say
/// the same.
pub proof fn lemma_cura_speaks_at_the_top<N: Scalar>(
    m: SlicerModel<N>,
    p: Seq<Spanned<Command<N>>>,
    q: Seq<Spanned<Command<N>>>,
)
    requires
        p.len() >= 100,
        q.len() >= 100,
        agree(p, q, 0, 100),
    ensures
        with_metadata(m, p, SlicerDialect::Cura) == with_metadata(m, q, SlicerDialect::Cura),
{
    lemma_comments_agree(m, p, q, true, 0, 100);
}

proof fn lemma_last_config<N>(p: Seq<Spanned<Command<N>>>, n: int, at: int)
    requires
        0 <= at < n <= p.len(),
        opens_config(p[at].inner),
        forall|k: int| at < k < n ==> !opens_config((#[trigger] p[k]).inner),
    ensures
        last_config(p, n) == Some(at),
    decreases n,
{
    if at < n - 1 {
        assert(!opens_config(p[n - 1].inner));
        lemma_last_config(p, n - 1, at);
    }
}

/// What `OrcaSlicer` and `PrusaSlicer` say stands in the last configuration block, or up
/// to ten commands before it: programs that agree from there on say the same.
pub proof fn lemma_configuration_speaks<N: Scalar>(
    m: SlicerModel<N>,
    p: Seq<Spanned<Command<N>>>,
    q: Seq<Spanned<Command<N>>>,
    dialect: SlicerDialect,
    at: int,
)
    requires
        dialect == SlicerDialect::OrcaSlicer || dialect == SlicerDialect::PrusaSlicer,
        p.len() == q.len(),
        10 <= at < p.len(),
        p[at].inner is Comment && has_text(p[at].inner->text, "CONFIG_BLOCK_START"@),
        forall|k: int|
            at < k < p.len() ==> ((#[trigger] p[k]).inner is Comment ==> !has_text(
                p[k].inner->text,
                "CONFIG_BLOCK_START"@,
            )),
        agree(p, q, at - 10, p.len() as int),
    ensures
        with_metadata(m, p, dialect) == with_metadata(m, q, dialect),
{
    let n = p.len() as int;
    lemma_last_config(p, n, at);
    assert forall|k: int| at < k < n implies !opens_config((#[trigger] q[k]).inner) by {
        assert(p[k] == q[k]);
    }
    assert(p[at] == q[at]);
    lemma_last_config(q, n, at);
    lemma_comments_agree(m, p, q, false, at - 10, n);
}

// ── Missing fields ────────────────────────────────────────────────────────────

/// Whether a warning tells that the field is missing.
pub open spec fn warns_of(found: Seq<Finding>, field: Seq<char>) -> bool {
    exists|i: int|
        0 <= i < found.len() && (#[trigger] found[i]).code == "W005"@ && found[i].severity
            == Severity::Warning && found[i].message == "expected metadata field missing: "@
            + field
}

proof fn lemma_warnings_of_fields<N>(m: SlicerModel<N>, fields: Seq<Seq<char>>, n: int)
    requires
        0 <= n <= fields.len(),
    ensures
        forall|k: int|
            0 <= k < n && !has_field(m, #[trigger] fields[k]) ==> warns_of(
                missing_warnings(m, fields, n),
                fields[k],
            ),
        n > 0 ==> missing_warnings(m, fields, n).len() == missing_warnings(m, fields, n - 1).len()
            + if has_field(m, fields[n - 1]) {
            0int
        } else {
            1
        },
    decreases n,
{
    if n > 0 {
        lemma_warnings_of_fields(m, fields, n - 1);
        let before = missing_warnings(m, fields, n - 1);
        let now = missing_warnings(m, fields, n);
        assert forall|k: int| 0 <= k < n && !has_field(m, #[trigger] fields[k]) implies warns_of(
            now,
            fields[k],
        ) by {
            if k < n - 1 {
                let i = choose|i: int|
                    0 <= i < before.len() && (#[trigger] before[i]).code == "W005"@
                        && before[i].severity == Severity::Warning && before[i].message
                        == "expected metadata field missing: "@ + fields[k];
                assert(now[i] == before[i]);
            } else {
                assert(now[now.len() - 1] == missing_warning(fields[k]));
            }
        }
    }
}

/// Each of the six fields that the metadata lack is warned about, under the name that the
/// dialect has for it, and there are no more warnings than such fields.
pub proof fn lemma_missing_fields_are_warned_about<N>(m: SlicerModel<N>, dialect: SlicerDialect)
    requires
        dialect != SlicerDialect::Unknown,
    ensures
        ({
            let cura = dialect == SlicerDialect::Cura;
            let found = missing_warnings(
                m,
                dialect.fields_spec(),
                dialect.fields_spec().len() as int,
            );
            &&& m.nozzle_diameter_mm is None ==> warns_of(found, "nozzle_diameter_mm"@)
            &&& m.layer_height_mm is None ==> warns_of(found, "layer_height_mm"@)
            &&& m.filament_type is None ==> warns_of(found, "filament_type"@)
            &&& m.bed_temperature is None ==> warns_of(
                found,
                if cura {
                    "bed_temperature"@
                } else {
                    "first_layer_bed_temperature"@
                },
            )
            &&& m.hotend_temperature is None ==> warns_of(found, "hotend_temperature"@)
            &&& m.estimated_time_seconds is None ==> warns_of(
                found,
                if cura {
                    "print_time"@
                } else {
                    "estimated_time_seconds"@
                },
            )
            &&& found.len() == (if m.nozzle_diameter_mm is None {
                1int
            } else {
                0
            }) + (if m.layer_height_mm is None {
                1int
            } else {
                0
            }) + (if m.filament_type is None {
                1int
            } else {
                0
            }) + (if m.bed_temperature is None {
                1int
            } else {
                0
            }) + (if m.hotend_temperature is None {
                1int
            } else {
                0
            }) + (if m.estimated_time_seconds is None {
                1int
            } else {
                0
            })
        }),
{
    reveal_strlit("nozzle_diameter_mm");
    reveal_strlit("layer_height_mm");
    reveal_strlit("filament_type");
    reveal_strlit("first_layer_bed_temperature");
    reveal_strlit("bed_temperature");
    reveal_strlit("hotend_temperature");
    reveal_strlit("estimated_time_seconds");
    reveal_strlit("print_time");
    assert("nozzle_diameter_mm"@.len() == 18 && "nozzle_diameter_mm"@[0] == 'n');
    assert("layer_height_mm"@.len() == 15 && "layer_height_mm"@[0] == 'l');
    assert("filament_type"@.len() == 13);
    assert("first_layer_bed_temperature"@.len() == 27);
    assert("bed_temperature"@.len() == 15 && "bed_temperature"@[0] == 'b');
    assert("hotend_temperature"@.len() == 18 && "hotend_temperature"@[0] == 'h');
    assert("estimated_time_seconds"@.len() == 22);
    assert("print_time"@.len() == 10);
    let fields = dialect.fields_spec();
    lemma_warnings_of_fields(m, fields, 6);
    lemma_warnings_of_fields(m, fields, 5);
    lemma_warnings_of_fields(m, fields, 4);
    lemma_warnings_of_fields(m, fields, 3);
    lemma_warnings_of_fields(m, fields, 2);
    lemma_warnings_of_fields(m, fields, 1);
    lemma_warnings_of_fields(m, fields, 0);
    assert(has_field(m, fields[0]) == m.nozzle_diameter_mm is Some);
    assert(has_field(m, fields[1]) == m.layer_height_mm is Some);
    assert(has_field(m, fields[2]) == m.filament_type is Some);
    assert(has_field(m, fields[3]) == m.bed_temperature is Some);
    assert(has_field(m, fields[4]) == m.hotend_temperature is Some);
    assert(has_field(m, fields[5]) == m.estimated_time_seconds is Some);
}

} // verus!
