//! What single comments say of a slicer.

use vstd::prelude::*;

use crate::dialect::{
    behind, key_value, lemma_token_len, seconds_in, signature_in, version_after, with_cura_field,
    with_orca_field, SignatureModel, SlicerDialect, SlicerModel,
};
use crate::scalar::Scalar;
use crate::text::{
    first_from, has_prefix, has_text, is_whitespace, lemma_index_of_char, lemma_trim_end_skips,
    lemma_trim_start_skips, lower_of, occurs_at, trim_of,
};

verus! {

/// Whether a text has characters, and no white space at either end.
pub open spec fn is_tidy(s: Seq<char>) -> bool {
    s.len() > 0 && !is_whitespace(s[0]) && !is_whitespace(s.last())
}

/// Whether a text has characters, none of which is white space.
pub open spec fn is_word(s: Seq<char>) -> bool {
    s.len() > 0 && forall|i: int| 0 <= i < s.len() ==> !is_whitespace(#[trigger] s[i])
}

proof fn lemma_tidy_is_kept(s: Seq<char>)
    requires
        is_tidy(s),
    ensures
        trim_of(s) == s,
{
    let n = s.len() as int;
    lemma_trim_start_skips(s, 0);
    assert(s.subrange(0, n) =~= s);
    lemma_trim_end_skips(s, n);
}

/// White space behind and before is dropped.
proof fn lemma_blanks_are_dropped(s: Seq<char>)
    requires
        is_tidy(s),
    ensures
        trim_of(s + seq![' ']) == s,
        trim_of(seq![' '] + s) == s,
{
    let n = s.len() as int;
    let a = s + seq![' '];
    lemma_trim_start_skips(a, 0);
    assert(a.subrange(0, a.len() as int) =~= a);
    lemma_trim_end_skips(a, n);
    assert(a.subrange(0, n) =~= s);
    let b = seq![' '] + s;
    lemma_trim_start_skips(b, 1);
    assert(b.subrange(1, b.len() as int) =~= s);
    lemma_trim_end_skips(s, n);
    assert(s.subrange(0, n) =~= s);
}

// ── Keys and values ───────────────────────────────────────────────────────────

/// The comment `key = value`.
pub open spec fn setting(key: Seq<char>, value: Seq<char>) -> Seq<char> {
    key + seq![' ', '=', ' '] + value
}

proof fn lemma_setting_is_read(key: Seq<char>, value: Seq<char>)
    requires
        is_tidy(key),
        is_tidy(value),
        !key.contains('='),
    ensures
        trim_of(setting(key, value)) == setting(key, value),
        key_value(setting(key, value)) == Some((key, value)),
{
    let s = setting(key, value);
    let at = key.len() as int + 1;
    assert(s.last() == value.last());
    assert(s[0] == key[0]);
    lemma_tidy_is_kept(s);
    assert forall|j: int| 0 <= j < at implies #[trigger] s[j] != '=' by {
        if j < key.len() {
            assert(s[j] == key[j]);
            assert(key.contains(key[j]));
        }
    }
    lemma_index_of_char(s, '=', at);
    assert(s.take(at) =~= key + seq![' ']);
    assert(s.skip(at + 1) =~= seq![' '] + value);
    lemma_blanks_are_dropped(key);
    lemma_blanks_are_dropped(value);
}

/// Each key of `OrcaSlicer` and `PrusaSlicer` sets the one field that it names, and a key
/// that begins with `estimated printing time` sets the print time.
pub proof fn lemma_settings_name_their_fields<N: Scalar>(
    m: SlicerModel<N>,
    value: Seq<char>,
    rest: Seq<char>,
)
    requires
        is_tidy(value),
        !rest.contains('='),
        rest.len() > 0 ==> !is_whitespace(rest.last()),
    ensures
        with_orca_field(m, setting("nozzle_diameter"@, value)) == (SlicerModel {
            nozzle_diameter_mm: N::parse_spec(value),
            ..m
        }),
        with_orca_field(m, setting("layer_height"@, value)) == (SlicerModel {
            layer_height_mm: N::parse_spec(value),
            ..m
        }),
        with_orca_field(m, setting("filament_type"@, value)) == (SlicerModel {
            filament_type: Some(value),
            ..m
        }),
        with_orca_field(m, setting("first_layer_bed_temperature"@, value)) == (SlicerModel {
            bed_temperature: N::parse_spec(value),
            ..m
        }),
        with_orca_field(m, setting("nozzle_temperature"@, value)) == (SlicerModel {
            hotend_temperature: N::parse_spec(value),
            ..m
        }),
        with_orca_field(m, setting("estimated printing time"@ + rest, value)) == (SlicerModel {
            estimated_time_seconds: seconds_in(value),
            ..m
        }),
{
    let time = "estimated printing time"@;
    reveal_strlit("nozzle_diameter");
    reveal_strlit("layer_height");
    reveal_strlit("filament_type");
    reveal_strlit("first_layer_bed_temperature");
    reveal_strlit("nozzle_temperature");
    reveal_strlit("estimated printing time");
    assert("nozzle_diameter"@.len() == 15 && "nozzle_diameter"@[0] == 'n');
    assert("layer_height"@.len() == 12 && "layer_height"@[0] == 'l');
    assert("filament_type"@.len() == 13 && "filament_type"@[0] == 'f');
    assert("first_layer_bed_temperature"@.len() == 27 && "first_layer_bed_temperature"@[0] == 'f');
    assert("nozzle_temperature"@.len() == 18 && "nozzle_temperature"@[0] == 'n');
    assert(time.len() == 23 && time[0] == 'e');
    lemma_setting_is_read("nozzle_diameter"@, value);
    lemma_setting_is_read("layer_height"@, value);
    lemma_setting_is_read("filament_type"@, value);
    lemma_setting_is_read("first_layer_bed_temperature"@, value);
    lemma_setting_is_read("nozzle_temperature"@, value);
    lemma_no_prefix(setting("nozzle_diameter"@, value), time);
    lemma_no_prefix(setting("layer_height"@, value), time);
    lemma_no_prefix(setting("filament_type"@, value), time);
    lemma_no_prefix(setting("first_layer_bed_temperature"@, value), time);
    lemma_no_prefix(setting("nozzle_temperature"@, value), time);
    let key = time + rest;
    assert(key[0] == 'e');
    assert(!key.contains('=')) by {
        if key.contains('=') {
            let i = choose|i: int| 0 <= i < key.len() && key[i] == '=';
            if i >= time.len() {
                assert(rest[i - time.len()] == '=');
            } else {
                assert(time[i] == '=');
            }
        }
    }
    assert(key.last() == if rest.len() > 0 {
        rest.last()
    } else {
        'e'
    });
    lemma_setting_is_read(key, value);
    let s = setting(key, value);
    assert(s.subrange(0, time.len() as int) =~= time);
    assert(has_prefix(s, time));
}

proof fn lemma_no_prefix(s: Seq<char>, prefix: Seq<char>)
    requires
        s.len() > 0,
        prefix.len() > 0,
        s[0] != prefix[0],
    ensures
        !has_prefix(s, prefix),
{
    if has_prefix(s, prefix) {
        assert(s.subrange(0, prefix.len() as int)[0] == s[0]);
    }
}

proof fn lemma_text_behind(prefix: Seq<char>, value: Seq<char>)
    requires
        is_tidy(prefix),
        is_tidy(value),
    ensures
        trim_of(prefix + value) == prefix + value,
        has_prefix(prefix + value, prefix),
        behind(prefix + value, prefix) == value,
{
    let s = prefix + value;
    assert(s[0] == prefix[0]);
    assert(s.last() == value.last());
    lemma_tidy_is_kept(s);
    assert(s.subrange(0, prefix.len() as int) =~= prefix);
    assert(s.skip(prefix.len() as int) =~= value);
    lemma_tidy_is_kept(value);
}

/// Each label of Cura sets the one field that it names.
pub proof fn lemma_labels_name_their_fields<N: Scalar>(m: SlicerModel<N>, value: Seq<char>)
    requires
        is_tidy(value),
    ensures
        with_cura_field(m, "Nozzle size:"@ + value) == (SlicerModel {
            nozzle_diameter_mm: N::parse_spec(value),
            ..m
        }),
        with_cura_field(m, "Layer height:"@ + value) == (SlicerModel {
            layer_height_mm: N::parse_spec(value),
            ..m
        }),
        with_cura_field(m, "PRINT.TIME:"@ + value) == (SlicerModel {
            estimated_time_seconds: N::parse_spec(value),
            ..m
        }),
        with_cura_field(m, "Filament type:"@ + value) == (SlicerModel {
            filament_type: Some(value),
            ..m
        }),
        with_cura_field(m, "BUILD_PLATE.INITIAL_TEMPERATURE:"@ + value) == (SlicerModel {
            bed_temperature: N::parse_spec(value),
            ..m
        }),
        with_cura_field(m, "EXTRUDER.INITIAL_TEMPERATURE:"@ + value) == (SlicerModel {
            hotend_temperature: N::parse_spec(value),
            ..m
        }),
{
    let nozzle = "Nozzle size:"@;
    let height = "Layer height:"@;
    let time = "PRINT.TIME:"@;
    let filament = "Filament type:"@;
    let bed = "BUILD_PLATE.INITIAL_TEMPERATURE:"@;
    let hotend = "EXTRUDER.INITIAL_TEMPERATURE:"@;
    reveal_strlit("Nozzle size:");
    reveal_strlit("Layer height:");
    reveal_strlit("PRINT.TIME:");
    reveal_strlit("Filament type:");
    reveal_strlit("BUILD_PLATE.INITIAL_TEMPERATURE:");
    reveal_strlit("EXTRUDER.INITIAL_TEMPERATURE:");
    assert(nozzle[0] == 'N' && height[0] == 'L' && time[0] == 'P');
    assert(filament[0] == 'F' && bed[0] == 'B' && hotend[0] == 'E');
    assert(nozzle.last() == ':' && height.last() == ':' && time.last() == ':');
    assert(filament.last() == ':' && bed.last() == ':' && hotend.last() == ':');
    lemma_text_behind(nozzle, value);
    lemma_text_behind(height, value);
    lemma_text_behind(time, value);
    lemma_text_behind(filament, value);
    lemma_text_behind(bed, value);
    lemma_text_behind(hotend, value);
    lemma_no_prefix(height + value, nozzle);
    lemma_no_prefix(time + value, nozzle);
    lemma_no_prefix(time + value, height);
    lemma_no_prefix(filament + value, nozzle);
    lemma_no_prefix(filament + value, height);
    lemma_no_prefix(filament + value, time);
    lemma_no_prefix(bed + value, nozzle);
    lemma_no_prefix(bed + value, height);
    lemma_no_prefix(bed + value, time);
    lemma_no_prefix(bed + value, filament);
    lemma_no_prefix(hotend + value, nozzle);
    lemma_no_prefix(hotend + value, height);
    lemma_no_prefix(hotend + value, time);
    lemma_no_prefix(hotend + value, filament);
    lemma_no_prefix(hotend + value, bed);
}

// ── Signatures ────────────────────────────────────────────────────────────────

/// A pattern whose first character occurs nowhere before `k` is first found at `k`.
proof fn lemma_found_at(s: Seq<char>, pattern: Seq<char>, from: int, k: int)
    requires
        0 <= from <= k,
        pattern.len() > 0,
        occurs_at(s, pattern, k),
        forall|i: int| 0 <= i < k ==> #[trigger] s[i] != pattern[0],
    ensures
        first_from(s, pattern, from) == Some(k),
    decreases k - from,
{
    if from < k {
        assert(s[from] != pattern[0]);
        if occurs_at(s, pattern, from) {
            assert(s.subrange(from, from + pattern.len())[0] == s[from]);
        }
        lemma_found_at(s, pattern, from + 1, k);
    }
}

/// The word behind a name is its version.
proof fn lemma_version_is_behind(before: Seq<char>, name: Seq<char>, version: Seq<char>)
    requires
        name.len() > 0,
        !before.contains(name[0]),
        is_word(version),
    ensures
        version_after(before + name + seq![' '] + version, name) == Some(version),
{
    let s = before + name + seq![' '] + version;
    let at = before.len() as int;
    assert(s.subrange(at, at + name.len()) =~= name);
    assert forall|i: int| 0 <= i < at implies #[trigger] s[i] != name[0] by {
        assert(s[i] == before[i]);
        assert(before.contains(before[i]));
    }
    lemma_found_at(s, name, 0, at);
    let tail = s.skip(at + name.len());
    assert(tail =~= seq![' '] + version);
    assert(tail[1] == version[0]);
    lemma_trim_start_skips(tail, 1);
    assert(tail.subrange(1, tail.len() as int) =~= version);
    lemma_token_len(version, version.len() as int);
    assert(version.take(version.len() as int) =~= version);
}

/// Whether blanks stand at two places of a pattern, `a` and `b`.
proof fn lemma_blanks_tell(lower: Seq<char>, pattern: Seq<char>, a: int, b: int)
    requires
        0 <= a < pattern.len(),
        0 <= b < pattern.len(),
        pattern[a] == ' ',
        pattern[b] == ' ',
        forall|at: int|
            0 <= at && at + pattern.len() <= lower.len() ==> !(#[trigger] lower[at + a] == ' '
                && lower[at + b] == ' '),
    ensures
        !has_text(lower, pattern),
{
    if has_text(lower, pattern) {
        let at = choose|at: int| occurs_at(lower, pattern, at);
        assert(lower.subrange(at, at + pattern.len())[a] == lower[at + a]);
        assert(lower.subrange(at, at + pattern.len())[b] == lower[at + b]);
    }
}

/// `generated by OrcaSlicer` and a version name `OrcaSlicer` and that version.
pub proof fn lemma_orca_slicer_signs(version: Seq<char>)
    requires
        is_word(version),
    ensures
        ({
            let text = "generated by "@ + "OrcaSlicer"@ + seq![' '] + version;
            signature_in(text, lower_of(text)) == Some(
                SignatureModel { dialect: SlicerDialect::OrcaSlicer, version: Some(version) },
            )
        }),
{
    let before = "generated by "@;
    let name = "OrcaSlicer"@;
    let pattern = "generated by orcaslicer"@;
    let text = before + name + seq![' '] + version;
    reveal_strlit("generated by ");
    reveal_strlit("OrcaSlicer");
    reveal_strlit("generated by orcaslicer");
    let lower = lower_of(text);
    assert(lower.subrange(0, 23) =~= pattern);
    assert(occurs_at(lower, pattern, 0));
    lemma_version_is_behind(before, name, version);
}

/// `generated by PrusaSlicer` and a version name `PrusaSlicer` and that version.
pub proof fn lemma_prusa_slicer_signs(version: Seq<char>)
    requires
        is_word(version),
    ensures
        ({
            let text = "generated by "@ + "PrusaSlicer"@ + seq![' '] + version;
            signature_in(text, lower_of(text)) == Some(
                SignatureModel { dialect: SlicerDialect::PrusaSlicer, version: Some(version) },
            )
        }),
{
    let before = "generated by "@;
    let name = "PrusaSlicer"@;
    let pattern = "generated by prusaslicer"@;
    let other = "generated by orcaslicer"@;
    let text = before + name + seq![' '] + version;
    reveal_strlit("generated by ");
    reveal_strlit("PrusaSlicer");
    reveal_strlit("generated by prusaslicer");
    reveal_strlit("generated by orcaslicer");
    let lower = lower_of(text);
    assert(lower.subrange(0, 24) =~= pattern);
    assert(occurs_at(lower, pattern, 0));
    assert(!has_text(lower, other)) by {
        if has_text(lower, other) {
            let at = choose|at: int| occurs_at(lower, other, at);
            let part = lower.subrange(at, at + other.len());
            assert(part[9] == lower[at + 9] && part[12] == lower[at + 12]);
            assert(part[13] == lower[at + 13]);
            assert(text[at + 9] == ' ' && text[at + 12] == ' ');
            if at + 12 >= 25 {
                assert(text[at + 12] == version[at + 12 - 25]);
                assert(!is_whitespace(version[at + 12 - 25]));
            }
        }
    }
    lemma_version_is_behind(before, name, version);
}

/// `Generated with Cura_SteamEngine` and a version name Cura and that version.
pub proof fn lemma_cura_signs(version: Seq<char>)
    requires
        is_word(version),
    ensures
        ({
            let text = "Generated with "@ + "Cura_SteamEngine"@ + seq![' '] + version;
            signature_in(text, lower_of(text)) == Some(
                SignatureModel { dialect: SlicerDialect::Cura, version: Some(version) },
            )
        }),
{
    let before = "Generated with "@;
    let name = "Cura_SteamEngine"@;
    let pattern = "generated with cura"@;
    let orca = "generated by orcaslicer"@;
    let prusa = "generated by prusaslicer"@;
    let text = before + name + seq![' '] + version;
    reveal_strlit("Generated with ");
    reveal_strlit("Cura_SteamEngine");
    reveal_strlit("generated with cura");
    reveal_strlit("generated by orcaslicer");
    reveal_strlit("generated by prusaslicer");
    let lower = lower_of(text);
    assert(lower.subrange(0, 19) =~= pattern);
    assert(occurs_at(lower, pattern, 0));
    assert forall|at: int| 0 <= at && at + 23 <= lower.len() implies !(#[trigger] lower[at + 9]
        == ' ' && lower[at + 12] == ' ') by {
        if at + 12 >= 32 {
            assert(text[at + 12] == version[at + 12 - 32]);
            assert(!is_whitespace(version[at + 12 - 32]));
        }
    }
    lemma_blanks_tell(lower, orca, 9, 12);
    lemma_blanks_tell(lower, prusa, 9, 12);
    lemma_version_is_behind(before, name, version);
}

/// `FLAVOR:` and the name of a firmware name Cura, without a version.
pub proof fn lemma_flavours_are_curas(flavour: Seq<char>)
    requires
        is_word(flavour),
    ensures
        ({
            let text = "FLAVOR:"@ + flavour;
            signature_in(text, lower_of(text)) == Some(
                SignatureModel { dialect: SlicerDialect::Cura, version: None },
            )
        }),
{
    let text = "FLAVOR:"@ + flavour;
    reveal_strlit("FLAVOR:");
    reveal_strlit("flavor:");
    reveal_strlit("generated with cura");
    reveal_strlit("generated by orcaslicer");
    reveal_strlit("generated by prusaslicer");
    let lower = lower_of(text);
    assert(lower.subrange(0, 7) =~= "flavor:"@);
    assert(occurs_at(lower, "flavor:"@, 0));
    assert forall|i: int| 0 <= i < lower.len() implies #[trigger] lower[i] != ' ' by {
        if i >= 7 {
            assert(text[i] == flavour[i - 7]);
            assert(!is_whitespace(flavour[i - 7]));
        }
    }
    lemma_blanks_tell(lower, "generated with cura"@, 9, 9);
    lemma_blanks_tell(lower, "generated by orcaslicer"@, 9, 9);
    lemma_blanks_tell(lower, "generated by prusaslicer"@, 9, 9);
}

} // verus!
