use std::borrow::Cow;

use gcode_sentinel::diagnostics::Severity;
use gcode_sentinel::dialect::{detect_dialect, Confidence, SlicerDialect};
use gcode_sentinel::models::{GCodeCommand, Spanned};
use gcode_sentinel::scalar::Scalar;

/// Double-precision numbers.
#[derive(Clone, Copy, Debug, PartialEq)]
struct R(f64);

impl Scalar for R {
    fn of(n: i64) -> R {
        R(n as f64)
    }
    fn count(n: u64) -> R {
        R(n as f64)
    }
    fn max_value() -> R {
        R(f64::MAX)
    }
    fn min_value() -> R {
        R(f64::MIN)
    }
    fn infinity() -> R {
        R(f64::INFINITY)
    }
    fn pi() -> R {
        R(std::f64::consts::PI)
    }
    fn tau() -> R {
        R(std::f64::consts::TAU)
    }
    fn plus(self, other: R) -> R {
        R(self.0 + other.0)
    }
    fn minus(self, other: R) -> R {
        R(self.0 - other.0)
    }
    fn times(self, other: R) -> R {
        R(self.0 * other.0)
    }
    fn over(self, other: R) -> R {
        R(self.0 / other.0)
    }
    fn negate(self) -> R {
        R(-self.0)
    }
    fn abs(self) -> R {
        R(self.0.abs())
    }
    fn sqrt(self) -> R {
        R(self.0.sqrt())
    }
    fn atan2(self, x: R) -> R {
        R(self.0.atan2(x.0))
    }
    fn min(self, other: R) -> R {
        R(self.0.min(other.0))
    }
    fn max(self, other: R) -> R {
        R(self.0.max(other.0))
    }
    fn round(self) -> R {
        R(self.0.round())
    }
    fn to_degrees(self) -> R {
        R(self.0.to_degrees())
    }
    fn less(self, other: R) -> bool {
        self.0 < other.0
    }
    fn at_most(self, other: R) -> bool {
        self.0 <= other.0
    }
    fn same(self, other: R) -> bool {
        self.0 == other.0
    }
    fn is_finite(self) -> bool {
        self.0.is_finite()
    }
    fn to_u32(self) -> u32 {
        self.0 as u32
    }
    fn parse(text: &str) -> Option<R> {
        text.parse::<f64>().ok().map(R)
    }
    fn fixed(self, places: usize) -> String {
        format!("{:.places$}", self.0)
    }
    fn display(self) -> String {
        format!("{}", self.0)
    }
}

/// Helper to build a `Spanned<GCodeCommand>` comment at a given line.
fn comment(line: u32, text: &str) -> Spanned<GCodeCommand<'_, R>> {
    Spanned {
        inner: GCodeCommand::Comment {
            text: Cow::Borrowed(text),
        },
        line,
        byte_offset: 0,
    }
}

/// Helper to build a `Spanned<GCodeCommand>` meta command.
fn meta(line: u32, code: u16, params: &str) -> Spanned<GCodeCommand<'_, R>> {
    Spanned {
        inner: GCodeCommand::MetaCommand {
            code,
            params: Cow::Borrowed(params),
        },
        line,
        byte_offset: 0,
    }
}

// ── Confidence ordering ──────────────────────────────────────────────

#[test]
fn given_confidence_enum_when_compared_then_none_is_lowest() {
    assert!(Confidence::Absent < Confidence::Low);
    assert!(Confidence::Low < Confidence::Medium);
    assert!(Confidence::Medium < Confidence::High);
}

// ── expected_fields ──────────────────────────────────────────────────

#[test]
fn given_orcaslicer_when_expected_fields_then_returns_six_fields() {
    let fields = SlicerDialect::OrcaSlicer.expected_fields();
    assert_eq!(fields.len(), 6);
    assert!(fields.contains(&"nozzle_diameter_mm"));
    assert!(fields.contains(&"estimated_time_seconds"));
}

#[test]
fn given_cura_when_expected_fields_then_returns_six_fields() {
    let fields = SlicerDialect::Cura.expected_fields();
    assert_eq!(fields.len(), 6);
    assert!(fields.contains(&"print_time"));
}

#[test]
fn given_unknown_when_expected_fields_then_returns_empty() {
    assert!(SlicerDialect::Unknown.expected_fields().is_empty());
}

// ── Phase 1: comment signature detection ─────────────────────────────

#[test]
fn given_orcaslicer_header_when_detected_then_high_confidence() {
    let commands = vec![
        comment(1, " generated by OrcaSlicer 2.1.0 on 2024-01-15"),
        comment(2, " some other comment"),
    ];
    let result = detect_dialect(&commands, None);
    assert_eq!(result.metadata.dialect, SlicerDialect::OrcaSlicer);
    assert_eq!(result.metadata.confidence, Confidence::High);
    assert_eq!(result.metadata.slicer_version.as_deref(), Some("2.1.0"));
}

#[test]
fn given_prusaslicer_header_when_detected_then_high_confidence() {
    let commands = vec![comment(
        1,
        " generated by PrusaSlicer 2.7.1+linux on 2024-03-01",
    )];
    let result = detect_dialect(&commands, None);
    assert_eq!(result.metadata.dialect, SlicerDialect::PrusaSlicer);
    assert_eq!(result.metadata.confidence, Confidence::High);
    assert_eq!(
        result.metadata.slicer_version.as_deref(),
        Some("2.7.1+linux")
    );
}

#[test]
fn given_cura_flavor_comment_when_detected_then_high_confidence() {
    let commands = vec![comment(1, "FLAVOR:Marlin")];
    let result = detect_dialect(&commands, None);
    assert_eq!(result.metadata.dialect, SlicerDialect::Cura);
    assert_eq!(result.metadata.confidence, Confidence::High);
}

#[test]
fn given_cura_generated_with_comment_when_detected_then_extracts_version() {
    let commands = vec![comment(1, " Generated with Cura_SteamEngine 5.6.0")];
    let result = detect_dialect(&commands, None);
    assert_eq!(result.metadata.dialect, SlicerDialect::Cura);
    assert_eq!(result.metadata.slicer_version.as_deref(), Some("5.6.0"));
}

#[test]
fn given_case_insensitive_header_when_detected_then_matches() {
    let commands = vec![comment(1, " GENERATED BY ORCASLICER 2.0.0")];
    let result = detect_dialect(&commands, None);
    assert_eq!(result.metadata.dialect, SlicerDialect::OrcaSlicer);
    assert_eq!(result.metadata.confidence, Confidence::High);
}

// ── Phase 2: heuristic detection ─────────────────────────────────────

#[test]
fn given_m73_with_p_and_r_when_heuristic_then_orca_signal() {
    let commands = vec![meta(1, 73, "P50 R30"), meta(2, 73, "P75 R15")];
    let result = detect_dialect(&commands, None);
    assert_eq!(result.metadata.dialect, SlicerDialect::OrcaSlicer);
    assert_eq!(result.metadata.confidence, Confidence::Medium);
}

#[test]
fn given_m73_with_p_only_when_heuristic_then_cura_signal() {
    let commands = vec![meta(1, 73, "P50"), meta(2, 73, "P75")];
    let result = detect_dialect(&commands, None);
    assert_eq!(result.metadata.dialect, SlicerDialect::Cura);
    assert_eq!(result.metadata.confidence, Confidence::Medium);
}

#[test]
fn given_m900_when_heuristic_then_prusaslicer_signal() {
    let commands = vec![meta(1, 900, "K0.04"), comment(2, "TYPE:External perimeter")];
    let result = detect_dialect(&commands, None);
    assert_eq!(result.metadata.dialect, SlicerDialect::PrusaSlicer);
    assert_eq!(result.metadata.confidence, Confidence::Medium);
}

#[test]
fn given_single_type_comment_when_heuristic_then_low_confidence() {
    let commands = vec![comment(1, "TYPE:Infill")];
    let result = detect_dialect(&commands, None);
    assert_eq!(result.metadata.dialect, SlicerDialect::OrcaSlicer);
    assert_eq!(result.metadata.confidence, Confidence::Low);
}

#[test]
fn given_no_signals_when_heuristic_then_unknown() {
    let commands = vec![meta(1, 104, "S200")];
    let result = detect_dialect(&commands, None);
    assert_eq!(result.metadata.dialect, SlicerDialect::Unknown);
    assert_eq!(result.metadata.confidence, Confidence::Absent);
}

// ── dialect_override ─────────────────────────────────────────────────

#[test]
fn given_dialect_override_when_detected_then_uses_override() {
    let commands = vec![comment(1, " generated by OrcaSlicer 2.1.0")];
    let result = detect_dialect(&commands, Some(SlicerDialect::PrusaSlicer));
    assert_eq!(result.metadata.dialect, SlicerDialect::PrusaSlicer);
    assert_eq!(result.metadata.confidence, Confidence::High);
}

#[test]
fn given_dialect_override_when_metadata_missing_then_no_w005() {
    let commands = vec![comment(1, " just a comment")];
    let result = detect_dialect(&commands, Some(SlicerDialect::OrcaSlicer));
    let w005_count = result
        .diagnostics
        .iter()
        .filter(|d| d.code == "W005")
        .count();
    assert_eq!(w005_count, 0);
}

// ── Metadata extraction: OrcaSlicer/PrusaSlicer footer ───────────────

#[test]
fn given_orca_footer_when_extracted_then_populates_all_fields() {
    let mut commands = vec![comment(1, " generated by OrcaSlicer 2.1.0")];
    // Pad to push footer into last 100
    for i in 2..50 {
        commands.push(meta(i, 1, "X10 Y10 E0.5"));
    }
    commands.push(comment(50, " nozzle_diameter = 0.4"));
    commands.push(comment(51, " layer_height = 0.2"));
    commands.push(comment(52, " filament_type = PLA"));
    commands.push(comment(53, " first_layer_bed_temperature = 55"));
    commands.push(comment(54, " nozzle_temperature = 210"));
    commands.push(comment(
        55,
        " estimated printing time (normal mode) = 2h 26m 25s",
    ));

    let result = detect_dialect(&commands, None);
    let m = &result.metadata;
    assert_eq!(m.nozzle_diameter_mm, Some(R(0.4)));
    assert_eq!(m.layer_height_mm, Some(R(0.2)));
    assert_eq!(m.filament_type.as_deref(), Some("PLA"));
    assert_eq!(m.bed_temperature, Some(R(55.0)));
    assert_eq!(m.hotend_temperature, Some(R(210.0)));
    assert_eq!(m.estimated_time_seconds, Some(R(8785.0)));
}

#[test]
fn given_orca_footer_when_subkey_present_then_exact_match_only() {
    // "nozzle_temperature_initial_layer" should NOT match "nozzle_temperature"
    let mut commands = vec![comment(1, " generated by OrcaSlicer 2.0.0")];
    commands.push(comment(2, " nozzle_temperature_initial_layer = 215"));
    commands.push(comment(3, " nozzle_temperature = 210"));

    let result = detect_dialect(&commands, None);
    assert_eq!(result.metadata.hotend_temperature, Some(R(210.0)));
}

// ── Metadata extraction: Cura header ─────────────────────────────────

#[test]
fn given_cura_header_when_extracted_then_populates_all_fields() {
    let commands = vec![
        comment(1, "FLAVOR:Marlin"),
        comment(2, "Nozzle size: 0.4"),
        comment(3, "Layer height: 0.2"),
        comment(4, "PRINT.TIME:3600"),
        comment(5, "Filament type: PLA"),
        comment(6, "BUILD_PLATE.INITIAL_TEMPERATURE:60"),
        comment(7, "EXTRUDER.INITIAL_TEMPERATURE:210"),
    ];

    let result = detect_dialect(&commands, None);
    let m = &result.metadata;
    assert_eq!(m.nozzle_diameter_mm, Some(R(0.4)));
    assert_eq!(m.layer_height_mm, Some(R(0.2)));
    assert_eq!(m.estimated_time_seconds, Some(R(3600.0)));
    assert_eq!(m.filament_type.as_deref(), Some("PLA"));
    assert_eq!(m.bed_temperature, Some(R(60.0)));
    assert_eq!(m.hotend_temperature, Some(R(210.0)));
}

// ── Diagnostics ──────────────────────────────────────────────────────

#[test]
fn given_detected_dialect_when_result_then_emits_i004() {
    let commands = vec![comment(1, " generated by OrcaSlicer 2.0.0")];
    let result = detect_dialect(&commands, None);
    let i004 = result.diagnostics.iter().find(|d| d.code == "I004");
    assert!(i004.is_some());
    assert_eq!(i004.unwrap().severity, Severity::Info);
    assert_eq!(i004.unwrap().line, 1);
}

#[test]
fn given_unknown_dialect_when_result_then_no_i004() {
    let commands = vec![meta(1, 104, "S200")];
    let result = detect_dialect(&commands, None);
    let i004 = result.diagnostics.iter().find(|d| d.code == "I004");
    assert!(i004.is_none());
}

#[test]
fn given_missing_metadata_when_detected_then_emits_w005() {
    let commands = vec![comment(1, " generated by OrcaSlicer 2.0.0")];
    let result = detect_dialect(&commands, None);
    let w005s: Vec<_> = result
        .diagnostics
        .iter()
        .filter(|d| d.code == "W005")
        .collect();
    // All 6 fields missing
    assert_eq!(w005s.len(), 6);
    assert!(w005s.iter().all(|d| d.severity == Severity::Warning));
}

#[test]
fn given_all_metadata_present_when_detected_then_no_w005() {
    let mut commands = vec![comment(1, " generated by OrcaSlicer 2.0.0")];
    commands.push(comment(2, " nozzle_diameter = 0.4"));
    commands.push(comment(3, " layer_height = 0.2"));
    commands.push(comment(4, " filament_type = PLA"));
    commands.push(comment(5, " first_layer_bed_temperature = 55"));
    commands.push(comment(6, " nozzle_temperature = 210"));
    commands.push(comment(
        7,
        " estimated printing time (normal mode) = 2h 26m 25s",
    ));

    let result = detect_dialect(&commands, None);
    let w005s: Vec<_> = result
        .diagnostics
        .iter()
        .filter(|d| d.code == "W005")
        .collect();
    assert_eq!(w005s.len(), 0);
}

// ── Edge cases ───────────────────────────────────────────────────────

#[test]
fn given_empty_commands_when_detected_then_unknown() {
    let result = detect_dialect::<R>(&[], None);
    assert_eq!(result.metadata.dialect, SlicerDialect::Unknown);
    assert_eq!(result.metadata.confidence, Confidence::Absent);
}

#[test]
fn given_signature_beyond_100_lines_when_detected_then_not_found_in_phase1() {
    let mut commands: Vec<Spanned<GCodeCommand<'_, R>>> = Vec::new();
    for i in 1..=100 {
        commands.push(meta(i, 1, "X10 Y10"));
    }
    commands.push(comment(101, " generated by OrcaSlicer 2.0.0"));
    let result = detect_dialect(&commands, None);
    // Phase 1 won't find it; heuristics won't match either
    assert_eq!(result.metadata.dialect, SlicerDialect::Unknown);
}
