use std::borrow::Cow;

use gcode_sentinel::analyzer::analyze;
use gcode_sentinel::diagnostics::Severity;
use gcode_sentinel::models::{GCodeCommand, MachineLimits, Spanned};
use gcode_sentinel::scalar::Scalar;

/// Double-precision numbers.
#[derive(Clone, Copy, Debug, PartialEq)]
struct R(f64);

impl Scalar for R {
    fn of(n: i64) -> R {
        R(n as f64)
    }
    fn count(n: u64) -> R {
        R(n as f64)
    }
    fn max_value() -> R {
        R(f64::MAX)
    }
    fn min_value() -> R {
        R(f64::MIN)
    }
    fn infinity() -> R {
        R(f64::INFINITY)
    }
    fn pi() -> R {
        R(std::f64::consts::PI)
    }
    fn tau() -> R {
        R(std::f64::consts::TAU)
    }
    fn plus(self, other: R) -> R {
        R(self.0 + other.0)
    }
    fn minus(self, other: R) -> R {
        R(self.0 - other.0)
    }
    fn times(self, other: R) -> R {
        R(self.0 * other.0)
    }
    fn over(self, other: R) -> R {
        R(self.0 / other.0)
    }
    fn negate(self) -> R {
        R(-self.0)
    }
    fn abs(self) -> R {
        R(self.0.abs())
    }
    fn sqrt(self) -> R {
        R(self.0.sqrt())
    }
    fn atan2(self, x: R) -> R {
        R(self.0.atan2(x.0))
    }
    fn min(self, other: R) -> R {
        R(self.0.min(other.0))
    }
    fn max(self, other: R) -> R {
        R(self.0.max(other.0))
    }
    fn round(self) -> R {
        R(self.0.round())
    }
    fn to_degrees(self) -> R {
        R(self.0.to_degrees())
    }
    fn less(self, other: R) -> bool {
        self.0 < other.0
    }
    fn at_most(self, other: R) -> bool {
        self.0 <= other.0
    }
    fn same(self, other: R) -> bool {
        self.0 == other.0
    }
    fn is_finite(self) -> bool {
        self.0.is_finite()
    }
    fn to_u32(self) -> u32 {
        self.0 as u32
    }
    fn parse(text: &str) -> Option<R> {
        text.parse::<f64>().ok().map(R)
    }
    fn fixed(self, places: usize) -> String {
        format!("{:.places$}", self.0)
    }
    fn display(self) -> String {
        format!("{}", self.0)
    }
}

// ── helpers ──────────────────────────────────────────────────────────────

/// Wrap a command in a `Spanned` with a given line number.
fn sp(cmd: GCodeCommand<'static, R>, line: u32) -> Spanned<GCodeCommand<'static, R>> {
    Spanned {
        inner: cmd,
        line,
        byte_offset: 0,
    }
}

fn linear(
    lx: Option<f64>,
    ly: Option<f64>,
    lz: Option<f64>,
    le: Option<f64>,
    lf: Option<f64>,
) -> GCodeCommand<'static, R> {
    GCodeCommand::LinearMove {
        x: lx.map(R),
        y: ly.map(R),
        z: lz.map(R),
        e: le.map(R),
        f: lf.map(R),
    }
}

fn rapid(
    rx: Option<f64>,
    ry: Option<f64>,
    rz: Option<f64>,
    rf: Option<f64>,
) -> GCodeCommand<'static, R> {
    GCodeCommand::RapidMove {
        x: rx.map(R),
        y: ry.map(R),
        z: rz.map(R),
        f: rf.map(R),
    }
}

// ── 1. Basic absolute-mode move tracking and bbox ─────────────────────────

#[test]
fn test_absolute_move_bbox() {
    let cmds = vec![
        sp(GCodeCommand::SetAbsolute, 1),
        sp(linear(Some(10.0), Some(20.0), Some(5.0), Some(1.0), None), 2),
        sp(linear(Some(50.0), Some(80.0), Some(5.0), Some(2.0), None), 3),
    ];
    let result = analyze(&cmds, None);

    assert_eq!(result.stats.move_count, 2);
    assert!((result.stats.bbox_min.x.0 - 10.0).abs() < f64::EPSILON);
    assert!((result.stats.bbox_min.y.0 - 20.0).abs() < f64::EPSILON);
    assert!((result.stats.bbox_max.x.0 - 50.0).abs() < f64::EPSILON);
    assert!((result.stats.bbox_max.y.0 - 80.0).abs() < f64::EPSILON);
    // No error/warning diagnostics for valid positive-coordinate extrusion.
    let bad: Vec<_> = result
        .diagnostics
        .iter()
        .filter(|d| d.severity >= Severity::Warning)
        .collect();
    assert!(bad.is_empty(), "unexpected diagnostics: {bad:?}");
}

// ── 2. G91 relative mode position update ─────────────────────────────────

#[test]
fn test_relative_mode_position() {
    let cmds = vec![
        sp(GCodeCommand::SetRelative, 1),
        // From (0,0,0) move +10,+5 → absolute (10, 5, 0).
        sp(linear(Some(10.0), Some(5.0), None, None, None), 2),
        // Then +10,+5 again → (20, 10, 0).
        sp(linear(Some(10.0), Some(5.0), None, None, None), 3),
    ];
    let result = analyze(&cmds, None);

    assert_eq!(result.stats.move_count, 2);
    assert!((result.stats.bbox_max.x.0 - 20.0).abs() < f64::EPSILON);
    assert!((result.stats.bbox_max.y.0 - 10.0).abs() < f64::EPSILON);
}

// ── 3. G92 E0 extruder reset ─────────────────────────────────────────────

#[test]
fn test_g92_extruder_reset() {
    let cmds = vec![
        sp(GCodeCommand::SetAbsolute, 1),
        // Extrude to E=5.0 — filament delta = 5.0.
        sp(linear(Some(10.0), None, None, Some(5.0), None), 2),
        // G92 E0 — reset extruder logical position to 0.
        sp(
            GCodeCommand::SetPosition {
                x: None,
                y: None,
                z: None,
                e: Some(R(0.0)),
            },
            3,
        ),
        // Extrude to E=3.0 — delta is 3.0 from the new zero.
        sp(linear(Some(20.0), None, None, Some(3.0), None), 4),
    ];
    let result = analyze(&cmds, None);

    // Total filament should be 5.0 + 3.0 = 8.0, not 5.0 + (3.0−5.0).
    assert!(
        (result.stats.total_filament_mm.0 - 8.0).abs() < 1e-9,
        "expected 8.0 mm filament, got {}",
        result.stats.total_filament_mm.0
    );
}

// ── 4. Out-of-bounds detection ────────────────────────────────────────────

#[test]
fn test_out_of_bounds_x() {
    let limits = MachineLimits {
        max_x: R(100.0),
        max_y: R(100.0),
        max_z: R(100.0),
    };
    let cmds = vec![
        sp(GCodeCommand::SetAbsolute, 1),
        sp(linear(Some(150.0), Some(50.0), Some(1.0), None, None), 2),
    ];
    let result = analyze(&cmds, Some(&limits));

    let e001: Vec<_> = result
        .diagnostics
        .iter()
        .filter(|d| d.code == "E001")
        .collect();
    assert_eq!(e001.len(), 1);
    assert_eq!(e001[0].severity, Severity::Error);
    assert_eq!(e001[0].line, 2);
}

#[test]
fn test_out_of_bounds_all_axes() {
    let limits = MachineLimits {
        max_x: R(100.0),
        max_y: R(100.0),
        max_z: R(100.0),
    };
    let cmds = vec![
        sp(GCodeCommand::SetAbsolute, 1),
        sp(rapid(Some(110.0), Some(120.0), Some(130.0), None), 2),
    ];
    let result = analyze(&cmds, Some(&limits));

    let codes: Vec<_> = result.diagnostics.iter().map(|d| d.code).collect();
    assert!(codes.contains(&"E001"), "missing E001 in {codes:?}");
    assert!(codes.contains(&"E002"), "missing E002 in {codes:?}");
    assert!(codes.contains(&"E003"), "missing E003 in {codes:?}");
}

#[test]
fn test_no_bounds_check_without_limits() {
    let cmds = vec![
        sp(GCodeCommand::SetAbsolute, 1),
        sp(
            linear(Some(9999.0), Some(9999.0), Some(9999.0), None, None),
            2,
        ),
    ];
    // No limits supplied — should produce zero Error diagnostics.
    let result = analyze(&cmds, None);
    let errors: Vec<_> = result
        .diagnostics
        .iter()
        .filter(|d| d.severity == Severity::Error)
        .collect();
    assert!(errors.is_empty());
}

// ── 5. OrcaSlicer ;LAYER_CHANGE comment increments layer count ────────────

#[test]
fn test_orca_layer_change_comment() {
    let cmds = vec![
        sp(
            GCodeCommand::Comment {
                text: Cow::Borrowed("LAYER_CHANGE"),
            },
            1,
        ),
        sp(
            GCodeCommand::Comment {
                text: Cow::Borrowed("LAYER_CHANGE"),
            },
            2,
        ),
        sp(
            GCodeCommand::Comment {
                text: Cow::Borrowed("some other comment"),
            },
            3,
        ),
    ];
    let result = analyze(&cmds, None);

    assert_eq!(result.stats.layer_count, 2);
}

// ── 6. Z-based layer detection fallback ──────────────────────────────────

#[test]
fn test_z_based_layer_detection() {
    let cmds = vec![
        sp(GCodeCommand::SetAbsolute, 1),
        // Z=0.2 — first layer.
        sp(linear(Some(10.0), None, Some(0.2), Some(1.0), None), 2),
        // Z=0.4 — second layer.
        sp(linear(Some(20.0), None, Some(0.4), Some(1.0), None), 3),
        // Z stays at 0.4 — no new layer.
        sp(linear(Some(30.0), None, Some(0.4), Some(1.0), None), 4),
    ];
    let result = analyze(&cmds, None);

    // Two Z increases: 0→0.2 and 0.2→0.4.
    assert_eq!(result.stats.layer_count, 2);

    let i001: Vec<_> = result
        .diagnostics
        .iter()
        .filter(|d| d.code == "I001")
        .collect();
    assert_eq!(i001.len(), 2);
    assert_eq!(i001[0].severity, Severity::Info);
}

// ── 7. Estimated time with non-default feedrate ───────────────────────────

#[test]
fn test_estimated_time_with_feedrate() {
    // 100 mm move at 6 000 mm/min = 1.0 second.
    let cmds = vec![
        sp(GCodeCommand::SetAbsolute, 1),
        sp(linear(Some(100.0), None, None, None, Some(6_000.0)), 2),
    ];
    let result = analyze(&cmds, None);

    // distance = 100 mm, feedrate = 6000 mm/min → time = 100 / (6000/60) = 1.0 s
    assert!(
        (result.stats.estimated_time_seconds.0 - 1.0).abs() < 1e-9,
        "expected 1.0 s, got {}",
        result.stats.estimated_time_seconds.0
    );
}

// ── 8. Retraction diagnostic tiers ───────────────────────────────────────

#[test]
fn test_retraction_info_small() {
    // Small retraction: absolute E 5.0 → 4.5, delta = -0.5 (< 2.0 mm).
    let cmds = vec![
        sp(GCodeCommand::SetAbsolute, 1),
        sp(linear(None, None, None, Some(5.0), None), 2),
        sp(linear(None, None, None, Some(4.5), None), 3),
    ];
    let result = analyze(&cmds, None);

    let w002: Vec<_> = result
        .diagnostics
        .iter()
        .filter(|d| d.code == "W002")
        .collect();
    assert_eq!(w002.len(), 1);
    assert_eq!(w002[0].severity, Severity::Info);
}

#[test]
fn test_retraction_warning_large() {
    // Large retraction: absolute E 10.0 → 5.0, delta = -5.0.
    let cmds = vec![
        sp(GCodeCommand::SetAbsolute, 1),
        sp(linear(None, None, None, Some(10.0), None), 2),
        sp(linear(None, None, None, Some(5.0), None), 3),
    ];
    let result = analyze(&cmds, None);

    let w002: Vec<_> = result
        .diagnostics
        .iter()
        .filter(|d| d.code == "W002")
        .collect();
    assert_eq!(w002.len(), 1);
    assert_eq!(w002[0].severity, Severity::Warning);
}

// ── 9. Negative coordinate warning ───────────────────────────────────────

#[test]
fn test_negative_coordinate_warning() {
    let cmds = vec![
        sp(GCodeCommand::SetAbsolute, 1),
        sp(linear(Some(-1.0), Some(10.0), Some(0.0), None, None), 2),
    ];
    let result = analyze(&cmds, None);

    let w001: Vec<_> = result
        .diagnostics
        .iter()
        .filter(|d| d.code == "W001")
        .collect();
    assert_eq!(w001.len(), 1);
    assert_eq!(w001[0].severity, Severity::Warning);
}

// ── 10. Filament accounting: only positive deltas count ──────────────────

#[test]
fn test_filament_only_positive_deltas() {
    let cmds = vec![
        sp(GCodeCommand::SetAbsolute, 1),
        sp(linear(Some(10.0), None, None, Some(5.0), None), 2),
        // Retract to 3.0 — delta = -2.0, should NOT add to filament_mm.
        sp(linear(Some(20.0), None, None, Some(3.0), None), 3),
        // Extrude again to 8.0 — delta = +5.0.
        sp(linear(Some(30.0), None, None, Some(8.0), None), 4),
    ];
    let result = analyze(&cmds, None);

    // Positive deltas only: 5.0 + 5.0 = 10.0 mm.
    assert!(
        (result.stats.total_filament_mm.0 - 10.0).abs() < 1e-9,
        "expected 10.0, got {}",
        result.stats.total_filament_mm.0
    );
}
