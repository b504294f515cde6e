use std::borrow::Cow;

use gcode_sentinel::models::{GCodeCommand, Spanned};
use gcode_sentinel::optimizer::{
    insert_progress_markers, merge_collinear, optimize, OptConfig,
};
use gcode_sentinel::scalar::Scalar;

/// Double-precision numbers.
#[derive(Clone, Copy, Debug, PartialEq)]
struct R(f64);

impl Scalar for R {
    fn of(n: i64) -> R {
        R(n as f64)
    }
    fn count(n: u64) -> R {
        R(n as f64)
    }
    fn max_value() -> R {
        R(f64::MAX)
    }
    fn min_value() -> R {
        R(f64::MIN)
    }
    fn infinity() -> R {
        R(f64::INFINITY)
    }
    fn pi() -> R {
        R(std::f64::consts::PI)
    }
    fn tau() -> R {
        R(std::f64::consts::TAU)
    }
    fn plus(self, other: R) -> R {
        R(self.0 + other.0)
    }
    fn minus(self, other: R) -> R {
        R(self.0 - other.0)
    }
    fn times(self, other: R) -> R {
        R(self.0 * other.0)
    }
    fn over(self, other: R) -> R {
        R(self.0 / other.0)
    }
    fn negate(self) -> R {
        R(-self.0)
    }
    fn abs(self) -> R {
        R(self.0.abs())
    }
    fn sqrt(self) -> R {
        R(self.0.sqrt())
    }
    fn atan2(self, x: R) -> R {
        R(self.0.atan2(x.0))
    }
    fn min(self, other: R) -> R {
        R(self.0.min(other.0))
    }
    fn max(self, other: R) -> R {
        R(self.0.max(other.0))
    }
    fn round(self) -> R {
        R(self.0.round())
    }
    fn to_degrees(self) -> R {
        R(self.0.to_degrees())
    }
    fn less(self, other: R) -> bool {
        self.0 < other.0
    }
    fn at_most(self, other: R) -> bool {
        self.0 <= other.0
    }
    fn same(self, other: R) -> bool {
        self.0 == other.0
    }
    fn is_finite(self) -> bool {
        self.0.is_finite()
    }
    fn to_u32(self) -> u32 {
        self.0 as u32
    }
    fn parse(text: &str) -> Option<R> {
        text.parse::<f64>().ok().map(R)
    }
    fn fixed(self, places: usize) -> String {
        format!("{:.places$}", self.0)
    }
    fn display(self) -> String {
        format!("{}", self.0)
    }
}

// ── Helpers ───────────────────────────────────────────────────────────────

/// Wrap a command at a synthetic line number for test use.
fn spanned(cmd: GCodeCommand<'static, R>, line: u32) -> Spanned<GCodeCommand<'static, R>> {
    Spanned {
        inner: cmd,
        line,
        byte_offset: 0,
    }
}

fn g1_empty() -> GCodeCommand<'static, R> {
    GCodeCommand::LinearMove {
        x: None,
        y: None,
        z: None,
        e: None,
        f: None,
    }
}

fn g1_at(x: f64, y: f64) -> GCodeCommand<'static, R> {
    GCodeCommand::LinearMove {
        x: Some(R(x)),
        y: Some(R(y)),
        z: None,
        e: None,
        f: None,
    }
}

fn g1_f_only(f: f64) -> GCodeCommand<'static, R> {
    GCodeCommand::LinearMove {
        x: None,
        y: None,
        z: None,
        e: None,
        f: Some(R(f)),
    }
}

fn g90() -> GCodeCommand<'static, R> {
    GCodeCommand::SetAbsolute
}

fn m106(params: &'static str) -> GCodeCommand<'static, R> {
    GCodeCommand::MetaCommand {
        code: 106,
        params: Cow::Borrowed(params),
    }
}

fn m104(params: &'static str) -> GCodeCommand<'static, R> {
    GCodeCommand::MetaCommand {
        code: 104,
        params: Cow::Borrowed(params),
    }
}

fn m1_misc(code: u16) -> GCodeCommand<'static, R> {
    GCodeCommand::MetaCommand {
        code,
        params: Cow::Borrowed(""),
    }
}

// ── Rule 1: empty G1 ─────────────────────────────────────────────────────

#[test]
fn empty_g1_is_removed() {
    let cmds = vec![spanned(g1_empty(), 1)];
    let result = optimize(cmds, &OptConfig::default());
    assert!(result.commands.is_empty(), "empty G1 should be removed");
    assert_eq!(result.changes.len(), 1);
    assert_eq!(
        result.changes[0].description,
        "empty move with no parameters"
    );
}

#[test]
fn non_empty_g1_is_preserved() {
    let cmds = vec![spanned(g1_at(10.0, 20.0), 1)];
    let result = optimize(cmds, &OptConfig::default());
    assert_eq!(result.commands.len(), 1, "non-empty G1 must be kept");
    assert!(result.changes.is_empty());
}

// ── Rule 2: duplicate G90 ────────────────────────────────────────────────

#[test]
fn duplicate_g90_second_removed() {
    let cmds = vec![spanned(g90(), 1), spanned(g90(), 2)];
    let result = optimize(cmds, &OptConfig::default());
    assert_eq!(result.commands.len(), 1, "second G90 must be removed");
    assert_eq!(result.commands[0].line, 1);
    assert_eq!(result.changes.len(), 1);
    assert_eq!(
        result.changes[0].description,
        "duplicate mode switch (G90/G91 already active)"
    );
}

#[test]
fn duplicate_g90_with_comment_between_still_removed() {
    // Comments are transparent for duplicate-detection purposes.
    let cmds = vec![
        spanned(g90(), 1),
        spanned(
            GCodeCommand::Comment {
                text: Cow::Borrowed("a comment"),
            },
            2,
        ),
        spanned(g90(), 3),
    ];
    let result = optimize(cmds, &OptConfig::default());
    // The comment is kept; only the second G90 is removed.
    assert_eq!(result.commands.len(), 2);
    assert_eq!(result.changes.len(), 1);
    assert_eq!(result.changes[0].line, 3);
}

// ── Rule 3: duplicate M106 ───────────────────────────────────────────────

#[test]
fn duplicate_m106_same_params_removed() {
    let cmds = vec![spanned(m106("S255"), 1), spanned(m106("S255"), 2)];
    let result = optimize(cmds, &OptConfig::default());
    assert_eq!(result.commands.len(), 1);
    assert_eq!(
        result.changes[0].description,
        "duplicate fan command (same setting already active)"
    );
}

#[test]
fn m106_different_params_both_kept() {
    let cmds = vec![spanned(m106("S128"), 1), spanned(m106("S255"), 2)];
    let result = optimize(cmds, &OptConfig::default());
    assert_eq!(result.commands.len(), 2);
    assert!(result.changes.is_empty());
}

// ── Rule 4: zero-delta move ──────────────────────────────────────────────

#[test]
fn zero_delta_move_in_absolute_mode_removed() {
    // Start at (0, 0), then issue G1 X0 Y0 — no displacement.
    let cmds = vec![
        spanned(g90(), 1),           // ensure absolute mode
        spanned(g1_at(0.0, 0.0), 2), // zero-delta from default origin
    ];
    let result = optimize(cmds, &OptConfig::default());
    // G90 kept, G1 removed.
    assert_eq!(result.commands.len(), 1);
    assert_eq!(result.changes.len(), 1);
    assert_eq!(
        result.changes[0].description,
        "zero-delta move (no net displacement)"
    );
}

#[test]
fn zero_delta_after_real_move_removed() {
    // Move to (10, 20), then issue another G1 X10 Y20.
    let cmds = vec![
        spanned(g90(), 1),
        spanned(g1_at(10.0, 20.0), 2), // actual move
        spanned(g1_at(10.0, 20.0), 3), // zero-delta — should be removed
    ];
    let result = optimize(cmds, &OptConfig::default());
    assert_eq!(
        result.commands.len(),
        2,
        "second move to same pos should be removed"
    );
    assert_eq!(result.changes.len(), 1);
    assert_eq!(result.changes[0].line, 3);
}

#[test]
fn feedrate_only_g1_not_removed() {
    // G1 F3000 — feedrate-only command; Rule 4 exception.
    let cmds = vec![spanned(g90(), 1), spanned(g1_f_only(3000.0), 2)];
    let result = optimize(cmds, &OptConfig::default());
    assert_eq!(
        result.commands.len(),
        2,
        "feedrate-only G1 must be preserved"
    );
    assert!(result.changes.is_empty());
}

#[test]
fn zero_delta_with_feedrate_not_removed() {
    // G1 X0 Y0 F3000 — moves to current position but changes feedrate.
    // The feedrate change is meaningful, so keep it.
    let cmds = vec![
        spanned(g90(), 1),
        spanned(
            GCodeCommand::LinearMove {
                x: Some(R(0.0)),
                y: Some(R(0.0)),
                z: None,
                e: None,
                f: Some(R(3000.0)),
            },
            2,
        ),
    ];
    let result = optimize(cmds, &OptConfig::default());
    assert_eq!(
        result.commands.len(),
        2,
        "move with feedrate change must be kept"
    );
    assert!(result.changes.is_empty());
}

#[test]
fn zero_delta_in_relative_mode_not_removed() {
    // In relative mode, G1 X0 Y0 is explicit user intent (e.g. to set feedrate
    // implicitly or as a deliberate no-op delay).
    let cmds = vec![
        spanned(GCodeCommand::SetRelative, 1),
        spanned(g1_at(0.0, 0.0), 2),
    ];
    let result = optimize(cmds, &OptConfig::default());
    assert_eq!(
        result.commands.len(),
        2,
        "zero move in relative mode must be kept"
    );
    assert!(result.changes.is_empty());
}

fn g0_x(x: f64) -> GCodeCommand<'static, R> {
    GCodeCommand::RapidMove {
        x: Some(R(x)),
        y: None,
        z: None,
        f: None,
    }
}

fn g0_x_f(x: f64, f: f64) -> GCodeCommand<'static, R> {
    GCodeCommand::RapidMove {
        x: Some(R(x)),
        y: None,
        z: None,
        f: Some(R(f)),
    }
}

fn g0_y(y: f64) -> GCodeCommand<'static, R> {
    GCodeCommand::RapidMove {
        x: None,
        y: Some(R(y)),
        z: None,
        f: None,
    }
}

fn g1_x_e(x: f64, e: f64) -> GCodeCommand<'static, R> {
    GCodeCommand::LinearMove {
        x: Some(R(x)),
        y: None,
        z: None,
        e: Some(R(e)),
        f: None,
    }
}

// ── Rule 7: consecutive same-axis travel merging ─────────────────────────

#[test]
fn test_rule7_same_axis_rapid_first_removed() {
    let cmds = vec![spanned(g0_x(10.0), 1), spanned(g0_x(20.0), 2)];
    let result = optimize(cmds, &OptConfig::default());
    assert_eq!(result.commands.len(), 1, "first G0 X should be removed");
    assert_eq!(result.commands[0].line, 2);
    assert_eq!(result.changes.len(), 1);
}

#[test]
fn test_rule7_different_axes_both_kept() {
    let cmds = vec![spanned(g0_x(10.0), 1), spanned(g0_y(20.0), 2)];
    let result = optimize(cmds, &OptConfig::default());
    assert_eq!(result.commands.len(), 2, "different axes must both be kept");
    assert!(result.changes.is_empty());
}

#[test]
fn test_rule7_extruding_moves_both_kept() {
    let cmds = vec![spanned(g1_x_e(10.0, 1.0), 1), spanned(g1_x_e(20.0, 2.0), 2)];
    let result = optimize(cmds, &OptConfig::default());
    assert_eq!(
        result.commands.len(),
        2,
        "extruding moves must both be kept"
    );
    assert!(result.changes.is_empty());
}

#[test]
fn test_rule7_different_feedrates_both_kept() {
    let cmds = vec![
        spanned(g0_x_f(10.0, 3000.0), 1),
        spanned(g0_x_f(20.0, 6000.0), 2),
    ];
    let result = optimize(cmds, &OptConfig::default());
    assert_eq!(
        result.commands.len(),
        2,
        "different feedrates must both be kept"
    );
    assert!(result.changes.is_empty());
}

// ── Rule 8: redundant feedrate elimination ───────────────────────────

#[test]
fn test_rule8_redundant_feedrate_stripped() {
    let cmds = vec![
        spanned(
            GCodeCommand::LinearMove {
                x: Some(R(10.0)),
                y: None,
                z: None,
                e: None,
                f: Some(R(3000.0)),
            },
            1,
        ),
        spanned(
            GCodeCommand::LinearMove {
                x: Some(R(20.0)),
                y: None,
                z: None,
                e: None,
                f: Some(R(3000.0)),
            },
            2,
        ),
    ];
    let result = optimize(cmds, &OptConfig::default());
    assert_eq!(result.commands.len(), 2, "both moves must survive");
    match &result.commands[0].inner {
        GCodeCommand::LinearMove { f, .. } => assert_eq!(*f, Some(R(3000.0))),
        other => panic!("expected LinearMove, got {other:?}"),
    }
    match &result.commands[1].inner {
        GCodeCommand::LinearMove { f, .. } => {
            assert_eq!(*f, None, "redundant F should be stripped")
        }
        other => panic!("expected LinearMove, got {other:?}"),
    }
    assert_eq!(result.changes.len(), 1);
}

#[test]
fn test_rule8_first_feedrate_preserved() {
    let cmds = vec![spanned(
        GCodeCommand::LinearMove {
            x: Some(R(10.0)),
            y: None,
            z: None,
            e: None,
            f: Some(R(3000.0)),
        },
        1,
    )];
    let result = optimize(cmds, &OptConfig::default());
    match &result.commands[0].inner {
        GCodeCommand::LinearMove { f, .. } => {
            assert_eq!(*f, Some(R(3000.0)), "first F must be preserved")
        }
        other => panic!("expected LinearMove, got {other:?}"),
    }
    assert!(result.changes.is_empty());
}

#[test]
fn test_rule8_feedrate_change_preserved() {
    let cmds = vec![
        spanned(
            GCodeCommand::LinearMove {
                x: Some(R(10.0)),
                y: None,
                z: None,
                e: None,
                f: Some(R(3000.0)),
            },
            1,
        ),
        spanned(
            GCodeCommand::LinearMove {
                x: Some(R(20.0)),
                y: None,
                z: None,
                e: None,
                f: Some(R(6000.0)),
            },
            2,
        ),
    ];
    let result = optimize(cmds, &OptConfig::default());
    match &result.commands[1].inner {
        GCodeCommand::LinearMove { f, .. } => {
            assert_eq!(*f, Some(R(6000.0)), "changed F must be preserved")
        }
        other => panic!("expected LinearMove, got {other:?}"),
    }
    assert!(result.changes.is_empty());
}

#[test]
fn test_rule8_rapid_move_feedrate_stripped() {
    let cmds = vec![
        spanned(
            GCodeCommand::RapidMove {
                x: Some(R(10.0)),
                y: None,
                z: None,
                f: Some(R(9000.0)),
            },
            1,
        ),
        spanned(
            GCodeCommand::RapidMove {
                x: Some(R(20.0)),
                y: None,
                z: None,
                f: Some(R(9000.0)),
            },
            2,
        ),
    ];
    let result = optimize(cmds, &OptConfig::default());
    match &result.commands[1].inner {
        GCodeCommand::RapidMove { f, .. } => {
            assert_eq!(*f, None, "redundant F on G0 should be stripped")
        }
        other => panic!("expected RapidMove, got {other:?}"),
    }
}

#[test]
fn test_rule8_no_feedrate_no_change() {
    let cmds = vec![spanned(g1_at(10.0, 20.0), 1), spanned(g1_at(30.0, 40.0), 2)];
    let result = optimize(cmds, &OptConfig::default());
    assert!(
        result.changes.is_empty(),
        "no F means no feedrate change to report"
    );
}

#[test]
fn test_rule7_comment_between_still_removed() {
    let cmds = vec![
        spanned(g0_x(10.0), 1),
        spanned(
            GCodeCommand::Comment {
                text: Cow::Borrowed("move"),
            },
            2,
        ),
        spanned(g0_x(20.0), 3),
    ];
    let result = optimize(cmds, &OptConfig::default());
    assert_eq!(
        result.commands.len(),
        2,
        "first G0 X should be removed through comment"
    );
    let kept_lines: Vec<u32> = result.commands.iter().map(|s| s.line).collect();
    assert_eq!(kept_lines, vec![2, 3]);
}

#[test]
fn test_rule7_multi_axis_move_not_matched() {
    let cmds = vec![
        spanned(
            GCodeCommand::RapidMove {
                x: Some(R(10.0)),
                y: Some(R(20.0)),
                z: None,
                f: None,
            },
            1,
        ),
        spanned(
            GCodeCommand::RapidMove {
                x: Some(R(30.0)),
                y: Some(R(40.0)),
                z: None,
                f: None,
            },
            2,
        ),
    ];
    let result = optimize(cmds, &OptConfig::default());
    assert_eq!(
        result.commands.len(),
        2,
        "multi-axis moves must both be kept"
    );
}

// ── Rule 5: duplicate temperature command ─────────────────────────────────

#[test]
fn duplicate_m104_same_params_removed() {
    let cmds = vec![spanned(m104("S200"), 1), spanned(m104("S200"), 2)];
    let result = optimize(cmds, &OptConfig::default());
    assert_eq!(result.commands.len(), 1);
    assert_eq!(
        result.changes[0].description,
        "duplicate temperature command (already set)"
    );
}

#[test]
fn m104_different_temps_both_kept() {
    let cmds = vec![spanned(m104("S200"), 1), spanned(m104("S210"), 2)];
    let result = optimize(cmds, &OptConfig::default());
    assert_eq!(result.commands.len(), 2);
    assert!(result.changes.is_empty());
}

// ── Dry-run mode ─────────────────────────────────────────────────────────

#[test]
fn dry_run_reports_changes_but_does_not_modify_commands() {
    let cmds = vec![spanned(g1_empty(), 1), spanned(g1_at(5.0, 5.0), 2)];
    let config = OptConfig {
        dry_run: true,
        ..Default::default()
    };
    let result = optimize(cmds, &config);

    // Command list is unchanged.
    assert_eq!(
        result.commands.len(),
        2,
        "dry-run must not remove any commands"
    );
    // But changes are still reported.
    assert_eq!(result.changes.len(), 1);
    assert_eq!(result.changes[0].line, 1);
}

// ── Mixed: 10 commands, 3 redundant → 7 in output ────────────────────────

#[test]
fn mixed_file_three_redundant_seven_kept() {
    let cmds = vec![
        spanned(g90(), 1),              // kept: first G90
        spanned(g90(), 2),              // REMOVED: duplicate G90
        spanned(g1_at(10.0, 10.0), 3),  // kept: actual move
        spanned(g1_at(10.0, 10.0), 4),  // REMOVED: zero-delta
        spanned(m104("S200"), 5),       // kept: first M104
        spanned(m104("S200"), 6),       // REMOVED: duplicate M104
        spanned(m106("S255"), 7),       // kept: first M106
        spanned(g1_at(20.0, 30.0), 8),  // kept: actual move
        spanned(m1_misc(84), 9),        // kept: M84 (motors off)
        spanned(g1_f_only(3000.0), 10), // kept: feedrate-only
    ];
    let result = optimize(cmds, &OptConfig::default());
    assert_eq!(
        result.commands.len(),
        7,
        "expected 7 commands after removing 3 redundant"
    );
    assert_eq!(
        result.changes.len(),
        3,
        "expected exactly 3 reported changes"
    );

    // Verify the surviving line numbers.
    let kept_lines: Vec<u32> = result.commands.iter().map(|s| s.line).collect();
    assert_eq!(kept_lines, vec![1, 3, 5, 7, 8, 9, 10]);
}

// ── Rule 6: collinear move merging ──────────────────────────────────────

fn g1_xye(x: f64, y: f64, e: f64) -> GCodeCommand<'static, R> {
    GCodeCommand::LinearMove {
        x: Some(R(x)),
        y: Some(R(y)),
        z: None,
        e: Some(R(e)),
        f: None,
    }
}

fn merge_config() -> OptConfig {
    OptConfig {
        dry_run: false,
        merge_collinear: true,
        ..Default::default()
    }
}

#[test]
fn test_rule6_five_collinear_merge_to_one() {
    let cmds = vec![
        spanned(g1_xye(0.0, 0.0, 0.0), 1),
        spanned(g1_xye(1.0, 1.0, 1.0), 2),
        spanned(g1_xye(2.0, 2.0, 2.0), 3),
        spanned(g1_xye(3.0, 3.0, 3.0), 4),
        spanned(g1_xye(4.0, 4.0, 4.0), 5),
    ];
    let result = merge_collinear(cmds, &merge_config());
    assert_eq!(
        result.commands.len(),
        1,
        "5 collinear moves should merge to 1"
    );
    match &result.commands[0].inner {
        GCodeCommand::LinearMove { x, y, e, .. } => {
            assert!((x.unwrap().0 - 4.0).abs() < 1e-9);
            assert!((y.unwrap().0 - 4.0).abs() < 1e-9);
            assert!(
                (e.unwrap().0 - 4.0).abs() < 1e-9,
                "cumulative E must be preserved"
            );
        }
        other => panic!("expected LinearMove, got {other:?}"),
    }
    assert_eq!(result.changes.len(), 4, "4 moves merged away");
}

#[test]
fn test_rule6_non_collinear_untouched() {
    let cmds = vec![
        spanned(g1_xye(0.0, 0.0, 0.0), 1),
        spanned(g1_xye(1.0, 0.0, 1.0), 2),
        spanned(g1_xye(1.0, 1.0, 2.0), 3),
    ];
    let result = merge_collinear(cmds, &merge_config());
    assert_eq!(result.commands.len(), 3, "non-collinear moves must be kept");
    assert!(result.changes.is_empty());
}

#[test]
fn test_rule6_extrusion_mismatch_prevents_merge() {
    let cmds = vec![
        spanned(g1_xye(0.0, 0.0, 0.0), 1),
        spanned(g1_xye(1.0, 1.0, 1.0), 2),
        spanned(g1_xye(2.0, 2.0, 5.0), 3),
    ];
    let result = merge_collinear(cmds, &merge_config());
    assert!(
        result.commands.len() >= 2,
        "extrusion mismatch should prevent full merge"
    );
}

#[test]
fn test_rule6_mixed_extrusion_status_prevents_merge() {
    let cmds = vec![
        spanned(g1_xye(0.0, 0.0, 0.0), 1),
        spanned(
            GCodeCommand::LinearMove {
                x: Some(R(1.0)),
                y: Some(R(1.0)),
                z: None,
                e: None,
                f: None,
            },
            2,
        ),
        spanned(g1_xye(2.0, 2.0, 2.0), 3),
    ];
    let result = merge_collinear(cmds, &merge_config());
    assert_eq!(
        result.commands.len(),
        3,
        "mixed extrusion status must prevent merge"
    );
}

#[test]
fn test_rule6_feedrate_mismatch_breaks_run() {
    let cmds = vec![
        spanned(
            GCodeCommand::LinearMove {
                x: Some(R(0.0)),
                y: Some(R(0.0)),
                z: None,
                e: Some(R(0.0)),
                f: Some(R(3000.0)),
            },
            1,
        ),
        spanned(
            GCodeCommand::LinearMove {
                x: Some(R(1.0)),
                y: Some(R(1.0)),
                z: None,
                e: Some(R(1.0)),
                f: Some(R(3000.0)),
            },
            2,
        ),
        spanned(
            GCodeCommand::LinearMove {
                x: Some(R(2.0)),
                y: Some(R(2.0)),
                z: None,
                e: Some(R(2.0)),
                f: Some(R(6000.0)),
            },
            3,
        ),
    ];
    let result = merge_collinear(cmds, &merge_config());
    assert!(
        result.commands.len() >= 2,
        "feedrate change should break the run"
    );
}

#[test]
fn test_rule6_disabled_by_default() {
    let cmds = vec![
        spanned(g1_xye(0.0, 0.0, 0.0), 1),
        spanned(g1_xye(1.0, 1.0, 1.0), 2),
        spanned(g1_xye(2.0, 2.0, 2.0), 3),
    ];
    let result = merge_collinear(cmds, &OptConfig::default());
    assert_eq!(
        result.commands.len(),
        3,
        "merge must be disabled by default"
    );
}

#[test]
fn test_rule6_two_moves_not_merged() {
    let cmds = vec![
        spanned(g1_xye(0.0, 0.0, 0.0), 1),
        spanned(g1_xye(1.0, 1.0, 1.0), 2),
    ];
    let result = merge_collinear(cmds, &merge_config());
    assert_eq!(
        result.commands.len(),
        2,
        "fewer than 3 moves must not merge"
    );
}

#[test]
fn test_rule6_preserves_extrusion_total() {
    let cmds = vec![
        spanned(g1_xye(0.0, 0.0, 0.0), 1),
        spanned(g1_xye(1.0, 1.0, 0.5), 2),
        spanned(g1_xye(2.0, 2.0, 1.0), 3),
        spanned(g1_xye(3.0, 3.0, 1.5), 4),
    ];
    let result = merge_collinear(cmds, &merge_config());
    match &result.commands[0].inner {
        GCodeCommand::LinearMove { e, .. } => {
            assert!(
                (e.unwrap().0 - 1.5).abs() < 1e-6,
                "merged E must equal last point's E"
            );
        }
        other => panic!("expected LinearMove, got {other:?}"),
    }
}

#[test]
fn test_rule6_idempotent() {
    let cmds = vec![
        spanned(g1_xye(0.0, 0.0, 0.0), 1),
        spanned(g1_xye(1.0, 1.0, 1.0), 2),
        spanned(g1_xye(2.0, 2.0, 2.0), 3),
        spanned(g1_xye(3.0, 3.0, 3.0), 4),
    ];
    let pass1 = merge_collinear(cmds, &merge_config());
    let pass2 = merge_collinear(pass1.commands, &merge_config());
    assert_eq!(
        pass2.changes.len(),
        0,
        "second merge pass must produce zero changes"
    );
}

#[test]
fn test_rule6_dry_run_no_modification() {
    let cmds = vec![
        spanned(g1_xye(0.0, 0.0, 0.0), 1),
        spanned(g1_xye(1.0, 1.0, 1.0), 2),
        spanned(g1_xye(2.0, 2.0, 2.0), 3),
    ];
    let config = OptConfig {
        dry_run: true,
        merge_collinear: true,
        ..Default::default()
    };
    let result = merge_collinear(cmds, &config);
    assert_eq!(result.commands.len(), 3, "dry-run must not modify commands");
    assert!(
        !result.changes.is_empty(),
        "dry-run must still report changes"
    );
}

// ── M73 progress marker insertion ────────────────────────────────────────

fn progress_config() -> OptConfig {
    OptConfig {
        dry_run: false,
        merge_collinear: false,
        insert_progress: true,
        ..Default::default()
    }
}

#[test]
fn test_m73_inserted_at_layer_boundaries() {
    let cmds = vec![
        spanned(GCodeCommand::SetAbsolute, 1),
        spanned(
            GCodeCommand::Comment {
                text: Cow::Borrowed("LAYER_CHANGE"),
            },
            2,
        ),
        spanned(
            GCodeCommand::LinearMove {
                x: Some(R(10.0)),
                y: None,
                z: Some(R(0.2)),
                e: Some(R(1.0)),
                f: Some(R(3000.0)),
            },
            3,
        ),
        spanned(
            GCodeCommand::Comment {
                text: Cow::Borrowed("LAYER_CHANGE"),
            },
            4,
        ),
        spanned(
            GCodeCommand::LinearMove {
                x: Some(R(20.0)),
                y: None,
                z: Some(R(0.4)),
                e: Some(R(2.0)),
                f: None,
            },
            5,
        ),
    ];
    let result = insert_progress_markers(cmds, R(120.0), 2, &[], &progress_config());
    let m73s: Vec<_> = result
        .commands
        .iter()
        .filter(|c| {
            matches!(
                &c.inner,
                GCodeCommand::MetaCommand { code: 73, .. }
            )
        })
        .collect();
    assert!(
        m73s.len() >= 2,
        "should insert M73 at each layer boundary, got {}",
        m73s.len()
    );
    let i002: Vec<_> = result
        .diagnostics
        .iter()
        .filter(|d| d.code == "I002")
        .collect();
    assert_eq!(i002.len(), m73s.len());
}

#[test]
fn test_m73_existing_stripped() {
    let cmds = vec![
        spanned(
            GCodeCommand::MetaCommand {
                code: 73,
                params: Cow::Borrowed("P50 R30"),
            },
            1,
        ),
        spanned(GCodeCommand::SetAbsolute, 2),
        spanned(
            GCodeCommand::Comment {
                text: Cow::Borrowed("LAYER_CHANGE"),
            },
            3,
        ),
        spanned(
            GCodeCommand::LinearMove {
                x: Some(R(10.0)),
                y: None,
                z: Some(R(0.2)),
                e: Some(R(1.0)),
                f: Some(R(3000.0)),
            },
            4,
        ),
    ];
    let result = insert_progress_markers(cmds, R(60.0), 1, &[], &progress_config());
    let old_m73s: Vec<_> = result
        .commands
        .iter()
        .filter(|c| match &c.inner {
            GCodeCommand::MetaCommand { code: 73, params } => params.as_ref() == "P50 R30",
            _ => false,
        })
        .collect();
    assert!(old_m73s.is_empty(), "existing M73 should be stripped");
}

#[test]
fn test_m73_disabled_by_default() {
    let cmds = vec![
        spanned(
            GCodeCommand::Comment {
                text: Cow::Borrowed("LAYER_CHANGE"),
            },
            1,
        ),
        spanned(
            GCodeCommand::LinearMove {
                x: Some(R(10.0)),
                y: None,
                z: Some(R(0.2)),
                e: Some(R(1.0)),
                f: Some(R(3000.0)),
            },
            2,
        ),
    ];
    let result = insert_progress_markers(cmds, R(60.0), 1, &[], &OptConfig::default());
    assert!(result.diagnostics.is_empty());
    assert_eq!(result.commands.len(), 2);
}

#[test]
fn test_m73_progress_spans_0_to_100() {
    let mut cmds = vec![spanned(GCodeCommand::SetAbsolute, 1)];
    for i in 0..4u32 {
        cmds.push(spanned(
            GCodeCommand::Comment {
                text: Cow::Borrowed("LAYER_CHANGE"),
            },
            i * 2 + 2,
        ));
        cmds.push(spanned(
            GCodeCommand::LinearMove {
                x: Some(R(10.0 * f64::from(i + 1))),
                y: None,
                z: Some(R(0.2 * f64::from(i + 1))),
                e: Some(R(f64::from(i + 1))),
                f: Some(R(3000.0)),
            },
            i * 2 + 3,
        ));
    }
    let result = insert_progress_markers(cmds, R(240.0), 4, &[], &progress_config());
    let m73_params: Vec<String> = result
        .commands
        .iter()
        .filter_map(|c| match &c.inner {
            GCodeCommand::MetaCommand { code: 73, params } => Some(params.to_string()),
            _ => None,
        })
        .collect();
    assert!(!m73_params.is_empty());
    let last = m73_params.last().expect("at least one M73");
    assert!(last.contains("P100"), "last M73 should be P100, got {last}");
}

#[test]
fn test_m73_z_increase_detection() {
    // No LAYER_CHANGE comments — relies on Z-increase fallback.
    let cmds = vec![
        spanned(GCodeCommand::SetAbsolute, 1),
        spanned(
            GCodeCommand::LinearMove {
                x: Some(R(10.0)),
                y: None,
                z: Some(R(0.2)),
                e: Some(R(1.0)),
                f: Some(R(3000.0)),
            },
            2,
        ),
        spanned(
            GCodeCommand::LinearMove {
                x: Some(R(20.0)),
                y: None,
                z: Some(R(0.4)),
                e: Some(R(2.0)),
                f: None,
            },
            3,
        ),
    ];
    let result = insert_progress_markers(cmds, R(60.0), 2, &[], &progress_config());
    let m73s: Vec<_> = result
        .commands
        .iter()
        .filter(|c| {
            matches!(
                &c.inner,
                GCodeCommand::MetaCommand { code: 73, .. }
            )
        })
        .collect();
    assert!(
        m73s.len() >= 1,
        "should insert M73 at Z-based layer boundaries"
    );
}
