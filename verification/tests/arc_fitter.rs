use std::borrow::Cow;
use std::f64::consts::{FRAC_PI_2, PI};

use gcode_sentinel::arc_fitter::{
    default_arc_tolerance_mm, detect_firmware, firmware_supports_arcs, fit_arcs, fit_circle_3point,
    fit_circle_pratt, ArcFitConfig, FirmwareFlavour,
};
use gcode_sentinel::models::{GCodeCommand, Spanned};
use gcode_sentinel::scalar::Scalar;

/// Double-precision numbers.
#[derive(Clone, Copy, Debug, PartialEq)]
struct R(f64);

impl Scalar for R {
    fn of(n: i64) -> R {
        R(n as f64)
    }
    fn count(n: u64) -> R {
        R(n as f64)
    }
    fn max_value() -> R {
        R(f64::MAX)
    }
    fn min_value() -> R {
        R(f64::MIN)
    }
    fn infinity() -> R {
        R(f64::INFINITY)
    }
    fn pi() -> R {
        R(std::f64::consts::PI)
    }
    fn tau() -> R {
        R(std::f64::consts::TAU)
    }
    fn plus(self, other: R) -> R {
        R(self.0 + other.0)
    }
    fn minus(self, other: R) -> R {
        R(self.0 - other.0)
    }
    fn times(self, other: R) -> R {
        R(self.0 * other.0)
    }
    fn over(self, other: R) -> R {
        R(self.0 / other.0)
    }
    fn negate(self) -> R {
        R(-self.0)
    }
    fn abs(self) -> R {
        R(self.0.abs())
    }
    fn sqrt(self) -> R {
        R(self.0.sqrt())
    }
    fn atan2(self, x: R) -> R {
        R(self.0.atan2(x.0))
    }
    fn min(self, other: R) -> R {
        R(self.0.min(other.0))
    }
    fn max(self, other: R) -> R {
        R(self.0.max(other.0))
    }
    fn round(self) -> R {
        R(self.0.round())
    }
    fn to_degrees(self) -> R {
        R(self.0.to_degrees())
    }
    fn less(self, other: R) -> bool {
        self.0 < other.0
    }
    fn at_most(self, other: R) -> bool {
        self.0 <= other.0
    }
    fn same(self, other: R) -> bool {
        self.0 == other.0
    }
    fn is_finite(self) -> bool {
        self.0.is_finite()
    }
    fn to_u32(self) -> u32 {
        self.0 as u32
    }
    fn parse(text: &str) -> Option<R> {
        text.parse::<f64>().ok().map(R)
    }
    fn fixed(self, places: usize) -> String {
        format!("{:.places$}", self.0)
    }
    fn display(self) -> String {
        format!("{}", self.0)
    }
}

// ── helpers ──────────────────────────────────────────────────────────────

fn sp(cmd: GCodeCommand<'static, R>, line: u32) -> Spanned<GCodeCommand<'static, R>> {
    Spanned {
        inner: cmd,
        line,
        byte_offset: 0,
    }
}

fn g1(x: f64, y: f64, e: f64, f: Option<f64>) -> GCodeCommand<'static, R> {
    GCodeCommand::LinearMove {
        x: Some(R(x)),
        y: Some(R(y)),
        z: None,
        e: Some(R(e)),
        f: f.map(R),
    }
}

/// Generate N equally-spaced points on an arc from `angle_start` to
/// `angle_end` (radians, CCW), centred at `(cx, cy)` with radius `r`.
/// Returns `Vec<(x, y)>`.
fn arc_points(
    cx: f64,
    cy: f64,
    r: f64,
    angle_start: f64,
    angle_end: f64,
    n: usize,
) -> Vec<(f64, f64)> {
    (0..n)
        .map(|i| {
            let t = angle_start + (angle_end - angle_start) * (i as f64) / (n as f64 - 1.0);
            (cx + r * t.cos(), cy + r * t.sin())
        })
        .collect()
}

/// Build a sequence of G1 commands from sampled arc points with extrusion
/// proportional to arc length.
fn arc_g1_cmds(
    pts: &[(f64, f64)],
    feedrate: f64,
    extrusion_rate: f64,
    e_start: f64,
) -> Vec<Spanned<GCodeCommand<'static, R>>> {
    let mut cmds = Vec::new();
    let mut e = e_start;
    for (i, &(x, y)) in pts.iter().enumerate() {
        if i == 0 {
            continue; // first point is the start position, emitted via G0
        }
        let (px, py) = pts[i - 1];
        let seg_len = ((x - px).powi(2) + (y - py).powi(2)).sqrt();
        e += seg_len * extrusion_rate;
        cmds.push(sp(
            GCodeCommand::LinearMove {
                x: Some(R(x)),
                y: Some(R(y)),
                z: None,
                e: Some(R(e)),
                f: if i == 1 { Some(R(feedrate)) } else { None },
            },
            (i + 1) as u32,
        ));
    }
    cmds
}

fn enabled_config() -> ArcFitConfig<R> {
    ArcFitConfig {
        enabled: true,
        tolerance_mm: default_arc_tolerance_mm(),
    }
}

fn enabled_config_tol(tolerance_mm: f64) -> ArcFitConfig<R> {
    ArcFitConfig {
        enabled: true,
        tolerance_mm: R(tolerance_mm),
    }
}

// ─── Circle fitting ───────────────────────────────────────────────────────

#[test]
fn test_circle_fit_3point_perfect_circle_returns_exact_center_and_radius() {
    // Three points on the unit circle.
    let p0 = (R(1.0), R(0.0));
    let p1 = (R(0.0), R(1.0));
    let p2 = (R(-1.0), R(0.0));
    let c = fit_circle_3point(p0, p1, p2).expect("should fit");
    assert!((c.cx.0).abs() < 1e-9, "cx={}", c.cx.0);
    assert!((c.cy.0).abs() < 1e-9, "cy={}", c.cy.0);
    assert!((c.r.0 - 1.0).abs() < 1e-9, "r={}", c.r.0);
}

#[test]
fn test_circle_fit_3point_collinear_points_returns_none() {
    let p0 = (R(0.0), R(0.0));
    let p1 = (R(1.0), R(1.0));
    let p2 = (R(2.0), R(2.0));
    assert!(fit_circle_3point(p0, p1, p2).is_none());
}

#[test]
fn test_circle_fit_4point_least_squares_matches_exact_within_tolerance() {
    // Four points on a circle of radius 5, centred at (3, 4).
    let cx = 3.0_f64;
    let cy = 4.0_f64;
    let r = 5.0_f64;
    let pts: Vec<(R, R)> = [0.0, FRAC_PI_2, PI, 3.0 * FRAC_PI_2]
        .iter()
        .map(|&a: &f64| (R(cx + r * a.cos()), R(cy + r * a.sin())))
        .collect();
    let c = fit_circle_pratt(&pts).expect("should fit");
    assert!((c.cx.0 - cx).abs() < 1e-6, "cx off: {}", c.cx.0);
    assert!((c.cy.0 - cy).abs() < 1e-6, "cy off: {}", c.cy.0);
    assert!((c.r.0 - r).abs() < 1e-6, "r off: {}", c.r.0);
}

// ─── Arc detection happy path ─────────────────────────────────────────────

#[test]
fn arc_fit_three_points_quarter_circle_produces_g2_or_g3() {
    // CCW quarter circle: centre (10,0), r=10, from 180° to 90°.
    // Points: (0,0), (10, 10*sin(135°)), (10+0, 10).
    // Actually use: start=(0,0), end=(10,10), centre=(10,0).
    let pts = arc_points(10.0, 0.0, 10.0, PI, FRAC_PI_2, 4);
    let mut cmds: Vec<Spanned<GCodeCommand<'static, R>>> = Vec::new();
    // Rapid to start position (not counted in fitting).
    cmds.push(sp(
        GCodeCommand::RapidMove {
            x: Some(R(pts[0].0)),
            y: Some(R(pts[0].1)),
            z: None,
            f: Some(R(9000.0)),
        },
        1,
    ));
    let arc_cmds = arc_g1_cmds(&pts, 3000.0, 0.05, 0.0);
    cmds.extend(arc_cmds);

    let result = fit_arcs(cmds, &enabled_config());
    let arc_count = result
        .commands
        .iter()
        .filter(|c| {
            matches!(
                c.inner,
                GCodeCommand::ArcMoveCW { .. } | GCodeCommand::ArcMoveCCW { .. }
            )
        })
        .count();
    assert_eq!(arc_count, 1, "expected exactly one arc command");
    assert_eq!(result.changes.len(), 1, "expected one change entry");
}

#[test]
fn arc_fit_four_points_least_squares_produces_arc() {
    let pts = arc_points(0.0, 0.0, 10.0, 0.0, FRAC_PI_2, 5);
    let mut cmds: Vec<Spanned<GCodeCommand<'static, R>>> = Vec::new();
    cmds.push(sp(
        GCodeCommand::RapidMove {
            x: Some(R(pts[0].0)),
            y: Some(R(pts[0].1)),
            z: None,
            f: Some(R(9000.0)),
        },
        1,
    ));
    cmds.extend(arc_g1_cmds(&pts, 3000.0, 0.05, 0.0));

    let result = fit_arcs(cmds, &enabled_config());
    let arc_count = result
        .commands
        .iter()
        .filter(|c| {
            matches!(
                c.inner,
                GCodeCommand::ArcMoveCW { .. } | GCodeCommand::ArcMoveCCW { .. }
            )
        })
        .count();
    assert_eq!(arc_count, 1, "expected one arc from 4 points");
}

#[test]
fn arc_fit_ccw_detected_as_g3() {
    // CCW: going from 0° to 90° counterclockwise on unit circle.
    let pts = arc_points(0.0, 0.0, 10.0, 0.0, FRAC_PI_2, 5);
    let mut cmds: Vec<Spanned<GCodeCommand<'static, R>>> = Vec::new();
    cmds.push(sp(
        GCodeCommand::RapidMove {
            x: Some(R(pts[0].0)),
            y: Some(R(pts[0].1)),
            z: None,
            f: None,
        },
        1,
    ));
    cmds.extend(arc_g1_cmds(&pts, 3000.0, 0.05, 0.0));

    let result = fit_arcs(cmds, &enabled_config());
    let has_g3 = result
        .commands
        .iter()
        .any(|c| matches!(c.inner, GCodeCommand::ArcMoveCCW { .. }));
    assert!(has_g3, "CCW arc should produce G3");
}

#[test]
fn arc_fit_cw_detected_as_g2() {
    // CW: going from 90° down to 0°.
    let pts = arc_points(0.0, 0.0, 10.0, FRAC_PI_2, 0.0, 5);
    let mut cmds: Vec<Spanned<GCodeCommand<'static, R>>> = Vec::new();
    cmds.push(sp(
        GCodeCommand::RapidMove {
            x: Some(R(pts[0].0)),
            y: Some(R(pts[0].1)),
            z: None,
            f: None,
        },
        1,
    ));
    cmds.extend(arc_g1_cmds(&pts, 3000.0, 0.05, 0.0));

    let result = fit_arcs(cmds, &enabled_config());
    let has_g2 = result
        .commands
        .iter()
        .any(|c| matches!(c.inner, GCodeCommand::ArcMoveCW { .. }));
    assert!(has_g2, "CW arc should produce G2");
}

// ─── Rejection tests ──────────────────────────────────────────────────────

#[test]
fn arc_fit_fewer_than_three_moves_not_fitted() {
    let cmds = vec![
        sp(
            GCodeCommand::RapidMove {
                x: Some(R(0.0)),
                y: Some(R(0.0)),
                z: None,
                f: None,
            },
            1,
        ),
        sp(g1(5.0, 5.0, 0.3, Some(3000.0)), 2),
        sp(g1(10.0, 0.0, 0.6, None), 3),
    ];
    let result = fit_arcs(cmds, &enabled_config());
    let arc_count = result
        .commands
        .iter()
        .filter(|c| {
            matches!(
                c.inner,
                GCodeCommand::ArcMoveCW { .. } | GCodeCommand::ArcMoveCCW { .. }
            )
        })
        .count();
    assert_eq!(arc_count, 0, "two G1 moves should not produce an arc");
}

#[test]
fn arc_fit_span_below_15_degrees_not_fitted() {
    // Arc of only 10° — below the 15° minimum.
    let pts = arc_points(0.0, 0.0, 10.0, 0.0, 10.0_f64.to_radians(), 4);
    let mut cmds: Vec<Spanned<GCodeCommand<'static, R>>> = Vec::new();
    cmds.push(sp(
        GCodeCommand::RapidMove {
            x: Some(R(pts[0].0)),
            y: Some(R(pts[0].1)),
            z: None,
            f: None,
        },
        1,
    ));
    cmds.extend(arc_g1_cmds(&pts, 3000.0, 0.05, 0.0));

    let result = fit_arcs(cmds, &enabled_config());
    let arc_count = result
        .commands
        .iter()
        .filter(|c| {
            matches!(
                c.inner,
                GCodeCommand::ArcMoveCW { .. } | GCodeCommand::ArcMoveCCW { .. }
            )
        })
        .count();
    assert_eq!(arc_count, 0, "10° arc should be rejected");
}

#[test]
fn arc_fit_span_at_15_degrees_is_fitted() {
    // Arc of exactly 15° with enough subdivisions for 3 points.
    let pts = arc_points(0.0, 0.0, 10.0, 0.0, 15.0_f64.to_radians(), 4);
    let mut cmds: Vec<Spanned<GCodeCommand<'static, R>>> = Vec::new();
    cmds.push(sp(
        GCodeCommand::RapidMove {
            x: Some(R(pts[0].0)),
            y: Some(R(pts[0].1)),
            z: None,
            f: None,
        },
        1,
    ));
    cmds.extend(arc_g1_cmds(&pts, 3000.0, 0.05, 0.0));

    let result = fit_arcs(cmds, &enabled_config());
    let arc_count = result
        .commands
        .iter()
        .filter(|c| {
            matches!(
                c.inner,
                GCodeCommand::ArcMoveCW { .. } | GCodeCommand::ArcMoveCCW { .. }
            )
        })
        .count();
    assert_eq!(arc_count, 1, "15° arc should be accepted");
}

#[test]
fn arc_fit_radius_below_minimum_not_fitted() {
    // Radius 0.4 mm — below MIN_RADIUS_MM (0.5).
    let pts = arc_points(0.0, 0.0, 0.4, 0.0, FRAC_PI_2, 4);
    let mut cmds: Vec<Spanned<GCodeCommand<'static, R>>> = Vec::new();
    cmds.push(sp(
        GCodeCommand::RapidMove {
            x: Some(R(pts[0].0)),
            y: Some(R(pts[0].1)),
            z: None,
            f: None,
        },
        1,
    ));
    cmds.extend(arc_g1_cmds(&pts, 3000.0, 0.05, 0.0));

    let result = fit_arcs(cmds, &enabled_config());
    let arc_count = result
        .commands
        .iter()
        .filter(|c| {
            matches!(
                c.inner,
                GCodeCommand::ArcMoveCW { .. } | GCodeCommand::ArcMoveCCW { .. }
            )
        })
        .count();
    assert_eq!(arc_count, 0, "r=0.4 should be rejected");
}

#[test]
fn arc_fit_radius_at_minimum_is_fitted() {
    // Radius exactly 0.5 mm.
    let pts = arc_points(0.0, 0.0, 0.5, 0.0, FRAC_PI_2, 4);
    let mut cmds: Vec<Spanned<GCodeCommand<'static, R>>> = Vec::new();
    cmds.push(sp(
        GCodeCommand::RapidMove {
            x: Some(R(pts[0].0)),
            y: Some(R(pts[0].1)),
            z: None,
            f: None,
        },
        1,
    ));
    cmds.extend(arc_g1_cmds(&pts, 3000.0, 0.05, 0.0));

    let result = fit_arcs(cmds, &enabled_config());
    let arc_count = result
        .commands
        .iter()
        .filter(|c| {
            matches!(
                c.inner,
                GCodeCommand::ArcMoveCW { .. } | GCodeCommand::ArcMoveCCW { .. }
            )
        })
        .count();
    assert_eq!(arc_count, 1, "r=0.5 should be accepted");
}

#[test]
fn arc_fit_radius_above_maximum_not_fitted() {
    // Radius 1001 mm — above MAX_RADIUS_MM (1000).
    let pts = arc_points(0.0, 0.0, 1001.0, 0.0, FRAC_PI_2, 4);
    let mut cmds: Vec<Spanned<GCodeCommand<'static, R>>> = Vec::new();
    cmds.push(sp(
        GCodeCommand::RapidMove {
            x: Some(R(pts[0].0)),
            y: Some(R(pts[0].1)),
            z: None,
            f: None,
        },
        1,
    ));
    cmds.extend(arc_g1_cmds(&pts, 3000.0, 0.05, 0.0));

    let result = fit_arcs(cmds, &enabled_config());
    let arc_count = result
        .commands
        .iter()
        .filter(|c| {
            matches!(
                c.inner,
                GCodeCommand::ArcMoveCW { .. } | GCodeCommand::ArcMoveCCW { .. }
            )
        })
        .count();
    assert_eq!(arc_count, 0, "r=1001 should be rejected");
}

#[test]
fn arc_fit_radius_at_maximum_is_fitted() {
    // Radius exactly 1000 mm.
    let pts = arc_points(0.0, 0.0, 1000.0, 0.0, FRAC_PI_2, 4);
    let mut cmds: Vec<Spanned<GCodeCommand<'static, R>>> = Vec::new();
    cmds.push(sp(
        GCodeCommand::RapidMove {
            x: Some(R(pts[0].0)),
            y: Some(R(pts[0].1)),
            z: None,
            f: None,
        },
        1,
    ));
    cmds.extend(arc_g1_cmds(&pts, 3000.0, 0.05, 0.0));

    let result = fit_arcs(cmds, &enabled_config());
    let arc_count = result
        .commands
        .iter()
        .filter(|c| {
            matches!(
                c.inner,
                GCodeCommand::ArcMoveCW { .. } | GCodeCommand::ArcMoveCCW { .. }
            )
        })
        .count();
    assert_eq!(arc_count, 1, "r=1000 should be accepted");
}

#[test]
fn arc_fit_inconsistent_feedrate_not_fitted() {
    // Mix of F3000 and F6000 — feedrate inconsistency.
    let pts = arc_points(0.0, 0.0, 10.0, 0.0, FRAC_PI_2, 5);
    let mut cmds: Vec<Spanned<GCodeCommand<'static, R>>> = Vec::new();
    cmds.push(sp(
        GCodeCommand::RapidMove {
            x: Some(R(pts[0].0)),
            y: Some(R(pts[0].1)),
            z: None,
            f: None,
        },
        1,
    ));
    // First two moves at F3000, third at F6000.
    let mut e = 0.0_f64;
    for (i, &(x, y)) in pts.iter().enumerate() {
        if i == 0 {
            continue;
        }
        let (px, py) = pts[i - 1];
        let seg = ((x - px).powi(2) + (y - py).powi(2)).sqrt();
        e += seg * 0.05;
        let f = if i <= 2 {
            Some(3000.0_f64)
        } else {
            Some(6000.0_f64)
        };
        cmds.push(sp(
            GCodeCommand::LinearMove {
                x: Some(R(x)),
                y: Some(R(y)),
                z: None,
                e: Some(R(e)),
                f: f.map(R),
            },
            (i + 1) as u32,
        ));
    }

    let result = fit_arcs(cmds, &enabled_config());
    let arc_count = result
        .commands
        .iter()
        .filter(|c| {
            matches!(
                c.inner,
                GCodeCommand::ArcMoveCW { .. } | GCodeCommand::ArcMoveCCW { .. }
            )
        })
        .count();
    assert_eq!(arc_count, 0, "inconsistent feedrate should prevent fitting");
}

#[test]
fn arc_fit_extrusion_rate_varies_beyond_tolerance_not_fitted() {
    // Quarter arc but extrusion rate varies by 10% across segments.
    let pts = arc_points(0.0, 0.0, 10.0, 0.0, FRAC_PI_2, 5);
    let mut cmds: Vec<Spanned<GCodeCommand<'static, R>>> = Vec::new();
    cmds.push(sp(
        GCodeCommand::RapidMove {
            x: Some(R(pts[0].0)),
            y: Some(R(pts[0].1)),
            z: None,
            f: None,
        },
        1,
    ));
    let rates = [0.05_f64, 0.05, 0.06, 0.05]; // 20% jump in segment 3
    let mut e = 0.0_f64;
    for (i, &(x, y)) in pts.iter().enumerate() {
        if i == 0 {
            continue;
        }
        let (px, py) = pts[i - 1];
        let seg = ((x - px).powi(2) + (y - py).powi(2)).sqrt();
        e += seg * rates[i - 1];
        cmds.push(sp(
            GCodeCommand::LinearMove {
                x: Some(R(x)),
                y: Some(R(y)),
                z: None,
                e: Some(R(e)),
                f: if i == 1 { Some(R(3000.0)) } else { None },
            },
            (i + 1) as u32,
        ));
    }

    let result = fit_arcs(cmds, &enabled_config());
    let arc_count = result
        .commands
        .iter()
        .filter(|c| {
            matches!(
                c.inner,
                GCodeCommand::ArcMoveCW { .. } | GCodeCommand::ArcMoveCCW { .. }
            )
        })
        .count();
    assert_eq!(
        arc_count, 0,
        "variable extrusion rate should prevent fitting"
    );
}

#[test]
fn arc_fit_extrusion_rate_within_tolerance_is_fitted() {
    // Quarter arc with ≈0% extrusion rate variation.
    let pts = arc_points(0.0, 0.0, 10.0, 0.0, FRAC_PI_2, 5);
    let mut cmds: Vec<Spanned<GCodeCommand<'static, R>>> = Vec::new();
    cmds.push(sp(
        GCodeCommand::RapidMove {
            x: Some(R(pts[0].0)),
            y: Some(R(pts[0].1)),
            z: None,
            f: None,
        },
        1,
    ));
    cmds.extend(arc_g1_cmds(&pts, 3000.0, 0.05, 0.0));

    let result = fit_arcs(cmds, &enabled_config());
    let arc_count = result
        .commands
        .iter()
        .filter(|c| {
            matches!(
                c.inner,
                GCodeCommand::ArcMoveCW { .. } | GCodeCommand::ArcMoveCCW { .. }
            )
        })
        .count();
    assert_eq!(
        arc_count, 1,
        "consistent extrusion rate should allow fitting"
    );
}

#[test]
fn arc_fit_z_change_within_candidate_not_fitted() {
    // Mixed Z values — arc cannot cross a Z change.
    let pts = arc_points(0.0, 0.0, 10.0, 0.0, FRAC_PI_2, 5);
    let mut cmds: Vec<Spanned<GCodeCommand<'static, R>>> = Vec::new();
    cmds.push(sp(
        GCodeCommand::RapidMove {
            x: Some(R(pts[0].0)),
            y: Some(R(pts[0].1)),
            z: None,
            f: None,
        },
        1,
    ));
    let mut e = 0.0_f64;
    for (i, &(x, y)) in pts.iter().enumerate() {
        if i == 0 {
            continue;
        }
        let (px, py) = pts[i - 1];
        let seg = ((x - px).powi(2) + (y - py).powi(2)).sqrt();
        e += seg * 0.05;
        // Change Z on move 3.
        let z = if i == 3 { Some(R(0.4)) } else { Some(R(0.2)) };
        cmds.push(sp(
            GCodeCommand::LinearMove {
                x: Some(R(x)),
                y: Some(R(y)),
                z,
                e: Some(R(e)),
                f: if i == 1 { Some(R(3000.0)) } else { None },
            },
            (i + 1) as u32,
        ));
    }

    let result = fit_arcs(cmds, &enabled_config());
    let arc_count = result
        .commands
        .iter()
        .filter(|c| {
            matches!(
                c.inner,
                GCodeCommand::ArcMoveCW { .. } | GCodeCommand::ArcMoveCCW { .. }
            )
        })
        .count();
    assert_eq!(arc_count, 0, "Z change should prevent fitting");
}

#[test]
fn arc_fit_non_extruding_moves_not_fitted() {
    // Travel moves (no E) should not be fitted.
    let pts = arc_points(0.0, 0.0, 10.0, 0.0, FRAC_PI_2, 5);
    let mut cmds: Vec<Spanned<GCodeCommand<'static, R>>> = Vec::new();
    cmds.push(sp(
        GCodeCommand::RapidMove {
            x: Some(R(pts[0].0)),
            y: Some(R(pts[0].1)),
            z: None,
            f: None,
        },
        1,
    ));
    for (i, &(x, y)) in pts.iter().enumerate() {
        if i == 0 {
            continue;
        }
        cmds.push(sp(
            GCodeCommand::LinearMove {
                x: Some(R(x)),
                y: Some(R(y)),
                z: None,
                e: None, // no extrusion
                f: if i == 1 { Some(R(3000.0)) } else { None },
            },
            (i + 1) as u32,
        ));
    }

    let result = fit_arcs(cmds, &enabled_config());
    let arc_count = result
        .commands
        .iter()
        .filter(|c| {
            matches!(
                c.inner,
                GCodeCommand::ArcMoveCW { .. } | GCodeCommand::ArcMoveCCW { .. }
            )
        })
        .count();
    assert_eq!(arc_count, 0, "non-extruding moves should not be fitted");
}

// ─── Tolerance tests ──────────────────────────────────────────────────────

#[test]
fn arc_fit_points_just_within_tolerance_accepted() {
    // Perturb all points by 0.019 mm (< default 0.02).
    let mut pts = arc_points(0.0, 0.0, 10.0, 0.0, FRAC_PI_2, 5);
    for (_, y) in &mut pts {
        *y += 0.019;
    }
    let mut cmds: Vec<Spanned<GCodeCommand<'static, R>>> = Vec::new();
    cmds.push(sp(
        GCodeCommand::RapidMove {
            x: Some(R(pts[0].0)),
            y: Some(R(pts[0].1)),
            z: None,
            f: None,
        },
        1,
    ));
    cmds.extend(arc_g1_cmds(&pts, 3000.0, 0.05, 0.0));

    let result = fit_arcs(cmds, &enabled_config());
    let arc_count = result
        .commands
        .iter()
        .filter(|c| {
            matches!(
                c.inner,
                GCodeCommand::ArcMoveCW { .. } | GCodeCommand::ArcMoveCCW { .. }
            )
        })
        .count();
    assert_eq!(
        arc_count, 1,
        "perturbation within tolerance should be accepted"
    );
}

#[test]
fn arc_fit_points_just_outside_tolerance_rejected() {
    // Perturb by 1.0 mm — clearly outside default 0.02 tolerance.
    let mut pts = arc_points(0.0, 0.0, 10.0, 0.0, FRAC_PI_2, 5);
    pts[2].1 += 1.0; // push one interior point far off-circle

    let mut cmds: Vec<Spanned<GCodeCommand<'static, R>>> = Vec::new();
    cmds.push(sp(
        GCodeCommand::RapidMove {
            x: Some(R(pts[0].0)),
            y: Some(R(pts[0].1)),
            z: None,
            f: None,
        },
        1,
    ));
    cmds.extend(arc_g1_cmds(&pts, 3000.0, 0.05, 0.0));

    let result = fit_arcs(cmds, &enabled_config());
    let arc_count = result
        .commands
        .iter()
        .filter(|c| {
            matches!(
                c.inner,
                GCodeCommand::ArcMoveCW { .. } | GCodeCommand::ArcMoveCCW { .. }
            )
        })
        .count();
    assert_eq!(arc_count, 0, "1 mm deviation should be rejected");
}

#[test]
fn arc_fit_custom_tolerance_respected() {
    // Perturb by 0.5 mm; custom tolerance 1.0 mm should accept it.
    let mut pts = arc_points(0.0, 0.0, 10.0, 0.0, FRAC_PI_2, 5);
    for (_, y) in &mut pts {
        *y += 0.5;
    }
    let mut cmds: Vec<Spanned<GCodeCommand<'static, R>>> = Vec::new();
    cmds.push(sp(
        GCodeCommand::RapidMove {
            x: Some(R(pts[0].0)),
            y: Some(R(pts[0].1)),
            z: None,
            f: None,
        },
        1,
    ));
    cmds.extend(arc_g1_cmds(&pts, 3000.0, 0.05, 0.0));

    let result = fit_arcs(cmds, &enabled_config_tol(1.0));
    let arc_count = result
        .commands
        .iter()
        .filter(|c| {
            matches!(
                c.inner,
                GCodeCommand::ArcMoveCW { .. } | GCodeCommand::ArcMoveCCW { .. }
            )
        })
        .count();
    assert_eq!(
        arc_count, 1,
        "custom tolerance 1.0 should accept 0.5mm deviation"
    );
}

// ─── Extrusion preservation ───────────────────────────────────────────────

#[test]
fn arc_fit_total_extrusion_unchanged_after_fitting() {
    let pts = arc_points(0.0, 0.0, 10.0, 0.0, FRAC_PI_2, 6);
    let mut cmds: Vec<Spanned<GCodeCommand<'static, R>>> = Vec::new();
    cmds.push(sp(
        GCodeCommand::RapidMove {
            x: Some(R(pts[0].0)),
            y: Some(R(pts[0].1)),
            z: None,
            f: None,
        },
        1,
    ));
    cmds.extend(arc_g1_cmds(&pts, 3000.0, 0.05, 0.0));

    // Collect the total E before fitting.
    let e_before = total_extrusion_from_commands(&cmds);

    let result = fit_arcs(cmds, &enabled_config());

    let e_after = total_extrusion_from_commands(&result.commands);
    assert!(
        (e_after - e_before).abs() < 0.001,
        "extrusion changed: before={e_before:.6}, after={e_after:.6}"
    );
}

fn total_extrusion_from_commands(cmds: &[Spanned<GCodeCommand<'_, R>>]) -> f64 {
    let mut last_e = 0.0_f64;
    let mut total = 0.0_f64;
    for sp in cmds {
        match &sp.inner {
            GCodeCommand::LinearMove { e: Some(e), .. }
            | GCodeCommand::ArcMoveCW { e: Some(e), .. }
            | GCodeCommand::ArcMoveCCW { e: Some(e), .. } => {
                let delta = e.0 - last_e;
                if delta > 0.0 {
                    total += delta;
                }
                last_e = e.0;
            }
            _ => {}
        }
    }
    total
}

// ─── Sliding window ───────────────────────────────────────────────────────

#[test]
fn arc_fit_sliding_window_finds_arc_in_middle_of_sequence() {
    // Preamble G1 moves (straight line), then arc, then more straight moves.
    let arc_pts = arc_points(10.0, 0.0, 10.0, 0.0, FRAC_PI_2, 5);

    let mut cmds: Vec<Spanned<GCodeCommand<'static, R>>> = Vec::new();
    // Preamble: 3 collinear G1 moves along X axis.
    let mut e = 0.0_f64;
    for i in 1..=3_u32 {
        e += 0.5;
        cmds.push(sp(
            GCodeCommand::LinearMove {
                x: Some(R(i as f64)),
                y: Some(R(0.0)),
                z: None,
                e: Some(R(e)),
                f: if i == 1 { Some(R(3000.0)) } else { None },
            },
            i,
        ));
    }

    // The arc starts at arc_pts[0].
    let start_line = 4;
    cmds.push(sp(
        GCodeCommand::RapidMove {
            x: Some(R(arc_pts[0].0)),
            y: Some(R(arc_pts[0].1)),
            z: None,
            f: Some(R(9000.0)),
        },
        start_line,
    ));
    let arc_cmds = arc_g1_cmds(&arc_pts, 3000.0, 0.05, e);
    let arc_len = arc_cmds.len();
    cmds.extend(arc_cmds);

    // Postamble: 3 more collinear G1 moves.
    let last_arc_x = arc_pts.last().unwrap().0;
    for i in 1..=3_u32 {
        e += 0.5;
        cmds.push(sp(
            GCodeCommand::LinearMove {
                x: Some(R(last_arc_x + i as f64)),
                y: Some(R(arc_pts.last().unwrap().1)),
                z: None,
                e: Some(R(e)),
                f: None,
            },
            start_line + arc_len as u32 + i,
        ));
    }

    let result = fit_arcs(cmds, &enabled_config());
    let arc_count = result
        .commands
        .iter()
        .filter(|c| {
            matches!(
                c.inner,
                GCodeCommand::ArcMoveCW { .. } | GCodeCommand::ArcMoveCCW { .. }
            )
        })
        .count();
    assert_eq!(arc_count, 1, "should find arc in middle of sequence");
}

#[test]
fn arc_fit_multiple_arcs_in_sequence_both_fitted() {
    // Two back-to-back quarter circles.
    let pts1 = arc_points(0.0, 0.0, 10.0, 0.0, FRAC_PI_2, 5);
    let pts2 = arc_points(0.0, 10.0, 10.0, -FRAC_PI_2, 0.0, 5);

    let mut cmds: Vec<Spanned<GCodeCommand<'static, R>>> = Vec::new();
    cmds.push(sp(
        GCodeCommand::RapidMove {
            x: Some(R(pts1[0].0)),
            y: Some(R(pts1[0].1)),
            z: None,
            f: None,
        },
        1,
    ));

    let arc1 = arc_g1_cmds(&pts1, 3000.0, 0.05, 0.0);
    let n1 = arc1.len();
    let e_after_first = arc1.last().map_or(0.0, |c| {
        if let GCodeCommand::LinearMove { e: Some(e), .. } = &c.inner {
            e.0
        } else {
            0.0
        }
    });
    cmds.extend(arc1);

    // Second arc starts where first ended.
    let arc2 = arc_g1_cmds(&pts2, 3000.0, 0.05, e_after_first);
    cmds.extend(arc2);

    let result = fit_arcs(cmds, &enabled_config());
    let arc_count = result
        .commands
        .iter()
        .filter(|c| {
            matches!(
                c.inner,
                GCodeCommand::ArcMoveCW { .. } | GCodeCommand::ArcMoveCCW { .. }
            )
        })
        .count();
    // We expect at least one arc; two arcs is ideal but the sliding window
    // may merge them into one if they appear continuous.
    assert!(
        arc_count >= 1,
        "at least one arc expected from two arc sequences, got {arc_count}; n1={n1}"
    );
}

#[test]
fn arc_fit_window_does_not_cross_non_g1_command() {
    // Arc split by a MetaCommand in the middle — must not be merged.
    let pts = arc_points(0.0, 0.0, 10.0, 0.0, FRAC_PI_2, 7);
    let mut cmds: Vec<Spanned<GCodeCommand<'static, R>>> = Vec::new();
    cmds.push(sp(
        GCodeCommand::RapidMove {
            x: Some(R(pts[0].0)),
            y: Some(R(pts[0].1)),
            z: None,
            f: None,
        },
        1,
    ));

    // First 3 moves.
    let arc_half1 = arc_g1_cmds(&pts[..4], 3000.0, 0.05, 0.0);
    let e_split = arc_half1.last().map_or(0.0, |c| {
        if let GCodeCommand::LinearMove { e: Some(e), .. } = &c.inner {
            e.0
        } else {
            0.0
        }
    });
    cmds.extend(arc_half1);

    // Interleave a non-G1 command (M106).
    cmds.push(sp(
        GCodeCommand::MetaCommand {
            code: 106,
            params: Cow::Borrowed("S255"),
        },
        99,
    ));

    // Last 3 moves.
    cmds.extend(arc_g1_cmds(&pts[3..], 3000.0, 0.05, e_split));

    let result = fit_arcs(cmds, &enabled_config());
    // The M106 breaks the window, so neither half has 3 clean G1s at the
    // same absolute positions (re-check: pts[..4] has 3 G1 moves which IS
    // enough for a fit — so we might get 1 or 2 arcs).
    // Key invariant: the M106 must still be present in output.
    let has_m106 = result
        .commands
        .iter()
        .any(|c| matches!(&c.inner, GCodeCommand::MetaCommand { code: 106, .. }));
    assert!(has_m106, "M106 must be preserved after arc fit");
}

// ─── Feature gate ─────────────────────────────────────────────────────────

#[test]
fn arc_fit_disabled_by_default() {
    let pts = arc_points(0.0, 0.0, 10.0, 0.0, FRAC_PI_2, 5);
    let mut cmds: Vec<Spanned<GCodeCommand<'static, R>>> = Vec::new();
    cmds.push(sp(
        GCodeCommand::RapidMove {
            x: Some(R(pts[0].0)),
            y: Some(R(pts[0].1)),
            z: None,
            f: None,
        },
        1,
    ));
    cmds.extend(arc_g1_cmds(&pts, 3000.0, 0.05, 0.0));
    let input_len = cmds.len();

    let result = fit_arcs(cmds, &ArcFitConfig::default());
    assert!(result.changes.is_empty(), "default config should not fit");
    assert!(result.diagnostics.is_empty());
    assert_eq!(result.commands.len(), input_len);
}

// ─── Firmware detection ───────────────────────────────────────────────────

#[test]
fn test_firmware_detect_repetier_flavor_detected() {
    let cmds = vec![sp(
        GCodeCommand::Comment {
            text: Cow::Borrowed("Repetier-Host 2.2.2"),
        },
        1,
    )];
    assert_eq!(detect_firmware(&cmds), FirmwareFlavour::Repetier);
}

#[test]
fn test_firmware_detect_orca_slicer_header_returns_arc_supported() {
    let cmds = vec![sp(
        GCodeCommand::Comment {
            text: Cow::Borrowed("generated by OrcaSlicer 1.9.0"),
        },
        1,
    )];
    let flavour = detect_firmware(&cmds);
    assert_eq!(flavour, FirmwareFlavour::OrcaSlicer);
    assert!(firmware_supports_arcs(&flavour));
}

#[test]
fn test_firmware_detect_no_header_returns_unknown() {
    let cmds: Vec<Spanned<GCodeCommand<'static, R>>> = vec![sp(GCodeCommand::SetAbsolute, 1)];
    assert_eq!(detect_firmware(&cmds), FirmwareFlavour::Unknown);
}

#[test]
fn test_arc_fit_w004_emitted_for_unknown_firmware() {
    let pts = arc_points(0.0, 0.0, 10.0, 0.0, FRAC_PI_2, 5);
    let mut cmds: Vec<Spanned<GCodeCommand<'static, R>>> = Vec::new();
    // No firmware comment — unknown.
    cmds.push(sp(
        GCodeCommand::RapidMove {
            x: Some(R(pts[0].0)),
            y: Some(R(pts[0].1)),
            z: None,
            f: None,
        },
        1,
    ));
    cmds.extend(arc_g1_cmds(&pts, 3000.0, 0.05, 0.0));

    let result = fit_arcs(cmds, &enabled_config());
    // W004 should be present if arcs were actually fitted.
    if !result.changes.is_empty() {
        let w004 = result.diagnostics.iter().any(|d| d.code == "W004");
        assert!(
            w004,
            "W004 should be emitted for unknown firmware when arcs are fitted"
        );
    }
}

// ─── G92 SetPosition tracking ─────────────────────────────────────────────

/// A G92 reset of the extruder before an arc does not keep it from being fitted.
#[test]
fn test_fit_arcs_g92_e_reset_mid_sequence_arc_still_fitted() {
    // CCW quarter circle: centre (0,0), r=10.
    let pts = arc_points(0.0, 0.0, 10.0, 0.0, FRAC_PI_2, 4);

    let extrusion_rate = 0.05_f64;
    let e_baseline = 5.0_f64;

    let mut cmds: Vec<Spanned<GCodeCommand<'static, R>>> = Vec::new();

    // G0 to arc start.
    cmds.push(sp(
        GCodeCommand::RapidMove {
            x: Some(R(pts[0].0)),
            y: Some(R(pts[0].1)),
            z: None,
            f: None,
        },
        1,
    ));

    // G92 E5.0 — logical extruder reset to 5.0.
    cmds.push(sp(
        GCodeCommand::SetPosition {
            x: None,
            y: None,
            z: None,
            e: Some(R(e_baseline)),
        },
        2,
    ));

    // Three G1 arc moves with E values measured from the 5.0 baseline.
    let mut e = e_baseline;
    for (i, &(x, y)) in pts.iter().enumerate() {
        if i == 0 {
            continue; // start point handled by G0 above
        }
        let (px, py) = pts[i - 1];
        let seg_len = ((x - px).powi(2) + (y - py).powi(2)).sqrt();
        e += seg_len * extrusion_rate;
        cmds.push(sp(
            GCodeCommand::LinearMove {
                x: Some(R(x)),
                y: Some(R(y)),
                z: None,
                e: Some(R(e)),
                f: if i == 1 { Some(R(3000.0)) } else { None },
            },
            (i + 2) as u32,
        ));
    }

    let result = fit_arcs(cmds, &enabled_config());

    assert!(
        !result.changes.is_empty(),
        "arc after G92 E reset must be fitted"
    );
}

/// An arc move of the input moves the position from which the next fit starts.
#[test]
fn test_fit_arcs_existing_arc_in_input_position_tracked_for_following_fit() {
    // Quarter-circle CCW from (10, 0) to (0, 10) on r=10 centred at (0,0).
    let pts = arc_points(0.0, 0.0, 10.0, 0.0, FRAC_PI_2, 5);
    // pts[0] == (10.0, 0.0) — the end point of the pre-existing ArcMoveCW.

    let mut cmds: Vec<Spanned<GCodeCommand<'static, R>>> = Vec::new();

    // Pre-existing G2 arc that ends at (10, 0).
    // I = cx - start_x, J = cy - start_y.  The arc comes from some prior
    // position; we don't care about its geometric validity for this test —
    // what matters is that the fitter reads its endpoint (x=10, y=0) into
    // cur_x/cur_y.
    cmds.push(sp(
        GCodeCommand::ArcMoveCW {
            x: Some(R(10.0)),
            y: Some(R(0.0)),
            z: None,
            e: Some(R(1.0)),
            f: Some(R(1500.0)),
            i: Some(R(-5.0)),
            j: Some(R(0.0)),
        },
        1,
    ));

    // Four G1 moves along the CCW arc starting from (10, 0).
    // arc_g1_cmds skips pts[0] (the start position), so this produces moves
    // for pts[1]..pts[4].  The fitter must treat (10, 0) as the previous
    // position for the first G1 to compute correct I/J offsets.
    let arc_cmds = arc_g1_cmds(&pts, 3000.0, 0.05, 1.0);
    cmds.extend(arc_cmds);

    let result = fit_arcs(cmds, &enabled_config());

    let has_arc = result.commands.iter().any(|c| {
        matches!(
            c.inner,
            GCodeCommand::ArcMoveCW { .. } | GCodeCommand::ArcMoveCCW { .. }
        )
    });
    assert!(
        has_arc,
        "G1 arc following a pre-existing ArcMoveCW must be fitted when position is tracked"
    );
    assert!(
        !result.changes.is_empty(),
        "at least one arc synthesis change must be recorded"
    );
}

#[test]
fn test_arc_fit_no_w004_for_known_supported_firmware() {
    let pts = arc_points(0.0, 0.0, 10.0, 0.0, FRAC_PI_2, 5);
    let mut cmds: Vec<Spanned<GCodeCommand<'static, R>>> = Vec::new();
    cmds.push(sp(
        GCodeCommand::Comment {
            text: Cow::Borrowed("generated by OrcaSlicer 1.9.0"),
        },
        1,
    ));
    cmds.push(sp(
        GCodeCommand::RapidMove {
            x: Some(R(pts[0].0)),
            y: Some(R(pts[0].1)),
            z: None,
            f: None,
        },
        2,
    ));
    cmds.extend(arc_g1_cmds(&pts, 3000.0, 0.05, 0.0));

    let result = fit_arcs(cmds, &enabled_config());
    let w004 = result.diagnostics.iter().any(|d| d.code == "W004");
    assert!(!w004, "W004 should NOT be emitted for OrcaSlicer");
}
