use std::borrow::Cow;

use gcode_sentinel::analyzer::analyze;
use gcode_sentinel::dialect::{detect_dialect, Confidence, SlicerDialect};
use gcode_sentinel::models::{GCodeCommand, Spanned};
use gcode_sentinel::optimizer::{optimize, OptConfig};
use gcode_sentinel::scalar::Scalar;

/// Double-precision numbers.
#[derive(Clone, Copy, Debug, PartialEq)]
struct R(f64);

impl Scalar for R {
    fn of(n: i64) -> R {
        R(n as f64)
    }
    fn count(n: u64) -> R {
        R(n as f64)
    }
    fn max_value() -> R {
        R(f64::MAX)
    }
    fn min_value() -> R {
        R(f64::MIN)
    }
    fn infinity() -> R {
        R(f64::INFINITY)
    }
    fn pi() -> R {
        R(std::f64::consts::PI)
    }
    fn tau() -> R {
        R(std::f64::consts::TAU)
    }
    fn plus(self, other: R) -> R {
        R(self.0 + other.0)
    }
    fn minus(self, other: R) -> R {
        R(self.0 - other.0)
    }
    fn times(self, other: R) -> R {
        R(self.0 * other.0)
    }
    fn over(self, other: R) -> R {
        R(self.0 / other.0)
    }
    fn negate(self) -> R {
        R(-self.0)
    }
    fn abs(self) -> R {
        R(self.0.abs())
    }
    fn sqrt(self) -> R {
        R(self.0.sqrt())
    }
    fn atan2(self, x: R) -> R {
        R(self.0.atan2(x.0))
    }
    fn min(self, other: R) -> R {
        R(self.0.min(other.0))
    }
    fn max(self, other: R) -> R {
        R(self.0.max(other.0))
    }
    fn round(self) -> R {
        R(self.0.round())
    }
    fn to_degrees(self) -> R {
        R(self.0.to_degrees())
    }
    fn less(self, other: R) -> bool {
        self.0 < other.0
    }
    fn at_most(self, other: R) -> bool {
        self.0 <= other.0
    }
    fn same(self, other: R) -> bool {
        self.0 == other.0
    }
    fn is_finite(self) -> bool {
        self.0.is_finite()
    }
    fn to_u32(self) -> u32 {
        self.0 as u32
    }
    fn parse(text: &str) -> Option<R> {
        text.parse::<f64>().ok().map(R)
    }
    fn fixed(self, places: usize) -> String {
        format!("{:.places$}", self.0)
    }
    fn display(self) -> String {
        format!("{}", self.0)
    }
}

/// A linear congruential generator: the same programs on every run.
struct Source(u64);

impl Source {
    fn next(&mut self, bound: u64) -> u64 {
        self.0 = self.0.wrapping_mul(6364136223846793005).wrapping_add(1442695040888963407);
        (self.0 >> 33) % bound
    }

    /// A number with two decimals between `min` and `max` hundredths.
    fn number(&mut self, min: i64, max: i64) -> f64 {
        (min + self.next((max - min + 1) as u64) as i64) as f64 / 100.0
    }

    fn option(&mut self, min: i64, max: i64) -> Option<R> {
        if self.next(2) == 0 {
            None
        } else {
            Some(R(self.number(min, max)))
        }
    }

    fn coord(&mut self) -> Option<R> {
        self.option(0, 30000)
    }

    fn feedrate(&mut self) -> Option<R> {
        self.option(10000, 1000000)
    }

    fn e_value(&mut self) -> Option<R> {
        self.option(-500, 5000)
    }

    fn command(&mut self) -> GCodeCommand<'static, R> {
        match self.next(6) {
            0 => GCodeCommand::RapidMove {
                x: self.coord(),
                y: self.coord(),
                z: self.coord(),
                f: self.feedrate(),
            },
            1 => GCodeCommand::LinearMove {
                x: self.coord(),
                y: self.coord(),
                z: self.coord(),
                e: self.e_value(),
                f: self.feedrate(),
            },
            2 => GCodeCommand::SetAbsolute,
            3 => GCodeCommand::SetRelative,
            4 => GCodeCommand::Comment {
                text: Cow::Borrowed(" random test comment"),
            },
            _ => GCodeCommand::MetaCommand {
                code: 104,
                params: Cow::Owned(format!("S{}", self.number(18000, 26000))),
            },
        }
    }

    /// G90 and up to 49 commands after it.
    fn program(&mut self) -> Vec<Spanned<GCodeCommand<'static, R>>> {
        let length = 1 + self.next(49);
        let mut result = vec![Spanned {
            inner: GCodeCommand::SetAbsolute,
            line: 1,
            byte_offset: 0,
        }];
        for i in 0..length {
            result.push(Spanned {
                inner: self.command(),
                line: (i + 2) as u32,
                byte_offset: 0,
            });
        }
        result
    }
}

/// How many programs each property is tried on.
const PROGRAMS: usize = 256;

#[test]
fn prop_extrusion_preserved_after_optimize() {
    let mut source = Source(1);
    for _ in 0..PROGRAMS {
        let commands = source.program();
        let pre = analyze(&commands, None);
        let config = OptConfig::default();
        let opt_result = optimize(commands, &config);
        let post = analyze(&opt_result.commands, None);
        let diff = (pre.stats.total_filament_mm.0 - post.stats.total_filament_mm.0).abs();
        assert!(
            diff < 1e-6,
            "Filament changed by {diff}: {:.6} -> {:.6}",
            pre.stats.total_filament_mm.0,
            post.stats.total_filament_mm.0
        );
    }
}

#[test]
fn prop_optimizer_converges() {
    let mut source = Source(2);
    for _ in 0..PROGRAMS {
        let config = OptConfig::default();
        let mut current = source.program();
        let mut converged = false;
        // The optimizer must converge within a bounded number of passes.
        for _ in 0..10 {
            let result = optimize(current, &config);
            if result.changes.is_empty() {
                converged = true;
                break;
            }
            current = result.commands;
        }
        assert!(converged, "Optimizer did not converge after 10 passes");
    }
}

fn not_negative(value: &Option<R>, axis: &str, line: u32) {
    if let Some(v) = value {
        assert!(v.0 >= 0.0, "negative {axis} in absolute mode at line {line}");
    }
}

#[test]
fn prop_mode_state_consistency_after_optimize() {
    let mut source = Source(3);
    for _ in 0..PROGRAMS {
        let config = OptConfig::default();
        let result = optimize(source.program(), &config);
        let mut is_absolute = true;
        for cmd in &result.commands {
            match &cmd.inner {
                GCodeCommand::SetAbsolute => is_absolute = true,
                GCodeCommand::SetRelative => is_absolute = false,
                GCodeCommand::LinearMove { x, y, z, .. }
                | GCodeCommand::RapidMove { x, y, z, .. } => {
                    if is_absolute {
                        not_negative(x, "X", cmd.line);
                        not_negative(y, "Y", cmd.line);
                        not_negative(z, "Z", cmd.line);
                    }
                }
                _ => {}
            }
        }
    }
}

#[test]
fn prop_dialect_returns_unknown_for_random_commands() {
    let mut source = Source(4);
    for _ in 0..PROGRAMS {
        let commands = source.program();
        let result = detect_dialect(&commands, None);
        assert_eq!(
            result.metadata.dialect,
            SlicerDialect::Unknown,
            "Expected Unknown dialect for random commands, got {:?}",
            result.metadata.dialect
        );
        assert_eq!(result.metadata.confidence, Confidence::Absent);
    }
}

#[test]
fn prop_dialect_detection_is_deterministic() {
    let mut source = Source(5);
    for _ in 0..PROGRAMS {
        let commands = source.program();
        let r1 = detect_dialect(&commands, None);
        let r2 = detect_dialect(&commands, None);
        assert_eq!(r1.metadata.dialect, r2.metadata.dialect);
        assert_eq!(r1.metadata.confidence, r2.metadata.confidence);
        assert_eq!(r1.metadata.slicer_version, r2.metadata.slicer_version);
        assert_eq!(r1.metadata.nozzle_diameter_mm, r2.metadata.nozzle_diameter_mm);
    }
}
