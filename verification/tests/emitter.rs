use gcode_sentinel::emitter::{emit_command, EmitConfig};
use gcode_sentinel::models::GCodeCommand;
use gcode_sentinel::scalar::Scalar;

/// Double-precision numbers.
#[derive(Clone, Copy, Debug, PartialEq)]
struct R(f64);

impl Scalar for R {
    fn of(n: i64) -> R {
        R(n as f64)
    }
    fn count(n: u64) -> R {
        R(n as f64)
    }
    fn max_value() -> R {
        R(f64::MAX)
    }
    fn min_value() -> R {
        R(f64::MIN)
    }
    fn infinity() -> R {
        R(f64::INFINITY)
    }
    fn pi() -> R {
        R(std::f64::consts::PI)
    }
    fn tau() -> R {
        R(std::f64::consts::TAU)
    }
    fn plus(self, other: R) -> R {
        R(self.0 + other.0)
    }
    fn minus(self, other: R) -> R {
        R(self.0 - other.0)
    }
    fn times(self, other: R) -> R {
        R(self.0 * other.0)
    }
    fn over(self, other: R) -> R {
        R(self.0 / other.0)
    }
    fn negate(self) -> R {
        R(-self.0)
    }
    fn abs(self) -> R {
        R(self.0.abs())
    }
    fn sqrt(self) -> R {
        R(self.0.sqrt())
    }
    fn atan2(self, x: R) -> R {
        R(self.0.atan2(x.0))
    }
    fn min(self, other: R) -> R {
        R(self.0.min(other.0))
    }
    fn max(self, other: R) -> R {
        R(self.0.max(other.0))
    }
    fn round(self) -> R {
        R(self.0.round())
    }
    fn to_degrees(self) -> R {
        R(self.0.to_degrees())
    }
    fn less(self, other: R) -> bool {
        self.0 < other.0
    }
    fn at_most(self, other: R) -> bool {
        self.0 <= other.0
    }
    fn same(self, other: R) -> bool {
        self.0 == other.0
    }
    fn is_finite(self) -> bool {
        self.0.is_finite()
    }
    fn to_u32(self) -> u32 {
        self.0 as u32
    }
    fn parse(text: &str) -> Option<R> {
        text.parse::<f64>().ok().map(R)
    }
    fn fixed(self, places: usize) -> String {
        format!("{:.places$}", self.0)
    }
    fn display(self) -> String {
        format!("{}", self.0)
    }
}

fn emit_to_string(cmd: &GCodeCommand<'_, R>, dp: usize) -> String {
    let config = EmitConfig {
        decimal_places: dp,
        line_ending: "\n",
    };
    let mut text = String::new();
    emit_command(cmd, &mut text, &config);
    text
}

#[test]
fn test_emit_arc_move_cw_produces_g2_with_correct_params() {
    let cmd = GCodeCommand::ArcMoveCW {
        x: Some(R(20.0)),
        y: Some(R(0.0)),
        z: None,
        e: None,
        f: Some(R(3000.0)),
        i: Some(R(10.0)),
        j: Some(R(0.0)),
    };
    let s = emit_to_string(&cmd, 4);
    assert!(s.starts_with("G2"), "expected G2 prefix, got: {s}");
    assert!(s.contains("X20.0000"), "expected X20.0000, got: {s}");
    assert!(s.contains("Y0.0000"), "expected Y0.0000, got: {s}");
    assert!(s.contains("F3000.0000"), "expected F3000.0000, got: {s}");
    assert!(s.contains("I10.0000"), "expected I10.0000, got: {s}");
    assert!(s.contains("J0.0000"), "expected J0.0000, got: {s}");
    assert!(!s.contains('Z'), "unexpected Z in: {s}");
    assert!(!s.contains('E'), "unexpected E in: {s}");
}

#[test]
fn test_emit_arc_move_ccw_produces_g3_with_correct_params() {
    let cmd = GCodeCommand::ArcMoveCCW {
        x: Some(R(0.0)),
        y: Some(R(10.0)),
        z: None,
        e: None,
        f: None,
        i: Some(R(0.0)),
        j: Some(R(10.0)),
    };
    let s = emit_to_string(&cmd, 4);
    assert!(s.starts_with("G3"), "expected G3 prefix, got: {s}");
    assert!(s.contains("X0.0000"), "expected X0.0000, got: {s}");
    assert!(s.contains("Y10.0000"), "expected Y10.0000, got: {s}");
    assert!(s.contains("I0.0000"), "expected I0.0000, got: {s}");
    assert!(s.contains("J10.0000"), "expected J10.0000, got: {s}");
}

#[test]
fn test_emit_arc_respects_decimal_places() {
    let cmd = GCodeCommand::ArcMoveCW {
        x: Some(R(1.0)),
        y: Some(R(2.0)),
        z: None,
        e: None,
        f: None,
        i: Some(R(3.0)),
        j: Some(R(4.0)),
    };
    let s2 = emit_to_string(&cmd, 2);
    assert!(s2.contains("X1.00"), "expected X1.00, got: {s2}");
    assert!(s2.contains("I3.00"), "expected I3.00, got: {s2}");

    let s0 = emit_to_string(&cmd, 0);
    assert!(s0.contains("X1"), "expected X1 (no decimals), got: {s0}");
    assert!(s0.contains("I3"), "expected I3 (no decimals), got: {s0}");
}

#[test]
fn test_emit_arc_omits_absent_optional_params() {
    let cmd = GCodeCommand::ArcMoveCW {
        x: Some(R(5.0)),
        y: None,
        z: None,
        e: None,
        f: None,
        i: Some(R(2.5)),
        j: None,
    };
    let s = emit_to_string(&cmd, 3);
    assert!(!s.contains('Y'), "Y should be absent, got: {s}");
    assert!(!s.contains('Z'), "Z should be absent, got: {s}");
    assert!(!s.contains('E'), "E should be absent, got: {s}");
    assert!(!s.contains('F'), "F should be absent, got: {s}");
    assert!(!s.contains('J'), "J should be absent, got: {s}");
    assert!(s.contains("X5.000"), "X should be present, got: {s}");
    assert!(s.contains("I2.500"), "I should be present, got: {s}");
}
