use std::borrow::Cow;

use gcode_sentinel::models::{GCodeCommand, ParseError};
use gcode_sentinel::parser::{parse_all, parse_line, parse_streaming};
use gcode_sentinel::scalar::Scalar;

/// Double-precision numbers.
#[derive(Clone, Copy, Debug, PartialEq)]
struct R(f64);

impl Scalar for R {
    fn of(n: i64) -> R {
        R(n as f64)
    }
    fn count(n: u64) -> R {
        R(n as f64)
    }
    fn max_value() -> R {
        R(f64::MAX)
    }
    fn min_value() -> R {
        R(f64::MIN)
    }
    fn infinity() -> R {
        R(f64::INFINITY)
    }
    fn pi() -> R {
        R(std::f64::consts::PI)
    }
    fn tau() -> R {
        R(std::f64::consts::TAU)
    }
    fn plus(self, other: R) -> R {
        R(self.0 + other.0)
    }
    fn minus(self, other: R) -> R {
        R(self.0 - other.0)
    }
    fn times(self, other: R) -> R {
        R(self.0 * other.0)
    }
    fn over(self, other: R) -> R {
        R(self.0 / other.0)
    }
    fn negate(self) -> R {
        R(-self.0)
    }
    fn abs(self) -> R {
        R(self.0.abs())
    }
    fn sqrt(self) -> R {
        R(self.0.sqrt())
    }
    fn atan2(self, x: R) -> R {
        R(self.0.atan2(x.0))
    }
    fn min(self, other: R) -> R {
        R(self.0.min(other.0))
    }
    fn max(self, other: R) -> R {
        R(self.0.max(other.0))
    }
    fn round(self) -> R {
        R(self.0.round())
    }
    fn to_degrees(self) -> R {
        R(self.0.to_degrees())
    }
    fn less(self, other: R) -> bool {
        self.0 < other.0
    }
    fn at_most(self, other: R) -> bool {
        self.0 <= other.0
    }
    fn same(self, other: R) -> bool {
        self.0 == other.0
    }
    fn is_finite(self) -> bool {
        self.0.is_finite()
    }
    fn to_u32(self) -> u32 {
        self.0 as u32
    }
    fn parse(text: &str) -> Option<R> {
        text.parse::<f64>().ok().map(R)
    }
    fn fixed(self, places: usize) -> String {
        format!("{:.places$}", self.0)
    }
    fn display(self) -> String {
        format!("{}", self.0)
    }
}

/// Convenience: parse a single line at line 1, offset 0.
fn parse(s: &str) -> Result<GCodeCommand<'_, R>, ParseError> {
    parse_line::<R>(s, 1, 0).map(|s| s.inner)
}

// ── G2 / G3 — arc moves ──────────────────────────────────────────────────

#[test]
fn test_g2_cw_arc_with_ij_parses_to_arc_move_cw() {
    let cmd = parse("G2 X20 Y0 I10 J0").unwrap();
    assert_eq!(
        cmd,
        GCodeCommand::ArcMoveCW {
            x: Some(R(20.0)),
            y: Some(R(0.0)),
            z: None,
            e: None,
            f: None,
            i: Some(R(10.0)),
            j: Some(R(0.0)),
        }
    );
}

#[test]
fn test_g3_ccw_arc_with_ij_parses_to_arc_move_ccw() {
    let cmd = parse("G3 X0 Y10 I0 J10").unwrap();
    assert_eq!(
        cmd,
        GCodeCommand::ArcMoveCCW {
            x: Some(R(0.0)),
            y: Some(R(10.0)),
            z: None,
            e: None,
            f: None,
            i: Some(R(0.0)),
            j: Some(R(10.0)),
        }
    );
}

#[test]
fn test_g2_all_parameters_x_y_z_e_f_i_j() {
    let cmd = parse("G2 X10 Y10 Z0.2 E1.5 F3000 I5 J0").unwrap();
    assert_eq!(
        cmd,
        GCodeCommand::ArcMoveCW {
            x: Some(R(10.0)),
            y: Some(R(10.0)),
            z: Some(R(0.2)),
            e: Some(R(1.5)),
            f: Some(R(3000.0)),
            i: Some(R(5.0)),
            j: Some(R(0.0)),
        }
    );
}

#[test]
fn test_g2_missing_ij_defaults_to_none() {
    let cmd = parse("G2 X10 Y10").unwrap();
    assert_eq!(
        cmd,
        GCodeCommand::ArcMoveCW {
            x: Some(R(10.0)),
            y: Some(R(10.0)),
            z: None,
            e: None,
            f: None,
            i: None,
            j: None,
        }
    );
}

// ── G0 ────────────────────────────────────────────────────────────────────

#[test]
fn g0_rapid_move() {
    let cmd = parse("G0 X10 Y20 Z0.2 F3000").unwrap();
    assert_eq!(
        cmd,
        GCodeCommand::RapidMove {
            x: Some(R(10.0)),
            y: Some(R(20.0)),
            z: Some(R(0.2)),
            f: Some(R(3000.0)),
        }
    );
}

#[test]
fn g00_leading_zero_is_rapid_move() {
    let cmd = parse("G00 X5").unwrap();
    assert!(matches!(cmd, GCodeCommand::RapidMove { x: Some(_), .. }));
}

// ── G1 ────────────────────────────────────────────────────────────────────

#[test]
fn g1_linear_move() {
    let cmd = parse("G1 X100.5 Y-50.3 E1.234 F1200").unwrap();
    assert_eq!(
        cmd,
        GCodeCommand::LinearMove {
            x: Some(R(100.5)),
            y: Some(R(-50.3)),
            z: None,
            e: Some(R(1.234)),
            f: Some(R(1200.0)),
        }
    );
}

#[test]
fn g1_lowercase() {
    let cmd = parse("g1 x10 y20").unwrap();
    assert!(matches!(
        cmd,
        GCodeCommand::LinearMove {
            x: Some(_),
            y: Some(_),
            z: None,
            e: None,
            f: None
        }
    ));
}

#[test]
fn g1_inline_comment_discarded() {
    // The command is what matters; the inline comment is slicer noise.
    let cmd = parse("G1 X10 Y20 ;move to start").unwrap();
    assert_eq!(
        cmd,
        GCodeCommand::LinearMove {
            x: Some(R(10.0)),
            y: Some(R(20.0)),
            z: None,
            e: None,
            f: None,
        }
    );
}

// ── G90 / G91 ─────────────────────────────────────────────────────────────

#[test]
fn g90_set_absolute() {
    assert_eq!(parse("G90").unwrap(), GCodeCommand::SetAbsolute);
}

#[test]
fn g91_set_relative() {
    assert_eq!(parse("G91").unwrap(), GCodeCommand::SetRelative);
}

// ── G92 ───────────────────────────────────────────────────────────────────

#[test]
fn g92_reset_extruder() {
    let cmd = parse("G92 E0").unwrap();
    assert_eq!(
        cmd,
        GCodeCommand::SetPosition {
            x: None,
            y: None,
            z: None,
            e: Some(R(0.0)),
        }
    );
}

// ── G28 ───────────────────────────────────────────────────────────────────

#[test]
fn g28_home_no_params() {
    let cmd = parse("G28").unwrap();
    assert_eq!(
        cmd,
        GCodeCommand::GCommand {
            code: 28,
            params: Cow::Borrowed(""),
        }
    );
}

#[test]
fn g28_with_param() {
    let cmd = parse("G28 W").unwrap();
    assert_eq!(
        cmd,
        GCodeCommand::GCommand {
            code: 28,
            params: Cow::Borrowed("W"),
        }
    );
}

// ── M-codes ───────────────────────────────────────────────────────────────

#[test]
fn m104_set_temp() {
    let cmd = parse("M104 S200 T0").unwrap();
    assert_eq!(
        cmd,
        GCodeCommand::MetaCommand {
            code: 104,
            params: Cow::Borrowed("S200 T0"),
        }
    );
}

// ── Comments ──────────────────────────────────────────────────────────────

#[test]
fn comment_type_external_perimeter() {
    let cmd = parse(";TYPE:External perimeter").unwrap();
    assert_eq!(
        cmd,
        GCodeCommand::Comment {
            text: Cow::Borrowed("TYPE:External perimeter"),
        }
    );
}

#[test]
fn comment_layer_change() {
    let cmd = parse(";LAYER_CHANGE").unwrap();
    assert_eq!(
        cmd,
        GCodeCommand::Comment {
            text: Cow::Borrowed("LAYER_CHANGE"),
        }
    );
}

#[test]
fn comment_z_height() {
    let cmd = parse(";Z:0.20").unwrap();
    assert_eq!(
        cmd,
        GCodeCommand::Comment {
            text: Cow::Borrowed("Z:0.20"),
        }
    );
}

#[test]
fn comment_with_leading_whitespace() {
    let cmd = parse("  ; indented comment").unwrap();
    assert_eq!(
        cmd,
        GCodeCommand::Comment {
            text: Cow::Borrowed(" indented comment"),
        }
    );
}

#[test]
fn parenthesised_comment() {
    let cmd = parse("(this is a comment)").unwrap();
    assert_eq!(
        cmd,
        GCodeCommand::Comment {
            text: Cow::Borrowed("this is a comment"),
        }
    );
}

// ── Empty / whitespace ────────────────────────────────────────────────────

#[test]
fn empty_line() {
    let cmd = parse("").unwrap();
    assert_eq!(
        cmd,
        GCodeCommand::Unknown {
            raw: Cow::Borrowed("")
        }
    );
}

#[test]
fn whitespace_only_line() {
    let cmd = parse("   ").unwrap();
    assert_eq!(
        cmd,
        GCodeCommand::Unknown {
            raw: Cow::Borrowed("")
        }
    );
}

// ── Unknown / Klipper macros ──────────────────────────────────────────────

#[test]
fn klipper_exclude_object() {
    let line = "EXCLUDE_OBJECT_DEFINE EXCLUDE_OBJECT_DEFINE name=obj_0";
    let cmd = parse(line).unwrap();
    assert_eq!(
        cmd,
        GCodeCommand::Unknown {
            raw: Cow::Borrowed(line),
        }
    );
}

// ── Error cases ───────────────────────────────────────────────────────────

#[test]
fn malformed_number_returns_error() {
    let err = parse("G1 X1.2.3").unwrap_err();
    assert!(matches!(err, ParseError::InvalidNumber { line: 1, .. }));
}

// ── Byte-offset and line-number tracking ──────────────────────────────────

#[test]
fn streaming_line_and_offset() {
    let src = "G90\nG91\n";
    let items = parse_streaming::<R>(src);
    assert_eq!(items.len(), 2);

    let first = items[0].as_ref().unwrap();
    assert_eq!(first.line, 1);
    assert_eq!(first.byte_offset, 0);

    let second = items[1].as_ref().unwrap();
    assert_eq!(second.line, 2);
    // "G90\n" is 4 bytes.
    assert_eq!(second.byte_offset, 4);
}

#[test]
fn streaming_crlf_offsets() {
    // \r\n line endings: each line is 5 bytes.
    let src = "G90\r\nG91\r\n";
    let items = parse_streaming::<R>(src);
    assert_eq!(items.len(), 2);

    assert_eq!(items[0].as_ref().unwrap().byte_offset, 0);
    // "G90\r\n" is 5 bytes.
    assert_eq!(items[1].as_ref().unwrap().byte_offset, 5);
}

#[test]
fn streaming_recovers_after_error() {
    let src = "G1 X1.2.3\nG90\n";
    let items = parse_streaming::<R>(src);
    assert_eq!(items.len(), 2);
    assert!(items[0].is_err());
    assert!(items[1].is_ok());
}

#[test]
fn parse_all_stops_at_first_error() {
    let src = "G90\nG1 X1.2.3\nG91\n";
    let result = parse_all::<R>(src);
    assert!(result.is_err());
}

#[test]
fn parse_all_success() {
    let src = "G90\nG91\n";
    let cmds = parse_all::<R>(src).unwrap();
    assert_eq!(cmds.len(), 2);
}

// ── OrcaSlicer packed params (no spaces) ─────────────────────────────────

#[test]
fn orcaslicer_packed_params() {
    // OrcaSlicer sometimes emits parameters with no spaces between them.
    let cmd = parse("G1 X10.5Y20.0E0.5F3000").unwrap();
    assert_eq!(
        cmd,
        GCodeCommand::LinearMove {
            x: Some(R(10.5)),
            y: Some(R(20.0)),
            z: None,
            e: Some(R(0.5)),
            f: Some(R(3000.0)),
        }
    );
}

// ── Spanned fields ────────────────────────────────────────────────────────

#[test]
fn spanned_fields_are_correct() {
    let spanned = parse_line::<R>("G90", 42, 1024).unwrap();
    assert_eq!(spanned.line, 42);
    assert_eq!(spanned.byte_offset, 1024);
    assert_eq!(spanned.inner, GCodeCommand::SetAbsolute);
    // Deref should give us the inner command transparently.
    assert_eq!(*spanned, GCodeCommand::SetAbsolute);
}

// ── File-final line without trailing newline ──────────────────────────────

#[test]
fn no_trailing_newline() {
    let src = "G90\nG91"; // no trailing '\n'
    let items = parse_streaming::<R>(src);
    assert_eq!(items.len(), 2);
    assert_eq!(items[1].as_ref().unwrap().inner, GCodeCommand::SetRelative);
}
