use gcode_sentinel::diagnostics::{AnalysisReport, Diagnostic, PrintStats, Severity, ValidationDiff};
use gcode_sentinel::scalar::Scalar;

/// Double-precision numbers.
#[derive(Clone, Copy, Debug, PartialEq)]
struct R(f64);

impl Scalar for R {
    fn of(n: i64) -> R {
        R(n as f64)
    }
    fn count(n: u64) -> R {
        R(n as f64)
    }
    fn max_value() -> R {
        R(f64::MAX)
    }
    fn min_value() -> R {
        R(f64::MIN)
    }
    fn infinity() -> R {
        R(f64::INFINITY)
    }
    fn pi() -> R {
        R(std::f64::consts::PI)
    }
    fn tau() -> R {
        R(std::f64::consts::TAU)
    }
    fn plus(self, other: R) -> R {
        R(self.0 + other.0)
    }
    fn minus(self, other: R) -> R {
        R(self.0 - other.0)
    }
    fn times(self, other: R) -> R {
        R(self.0 * other.0)
    }
    fn over(self, other: R) -> R {
        R(self.0 / other.0)
    }
    fn negate(self) -> R {
        R(-self.0)
    }
    fn abs(self) -> R {
        R(self.0.abs())
    }
    fn sqrt(self) -> R {
        R(self.0.sqrt())
    }
    fn atan2(self, x: R) -> R {
        R(self.0.atan2(x.0))
    }
    fn min(self, other: R) -> R {
        R(self.0.min(other.0))
    }
    fn max(self, other: R) -> R {
        R(self.0.max(other.0))
    }
    fn round(self) -> R {
        R(self.0.round())
    }
    fn to_degrees(self) -> R {
        R(self.0.to_degrees())
    }
    fn less(self, other: R) -> bool {
        self.0 < other.0
    }
    fn at_most(self, other: R) -> bool {
        self.0 <= other.0
    }
    fn same(self, other: R) -> bool {
        self.0 == other.0
    }
    fn is_finite(self) -> bool {
        self.0.is_finite()
    }
    fn to_u32(self) -> u32 {
        self.0 as u32
    }
    fn parse(text: &str) -> Option<R> {
        text.parse::<f64>().ok().map(R)
    }
    fn fixed(self, places: usize) -> String {
        format!("{:.places$}", self.0)
    }
    fn display(self) -> String {
        format!("{}", self.0)
    }
}

#[test]
fn validation_diff_detects_new_errors() {
    let pre = vec![Diagnostic {
        severity: Severity::Warning,
        line: 10,
        code: "W001",
        message: "existing warning".to_string(),
    }];
    let post = vec![
        Diagnostic {
            severity: Severity::Warning,
            line: 10,
            code: "W001",
            message: "existing warning".to_string(),
        },
        Diagnostic {
            severity: Severity::Error,
            line: 20,
            code: "E001",
            message: "new error".to_string(),
        },
    ];
    let diff = ValidationDiff::compute(&pre, &post);
    assert!(diff.regression_detected);
    assert_eq!(diff.new_errors.len(), 1);
    assert_eq!(diff.new_errors[0].code, "E001");
    assert!(diff.resolved_errors.is_empty());
}

#[test]
fn validation_diff_no_regression_when_errors_unchanged() {
    let diags = vec![Diagnostic {
        severity: Severity::Error,
        line: 5,
        code: "E002",
        message: "pre-existing error".to_string(),
    }];
    let diff = ValidationDiff::compute(&diags, &diags);
    assert!(!diff.regression_detected);
    assert!(diff.new_errors.is_empty());
}

#[test]
fn summary_of_an_empty_program() {
    let report: AnalysisReport<R> = AnalysisReport {
        diagnostics: vec![],
        stats: PrintStats::default(),
        changes: vec![],
        dry_run: false,
        slicer: None,
    };
    let mut out = String::new();
    report.write_summary(&mut out);
    assert!(out.ends_with("\nNo issues found.\n"));
    assert!(out.contains("Distance  : 0.0 mm\n"));
}
