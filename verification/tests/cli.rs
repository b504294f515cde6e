use gcode_sentinel::cli::{Cli, ReportFormat};
use gcode_sentinel::machine_profile::load_profile;
use gcode_sentinel::scalar::Scalar;

/// Double-precision numbers.
#[derive(Clone, Copy, Debug, PartialEq)]
struct R(f64);

impl Scalar for R {
    fn of(n: i64) -> R {
        R(n as f64)
    }
    fn count(n: u64) -> R {
        R(n as f64)
    }
    fn max_value() -> R {
        R(f64::MAX)
    }
    fn min_value() -> R {
        R(f64::MIN)
    }
    fn infinity() -> R {
        R(f64::INFINITY)
    }
    fn pi() -> R {
        R(std::f64::consts::PI)
    }
    fn tau() -> R {
        R(std::f64::consts::TAU)
    }
    fn plus(self, other: R) -> R {
        R(self.0 + other.0)
    }
    fn minus(self, other: R) -> R {
        R(self.0 - other.0)
    }
    fn times(self, other: R) -> R {
        R(self.0 * other.0)
    }
    fn over(self, other: R) -> R {
        R(self.0 / other.0)
    }
    fn negate(self) -> R {
        R(-self.0)
    }
    fn abs(self) -> R {
        R(self.0.abs())
    }
    fn sqrt(self) -> R {
        R(self.0.sqrt())
    }
    fn atan2(self, x: R) -> R {
        R(self.0.atan2(x.0))
    }
    fn min(self, other: R) -> R {
        R(self.0.min(other.0))
    }
    fn max(self, other: R) -> R {
        R(self.0.max(other.0))
    }
    fn round(self) -> R {
        R(self.0.round())
    }
    fn to_degrees(self) -> R {
        R(self.0.to_degrees())
    }
    fn less(self, other: R) -> bool {
        self.0 < other.0
    }
    fn at_most(self, other: R) -> bool {
        self.0 <= other.0
    }
    fn same(self, other: R) -> bool {
        self.0 == other.0
    }
    fn is_finite(self) -> bool {
        self.0.is_finite()
    }
    fn to_u32(self) -> u32 {
        self.0 as u32
    }
    fn parse(text: &str) -> Option<R> {
        text.parse::<f64>().ok().map(R)
    }
    fn fixed(self, places: usize) -> String {
        format!("{:.places$}", self.0)
    }
    fn display(self) -> String {
        format!("{}", self.0)
    }
}

/// The options of a run with nothing but an input.
fn cli() -> Cli<R> {
    Cli {
        input: "input.gcode".to_string(),
        output: None,
        config: None,
        max_x: None,
        max_y: None,
        max_z: None,
        check_only: false,
        verbose: false,
        report_file: None,
        report_format: ReportFormat::Text,
        merge_collinear: false,
        insert_progress: false,
        min_layer_time: None,
        no_travel_merge: false,
        no_feedrate_strip: false,
        trust_existing_m73: false,
        arc_fit: false,
        arc_tolerance: None,
        machine: None,
        dialect: None,
    }
}

// ── machine_limits resolution order ─────────────────────────────────────

#[test]
fn test_machine_limits_no_profile_no_flags_returns_none() {
    let cli = cli();
    assert!(cli.machine_limits(None).is_none());
}

#[test]
fn test_machine_limits_profile_only_uses_profile_values() {
    let cli = cli();
    let profile = load_profile::<R>("ender3").unwrap();
    let limits = cli.machine_limits(Some(&profile)).unwrap();
    assert_eq!(limits.max_x, R(220.0));
    assert_eq!(limits.max_y, R(220.0));
    assert_eq!(limits.max_z, R(250.0));
}

#[test]
fn test_machine_limits_explicit_flags_override_profile() {
    let cli = Cli {
        max_x: Some(R(180.0)),
        max_z: Some(R(300.0)),
        ..cli()
    };
    let profile = load_profile::<R>("ender3").unwrap(); // ender3: 220 × 220 × 250
    let limits = cli.machine_limits(Some(&profile)).unwrap();
    // Explicit --max-x and --max-z override the profile; --max-y falls back to profile.
    assert_eq!(
        limits.max_x, R(180.0),
        "explicit --max-x must win over profile"
    );
    assert_eq!(limits.max_y, R(220.0), "--max-y absent: profile value used");
    assert_eq!(
        limits.max_z, R(300.0),
        "explicit --max-z must win over profile"
    );
}

#[test]
fn test_machine_limits_explicit_flags_only_no_profile() {
    let cli = Cli {
        max_x: Some(R(400.0)),
        max_y: Some(R(400.0)),
        max_z: Some(R(500.0)),
        ..cli()
    };
    let limits = cli.machine_limits(None).unwrap();
    assert_eq!(limits.max_x, R(400.0));
    assert_eq!(limits.max_y, R(400.0));
    assert_eq!(limits.max_z, R(500.0));
}

#[test]
fn test_machine_limits_single_explicit_flag_with_profile_partial_override() {
    let cli = Cli {
        max_y: Some(R(150.0)),
        ..cli()
    };
    let profile = load_profile::<R>("voron_v2").unwrap(); // voron: 350 × 350 × 350
    let limits = cli.machine_limits(Some(&profile)).unwrap();
    assert_eq!(limits.max_x, R(350.0), "x falls back to profile");
    assert_eq!(limits.max_y, R(150.0), "explicit --max-y overrides profile");
    assert_eq!(limits.max_z, R(350.0), "z falls back to profile");
}
