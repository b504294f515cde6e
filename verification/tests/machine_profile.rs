use gcode_sentinel::machine_profile::{available_profiles, load_profile, ProfileError};
use gcode_sentinel::scalar::Scalar;

/// Double-precision numbers.
#[derive(Clone, Copy, Debug, PartialEq)]
struct R(f64);

impl Scalar for R {
    fn of(n: i64) -> R {
        R(n as f64)
    }
    fn count(n: u64) -> R {
        R(n as f64)
    }
    fn max_value() -> R {
        R(f64::MAX)
    }
    fn min_value() -> R {
        R(f64::MIN)
    }
    fn infinity() -> R {
        R(f64::INFINITY)
    }
    fn pi() -> R {
        R(std::f64::consts::PI)
    }
    fn tau() -> R {
        R(std::f64::consts::TAU)
    }
    fn plus(self, other: R) -> R {
        R(self.0 + other.0)
    }
    fn minus(self, other: R) -> R {
        R(self.0 - other.0)
    }
    fn times(self, other: R) -> R {
        R(self.0 * other.0)
    }
    fn over(self, other: R) -> R {
        R(self.0 / other.0)
    }
    fn negate(self) -> R {
        R(-self.0)
    }
    fn abs(self) -> R {
        R(self.0.abs())
    }
    fn sqrt(self) -> R {
        R(self.0.sqrt())
    }
    fn atan2(self, x: R) -> R {
        R(self.0.atan2(x.0))
    }
    fn min(self, other: R) -> R {
        R(self.0.min(other.0))
    }
    fn max(self, other: R) -> R {
        R(self.0.max(other.0))
    }
    fn round(self) -> R {
        R(self.0.round())
    }
    fn to_degrees(self) -> R {
        R(self.0.to_degrees())
    }
    fn less(self, other: R) -> bool {
        self.0 < other.0
    }
    fn at_most(self, other: R) -> bool {
        self.0 <= other.0
    }
    fn same(self, other: R) -> bool {
        self.0 == other.0
    }
    fn is_finite(self) -> bool {
        self.0.is_finite()
    }
    fn to_u32(self) -> u32 {
        self.0 as u32
    }
    fn parse(text: &str) -> Option<R> {
        text.parse::<f64>().ok().map(R)
    }
    fn fixed(self, places: usize) -> String {
        format!("{:.places$}", self.0)
    }
    fn display(self) -> String {
        format!("{}", self.0)
    }
}

// ── available_profiles ───────────────────────────────────────────────────

#[test]
fn test_available_profiles_returns_all_names() {
    let names = available_profiles();
    assert_eq!(
        names,
        vec![
            "ender3",
            "prusa_mk4",
            "voron_v2",
            "bambu_x1c",
            "generic_300"
        ]
    );
}

// ── load_profile: happy path for each built-in ───────────────────────────

#[test]
fn test_load_profile_ender3_returns_correct_limits() {
    let p = load_profile::<R>("ender3").expect("ender3 must load");
    assert_eq!(p.name, "ender3");
    assert_eq!(p.max_x_mm, R(220.0));
    assert_eq!(p.max_y_mm, R(220.0));
    assert_eq!(p.max_z_mm, R(250.0));
    assert_eq!(p.max_feedrate_mm_per_min, Some(R(500.0)));
    assert_eq!(p.nozzle_diameter_mm, Some(R(0.4)));
    assert_eq!(p.firmware.as_deref(), Some("marlin"));
    assert_eq!(p.max_acceleration_mm_per_s2, None);
}

#[test]
fn test_load_profile_prusa_mk4_returns_correct_limits() {
    let p = load_profile::<R>("prusa_mk4").expect("prusa_mk4 must load");
    assert_eq!(p.name, "prusa_mk4");
    assert_eq!(p.max_x_mm, R(250.0));
    assert_eq!(p.max_y_mm, R(210.0));
    assert_eq!(p.max_z_mm, R(220.0));
    assert_eq!(p.max_acceleration_mm_per_s2, Some(R(1250.0)));
    assert_eq!(p.firmware.as_deref(), Some("prusa"));
}

#[test]
fn test_load_profile_voron_v2_returns_correct_limits() {
    let p = load_profile::<R>("voron_v2").expect("voron_v2 must load");
    assert_eq!(p.name, "voron_v2");
    assert_eq!(p.max_x_mm, R(350.0));
    assert_eq!(p.max_y_mm, R(350.0));
    assert_eq!(p.max_z_mm, R(350.0));
    assert_eq!(p.max_acceleration_mm_per_s2, Some(R(3000.0)));
    assert_eq!(p.firmware.as_deref(), Some("klipper"));
}

#[test]
fn test_load_profile_bambu_x1c_returns_correct_limits() {
    let p = load_profile::<R>("bambu_x1c").expect("bambu_x1c must load");
    assert_eq!(p.name, "bambu_x1c");
    assert_eq!(p.max_x_mm, R(256.0));
    assert_eq!(p.max_y_mm, R(256.0));
    assert_eq!(p.max_z_mm, R(256.0));
    assert_eq!(p.max_feedrate_mm_per_min, Some(R(1200.0)));
    assert_eq!(p.max_acceleration_mm_per_s2, Some(R(20_000.0)));
    assert_eq!(p.firmware.as_deref(), Some("bambu"));
}

#[test]
fn test_load_profile_generic_300_returns_correct_limits() {
    let p = load_profile::<R>("generic_300").expect("generic_300 must load");
    assert_eq!(p.name, "generic_300");
    assert_eq!(p.max_x_mm, R(300.0));
    assert_eq!(p.max_y_mm, R(300.0));
    assert_eq!(p.max_z_mm, R(400.0));
    assert_eq!(p.max_feedrate_mm_per_min, None);
    assert_eq!(p.max_acceleration_mm_per_s2, None);
    assert_eq!(p.nozzle_diameter_mm, None);
    assert_eq!(p.firmware, None);
}

// ── load_profile: unknown name ───────────────────────────────────────────

#[test]
fn test_load_profile_unknown_name_returns_error() {
    let result = load_profile::<R>("does_not_exist");
    assert!(result.is_err());
    assert!(matches!(result, Err(ProfileError::UnknownProfile { .. })));
}

#[test]
fn test_load_profile_unknown_name_error_contains_all_profile_names() {
    let err = load_profile::<R>("nope").unwrap_err();
    let msg = err.to_text();
    // The error message must list every valid profile so the user can self-correct.
    assert!(msg.contains("ender3"), "error should mention ender3: {msg}");
    assert!(
        msg.contains("prusa_mk4"),
        "error should mention prusa_mk4: {msg}"
    );
    assert!(
        msg.contains("voron_v2"),
        "error should mention voron_v2: {msg}"
    );
    assert!(
        msg.contains("bambu_x1c"),
        "error should mention bambu_x1c: {msg}"
    );
    assert!(
        msg.contains("generic_300"),
        "error should mention generic_300: {msg}"
    );
    assert!(
        msg.contains("nope"),
        "error should echo the bad name: {msg}"
    );
}

#[test]
fn test_load_profile_case_sensitive_uppercase_returns_error() {
    // Profile names are lowercase; uppercase must not silently match.
    let result = load_profile::<R>("Ender3");
    assert!(
        matches!(result, Err(ProfileError::UnknownProfile { .. })),
        "lookup must be case-sensitive"
    );
}

// ── to_machine_limits ────────────────────────────────────────────────────

#[test]
fn test_machine_profile_to_machine_limits_uses_axis_bounds() {
    let p = load_profile::<R>("ender3").expect("ender3 must load");
    let limits = p.to_machine_limits();
    assert_eq!(limits.max_x, R(220.0));
    assert_eq!(limits.max_y, R(220.0));
    assert_eq!(limits.max_z, R(250.0));
}

#[test]
fn test_machine_profile_to_machine_limits_voron_v2() {
    let p = load_profile::<R>("voron_v2").expect("voron_v2 must load");
    let limits = p.to_machine_limits();
    assert_eq!(limits.max_x, R(350.0));
    assert_eq!(limits.max_y, R(350.0));
    assert_eq!(limits.max_z, R(350.0));
}
