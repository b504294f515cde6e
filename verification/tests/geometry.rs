use std::f64::consts::TAU;

use gcode_sentinel::fixed::Fixed;
use gcode_sentinel::geometry::arc_span;
use gcode_sentinel::scalar::Scalar;

/// Double-precision numbers.
#[derive(Clone, Copy, Debug, PartialEq)]
struct R(f64);

impl Scalar for R {
    fn of(n: i64) -> R {
        R(n as f64)
    }
    fn count(n: u64) -> R {
        R(n as f64)
    }
    fn max_value() -> R {
        R(f64::MAX)
    }
    fn min_value() -> R {
        R(f64::MIN)
    }
    fn infinity() -> R {
        R(f64::INFINITY)
    }
    fn pi() -> R {
        R(std::f64::consts::PI)
    }
    fn tau() -> R {
        R(std::f64::consts::TAU)
    }
    fn plus(self, other: R) -> R {
        R(self.0 + other.0)
    }
    fn minus(self, other: R) -> R {
        R(self.0 - other.0)
    }
    fn times(self, other: R) -> R {
        R(self.0 * other.0)
    }
    fn over(self, other: R) -> R {
        R(self.0 / other.0)
    }
    fn negate(self) -> R {
        R(-self.0)
    }
    fn abs(self) -> R {
        R(self.0.abs())
    }
    fn sqrt(self) -> R {
        R(self.0.sqrt())
    }
    fn atan2(self, x: R) -> R {
        R(self.0.atan2(x.0))
    }
    fn min(self, other: R) -> R {
        R(self.0.min(other.0))
    }
    fn max(self, other: R) -> R {
        R(self.0.max(other.0))
    }
    fn round(self) -> R {
        R(self.0.round())
    }
    fn to_degrees(self) -> R {
        R(self.0.to_degrees())
    }
    fn less(self, other: R) -> bool {
        self.0 < other.0
    }
    fn at_most(self, other: R) -> bool {
        self.0 <= other.0
    }
    fn same(self, other: R) -> bool {
        self.0 == other.0
    }
    fn is_finite(self) -> bool {
        self.0.is_finite()
    }
    fn to_u32(self) -> u32 {
        self.0 as u32
    }
    fn parse(text: &str) -> Option<R> {
        text.parse::<f64>().ok().map(R)
    }
    fn fixed(self, places: usize) -> String {
        format!("{:.places$}", self.0)
    }
    fn display(self) -> String {
        format!("{}", self.0)
    }
}

fn span(start: f64, end: f64, clockwise: bool) -> f64 {
    arc_span(R(start), R(end), clockwise).0
}

// ─── Boundary behaviour (moved from arc_fitter after dedup) ──────────────

#[test]
fn test_arc_span_exact_zero_delta_cw_returns_tau() {
    // CW arc where start == end: the span must be a full circle (TAU), not zero.
    let angle = std::f64::consts::FRAC_PI_2;
    assert_eq!(span(angle, angle, true), TAU);
}

#[test]
fn test_arc_span_exact_zero_delta_ccw_returns_tau() {
    // CCW arc where start == end: same full-circle expectation.
    let angle = std::f64::consts::FRAC_PI_2;
    assert_eq!(span(angle, angle, false), TAU);
}

#[test]
fn test_arc_span_near_zero_delta_below_epsilon_returns_tau() {
    // delta just below 1e-10 after direction normalisation also means full circle.
    // For a CCW arc: end - start = 5e-11 < 1e-10 → TAU.
    let start = 0.0_f64;
    let end = 5e-11_f64;
    assert_eq!(span(start, end, false), TAU);
}

// ─── Basic span calculations ──────────────────────────────────────────────

#[test]
fn test_arc_span_quarter_circle_cw_returns_pi_over_2() {
    // CW quarter arc: π/2 → 0.
    let result = span(std::f64::consts::FRAC_PI_2, 0.0, true);
    assert!((result - std::f64::consts::FRAC_PI_2).abs() < 1e-10);
}

#[test]
fn test_arc_span_half_circle_ccw_returns_pi() {
    // CCW half arc: 0 → π.
    let result = span(0.0, std::f64::consts::PI, false);
    assert!((result - std::f64::consts::PI).abs() < 1e-10);
}

// ─── M4: wrap-around and full-circle arithmetic ───────────────────────────

#[test]
fn test_arc_span_cw_crossing_zero_returns_correct_radians() {
    // CW arc from 10° to 350°: sweeps through 0°, span = 20°.
    let start = 10.0_f64.to_radians();
    let end = 350.0_f64.to_radians();
    let expected = 20.0_f64.to_radians();
    assert!((span(start, end, true) - expected).abs() < 1e-10);
}

#[test]
fn test_arc_span_ccw_crossing_zero_returns_correct_radians() {
    // CCW arc from 350° to 10°: sweeps through 0°, span = 20°.
    let start = 350.0_f64.to_radians();
    let end = 10.0_f64.to_radians();
    let expected = 20.0_f64.to_radians();
    assert!((span(start, end, false) - expected).abs() < 1e-10);
}

#[test]
fn test_arc_span_full_circle_cw_returns_tau() {
    // CW full circle: start == end → TAU.
    let angle = std::f64::consts::PI;
    assert_eq!(span(angle, angle, true), TAU);
}

#[test]
fn test_arc_span_full_circle_ccw_returns_tau() {
    // CCW full circle: start == end → TAU.
    let angle = std::f64::consts::PI;
    assert_eq!(span(angle, angle, false), TAU);
}

#[test]
fn test_arc_span_standard_quarter_ccw_returns_half_pi() {
    // CCW quarter arc: 0° → 90°, span = π/2.
    let result = span(0.0, std::f64::consts::FRAC_PI_2, false);
    assert!((result - std::f64::consts::FRAC_PI_2).abs() < 1e-10);
}

#[test]
fn decimal_arcs_span_something_and_at_most_a_turn() {
    let tau = Fixed::tau();
    let half = Fixed::pi();
    let none = Fixed::of(0);
    for clockwise in [true, false] {
        assert_eq!(arc_span(half, half, clockwise), tau);
        assert_eq!(arc_span(none, tau, clockwise), tau);
        assert_eq!(arc_span(tau, none, clockwise), tau);
    }
    assert_eq!(arc_span(none, half, false), half);
    assert_eq!(arc_span(none, half, true), tau.minus(half));
}
