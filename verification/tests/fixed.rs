use gcode_sentinel::fixed::Fixed;
use gcode_sentinel::geometry::arc_span;
use gcode_sentinel::models::Point3D;
use gcode_sentinel::scalar::{ratio, total, Scalar};

fn number(text: &str) -> Fixed {
    Fixed::parse(text).unwrap()
}

#[test]
fn numbers_are_read() {
    assert_eq!(number("1.5").millionths, 1_500_000);
    assert_eq!(number("-0.000001").millionths, -1);
    assert_eq!(number("+7").millionths, 7_000_000);
    assert_eq!(number(".5").millionths, 500_000);
    assert_eq!(number("5.").millionths, 5_000_000);
    for bad in ["", "-", ".", "1.2.3", "1e3", " 1", "x"] {
        assert_eq!(Fixed::parse(bad), None, "{bad}");
    }
}

#[test]
fn numbers_are_written() {
    assert_eq!(number("1.25").fixed(4), "1.2500");
    assert_eq!(number("1.25").fixed(1), "1.3");
    assert_eq!(number("-1.25").fixed(0), "-1");
    assert_eq!(number("2.5").fixed(0), "3");
    assert_eq!(number("1.25").fixed(8), "1.25000000");
    assert_eq!(number("-0.5").display(), "-0.5");
    assert_eq!(number("10").display(), "10");
    assert_eq!(number("0").display(), "0");
}

#[test]
fn numbers_are_reckoned_with() {
    assert_eq!(number("0.1").plus(number("0.2")), number("0.3"));
    assert_eq!(number("1").minus(number("1.5")), number("-0.5"));
    assert_eq!(number("1.5").times(number("-2.5")), number("-3.75"));
    assert_eq!(number("1").over(number("3")), number("0.333333"));
    assert_eq!(number("2").sqrt(), number("1.414213"));
    assert_eq!(number("25").sqrt(), number("5"));
    assert_eq!(number("-2.5").round(), number("-3"));
    assert_eq!(number("2.4").round(), number("2"));
    assert_eq!(number("-3").abs(), number("3"));
    assert_eq!(number("3").negate(), number("-3"));
    assert_eq!(number("3").min(number("-1")), number("-1"));
    assert_eq!(number("3").max(number("-1")), number("3"));
    assert_eq!(number("3.9").to_u32(), 3);
    assert_eq!(number("-3.9").to_u32(), 0);
    assert_eq!(ratio::<Fixed>(1, 4), number("0.25"));
    assert_eq!(
        total(&[number("0.5"), number("1"), number("-0.25")]),
        number("1.25")
    );
}

#[test]
fn numbers_stay_in_range() {
    let most = Fixed::max_value();
    assert_eq!(most.plus(most).is_finite(), false);
    assert!(most.is_finite());
    assert!(most.less(Fixed::infinity()));
    assert!(!number("1").over(number("0")).is_finite());
}

#[test]
fn angles_are_measured() {
    let right = Fixed::of(0).atan2(Fixed::of(1));
    let up = Fixed::of(1).atan2(Fixed::of(0));
    assert_eq!(right, Fixed::of(0));
    let quarter = Fixed::pi().over(Fixed::of(2));
    assert!(up.minus(quarter).abs().at_most(number("0.001")));
    let span = arc_span(right, up, false);
    assert!(span.minus(quarter).abs().at_most(number("0.001")));
    assert_eq!(Fixed::pi().to_degrees(), number("180"));
}

#[test]
fn points_read_as_text() {
    let p = Point3D {
        x: number("0.4"),
        y: number("-1"),
        z: number("28.125"),
    };
    assert_eq!(p.to_text(), "(0.4, -1, 28.125)");
    assert_eq!(Point3D::<Fixed>::default().to_text(), "(0, 0, 0)");
}
