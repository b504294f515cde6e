use gcode_sentinel::analyzer::analyze;
use gcode_sentinel::diagnostics::Severity;
use gcode_sentinel::fixed::Fixed;
use gcode_sentinel::parser::parse_all;

fn notes(source: &str) -> Vec<(u32, String)> {
    let program = parse_all::<Fixed>(source).unwrap();
    analyze(&program, None)
        .diagnostics
        .iter()
        .filter(|d| d.code == "I003")
        .map(|d| {
            assert_eq!(d.severity, Severity::Info);
            (d.line, d.message.clone())
        })
        .collect()
}

#[test]
fn a_staircase_of_temperatures_is_a_tower() {
    let found = notes(
        "M104 S220\nG1 Z10\nM104 S215\nG1 Z20\nM109 S210\nG1 Z30\nM104 S205\nG1 Z40\nM104 S0\n",
    );
    assert_eq!(
        found,
        vec![(
            1,
            "probable temperature tower detected: Z 0.000 220 °C, Z 10.000 215 °C, Z 20.000 210 °C, Z 30.000 205 °C — verify this is intentional"
                .to_string()
        )]
    );
}

#[test]
fn three_temperatures_are_not_enough() {
    assert!(notes("M104 S220\nG1 Z10\nM104 S210\nG1 Z20\nM104 S200\nG1 Z30\n").is_empty());
}

#[test]
fn temperatures_have_to_lie_ten_degrees_apart() {
    assert!(notes(
        "M104 S203\nG1 Z10\nM104 S202\nG1 Z20\nM104 S201\nG1 Z30\nM104 S200\nG1 Z40\n"
    )
    .is_empty());
}

#[test]
fn irregular_heights_are_no_staircase() {
    let source = "M104 S220\nG1 Z10\nM104 S215\nG1 Z11\nM104 S210\nG1 Z30\nM104 S205\n";
    assert!(notes(source).is_empty());
}

#[test]
fn a_comment_can_hint_at_a_tower() {
    let source = "; Flow Calibration\nM104 S220\nG1 Z10\nM104 S215\nG1 Z11\nM104 S210\nG1 Z30\nM104 S205\n";
    assert_eq!(
        notes(source),
        vec![(
            1,
            "comment hints at a temperature tower or calibration print with 4 temperatures — verify this is intentional"
                .to_string()
        )]
    );
    assert!(notes("; temp tower\nM104 S220\n").is_empty());
}
