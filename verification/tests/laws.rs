use std::borrow::Cow;

use gcode_sentinel::analyzer::{analyze, AnalysisResult};
use gcode_sentinel::arc_fitter::{fit_arcs, ArcFitConfig};
use gcode_sentinel::diagnostics::{
    AnalysisReport, Diagnostic, PrintStats, Severity, ValidationDiff,
};
use gcode_sentinel::dialect::{detect_dialect, Confidence, SlicerDialect};
use gcode_sentinel::emitter::{emit, emit_command, EmitConfig};
use gcode_sentinel::fixed::Fixed;
use gcode_sentinel::models::{GCodeCommand, MachineLimits, ParseError, Spanned};
use gcode_sentinel::optimizer::{insert_progress_markers, merge_collinear, optimize, OptConfig};
use gcode_sentinel::parser::{line_count, parse_all, parse_line, parse_streaming};
use gcode_sentinel::scalar::Scalar;

type Program<'a> = Vec<Spanned<GCodeCommand<'a, Fixed>>>;

fn read(source: &str) -> Program<'_> {
    parse_all::<Fixed>(source).unwrap()
}

fn written(program: &Program<'_>) -> String {
    let mut out = String::new();
    emit(program, &mut out, &EmitConfig::default());
    out
}

fn optimized(source: &str) -> (String, Vec<(u32, String)>) {
    let result = optimize(read(source), &OptConfig::default());
    let changes = result
        .changes
        .iter()
        .map(|c| (c.line, c.description.clone()))
        .collect();
    (written(&result.commands), changes)
}

fn analyzed(source: &str) -> AnalysisResult<Fixed> {
    analyze(&read(source), None)
}

fn number(text: &str) -> Fixed {
    Fixed::parse(text).unwrap()
}

fn finding(severity: Severity, line: u32, code: &'static str) -> Diagnostic {
    Diagnostic {
        severity,
        line,
        code,
        message: String::new(),
    }
}

fn report(diagnostics: Vec<Diagnostic>) -> AnalysisReport<Fixed> {
    AnalysisReport {
        diagnostics,
        stats: PrintStats::default(),
        changes: vec![],
        dry_run: false,
        slicer: None,
    }
}

// ── Diagnostics ───────────────────────────────────────────────────────────────

#[test]
fn errors_are_there_exactly_where_they_are_counted() {
    let with = report(vec![
        finding(Severity::Info, 1, "I001"),
        finding(Severity::Error, 2, "E001"),
        finding(Severity::Warning, 3, "W001"),
        finding(Severity::Error, 4, "E002"),
    ]);
    assert!(with.has_errors());
    assert_eq!(with.count_at_least(Severity::Error), 2);
    let without = report(vec![finding(Severity::Warning, 3, "W001")]);
    assert!(!without.has_errors());
    assert_eq!(without.count_at_least(Severity::Error), 0);
}

#[test]
fn fewer_findings_are_counted_the_graver_they_must_be() {
    let all = report(vec![
        finding(Severity::Info, 1, "I001"),
        finding(Severity::Error, 2, "E001"),
        finding(Severity::Warning, 3, "W001"),
    ]);
    assert_eq!(all.count_at_least(Severity::Info), 3);
    assert_eq!(all.count_at_least(Severity::Warning), 2);
    assert_eq!(all.count_at_least(Severity::Error), 1);
}

#[test]
fn findings_show_no_regression_against_themselves() {
    let all = vec![
        finding(Severity::Error, 2, "E001"),
        finding(Severity::Error, 2, "E001"),
        finding(Severity::Warning, 3, "W001"),
    ];
    let diff = ValidationDiff::compute(&all, &all);
    assert!(!diff.regression_detected);
    assert!(diff.new_errors.is_empty());
    assert!(diff.resolved_errors.is_empty());
}

#[test]
fn an_error_at_another_line_is_new_and_the_old_one_resolved() {
    let pre = vec![finding(Severity::Error, 2, "E001")];
    let post = vec![
        finding(Severity::Error, 3, "E001"),
        finding(Severity::Error, 2, "E002"),
        finding(Severity::Warning, 9, "W001"),
    ];
    let diff = ValidationDiff::compute(&pre, &post);
    assert!(diff.regression_detected);
    assert_eq!(diff.new_errors, post[..2]);
    assert_eq!(diff.resolved_errors, pre);
}

#[test]
fn a_finding_reads_as_one_line() {
    let d = Diagnostic {
        severity: Severity::Warning,
        line: 4012,
        code: "W001",
        message: "move to negative coordinate (-0.5, 10, 0.2)".to_string(),
    };
    assert_eq!(
        d.to_text(),
        "[warning] line 4012: W001 — move to negative coordinate (-0.5, 10, 0.2)"
    );
}

// ── Reading ───────────────────────────────────────────────────────────────────

#[test]
fn every_line_knows_its_number_and_offset() {
    let program = read("G90\r\n; é\n\nG1 X1\nM84");
    let places: Vec<(u32, u64)> = program.iter().map(|c| (c.line, c.byte_offset)).collect();
    assert_eq!(places, vec![(1, 0), (2, 5), (3, 10), (4, 11), (5, 17)]);
}

#[test]
fn lines_are_counted() {
    for (source, lines) in [("", 0), ("\n", 1), ("G90", 1), ("G90\n", 1), ("a\r\n\nb", 3)] {
        assert_eq!(line_count(source), lines);
        assert_eq!(parse_streaming::<Fixed>(source).len(), lines);
    }
}

#[test]
fn the_first_line_that_cannot_be_read_is_the_error() {
    let source = "G1 X1\nG1 Y1.2.3\nG1 Z..\n";
    assert_eq!(
        parse_all::<Fixed>(source).unwrap_err(),
        ParseError::InvalidNumber {
            line: 2,
            value: "1.2.3".to_string(),
        }
    );
    let lines = parse_streaming::<Fixed>(source);
    assert!(lines[0].is_ok());
    assert!(lines[1].is_err());
    assert!(lines[2].is_err());
}

#[test]
fn only_moves_and_positions_can_fail() {
    for bad in ["G0 X1.2.3", "G1 X1.2.3", "G2 J1.2.3", "G3 I1.2.3", "G92 E1.2.3", "G1X1.2.3"] {
        assert!(parse_line::<Fixed>(bad, 1, 0).is_err(), "{bad}");
    }
    for good in ["G28 X1.2.3", "M104 S1.2.3", "; X1.2.3", "X1.2.3", "G90 X1.2.3", "G1.5 X1.2.3"] {
        assert!(parse_line::<Fixed>(good, 1, 0).is_ok(), "{good}");
    }
}

#[test]
fn parse_errors_read_as_messages() {
    let number = ParseError::InvalidNumber {
        line: 7,
        value: "1.2.3".to_string(),
    };
    assert_eq!(
        number.to_text(),
        "invalid number '1.2.3' on line 7: invalid float literal"
    );
    let line = ParseError::InvalidLine {
        line: 8,
        message: "what is this".to_string(),
    };
    assert_eq!(line.to_text(), "invalid G-Code on line 8: what is this");
    assert_eq!(
        ParseError::UnexpectedEof { line: 9 }.to_text(),
        "unexpected end of input on line 9"
    );
}

// ── Reading what was written ──────────────────────────────────────────────────

#[test]
fn lines_that_are_no_commands_pass_through_verbatim() {
    let source = "EXCLUDE_OBJECT_DEFINE NAME=a ; b\n  SET_FAN_SPEED FAN=x\nG29_LEVEL\n";
    assert_eq!(written(&read(source)), source);
}

#[test]
fn codes_with_a_subcode_pass_through_verbatim() {
    let source = "G38.2 Z-10\nG92.1\nG1.5 X1\nM569.1 P0\n";
    let program = read(source);
    assert!(program.iter().all(|c| matches!(c.inner, GCodeCommand::Unknown { .. })));
    assert_eq!(written(&program), source);
}

#[test]
fn longer_names_are_no_codes() {
    let source = "G2CORE X1\nM117Hello\nG1_PARK\nGRID_LEVELING\n";
    let program = read(source);
    assert!(program.iter().all(|c| matches!(c.inner, GCodeCommand::Unknown { .. })));
    assert_eq!(written(&program), source);
}

#[test]
fn codes_beyond_sixteen_bits_pass_through_verbatim() {
    let source = "G65536 X1\nM99999\nG4294967296\n";
    let program = read(source);
    assert!(program.iter().all(|c| matches!(c.inner, GCodeCommand::Unknown { .. })));
    assert_eq!(written(&program), source);
    match &read("M65535 S1\n")[0].inner {
        GCodeCommand::MetaCommand { code, params } => {
            assert_eq!(*code, 65535);
            assert_eq!(params.as_ref(), "S1");
        }
        other => panic!("{other:?}"),
    }
}

#[test]
fn parameters_may_be_packed_against_the_code() {
    match &read("G1X10Y-2.5F1200\n")[0].inner {
        GCodeCommand::LinearMove { x, y, z, e, f } => {
            assert_eq!(*x, Some(number("10")));
            assert_eq!(*y, Some(number("-2.5")));
            assert_eq!((*z, *e), (None, None));
            assert_eq!(*f, Some(number("1200")));
        }
        other => panic!("{other:?}"),
    }
    match &read("M106S255\n")[0].inner {
        GCodeCommand::MetaCommand { code, params } => {
            assert_eq!(*code, 106);
            assert_eq!(params.as_ref(), "S255");
        }
        other => panic!("{other:?}"),
    }
    assert_eq!(written(&read("G28X\ng28x y\n")), "G28 X\nG28 x y\n");
}

#[test]
fn a_quoted_semicolon_begins_no_comment() {
    let program = read("M117 \"a;b\" ;c\nM117 \"a\" ;\"c\"\nM117 a ; b ; c\n");
    assert_eq!(written(&program), "M117 \"a;b\"\nM117 \"a\"\nM117 a\n");
    let again = written(&program);
    assert_eq!(written(&read(&again)), again);
}

#[test]
fn what_was_written_is_written_again_as_it_was() {
    let source = "G1 X1.00005 Y-0.00004 E-0.00006\nG3 X-9 I-0.33333 J0.66667\n(a) \n;b\nM117 \"x;y\"\nfoo ;bar\nG92 E0\n";
    let first = written(&read(source));
    assert_eq!(
        first,
        "G1 X1.0001 Y0.0000 E-0.0001\nG3 X-9.0000 I-0.3333 J0.6667\n;(a) \n;b\nM117 \"x;y\"\nfoo ;bar\nG92 E0.0000\n"
    );
    assert_eq!(written(&read(&first)), first);
}

#[test]
fn comments_and_other_codes_are_read_back() {
    let source = "; hello\n;LAYER_CHANGE\nG28 X Y\nM104 S200\nM84\nG90\nG91\n\n";
    let program = read(source);
    assert_eq!(written(&program), source);
}

#[test]
fn moves_are_read_back_as_they_were() {
    let program = read("G1 X1.25 Y-0.5 E0.0001 F1500\nG2 X1 Y2 I0.5 J-0.5\nG92 E0\nG0\n");
    let text = written(&program);
    assert_eq!(
        text,
        "G1 X1.2500 Y-0.5000 E0.0001 F1500.0000\nG2 X1.0000 Y2.0000 I0.5000 J-0.5000\nG92 E0.0000\nG0\n"
    );
    let again = read(&text);
    assert_eq!(again.len(), program.len());
    for (a, b) in again.iter().zip(program.iter()) {
        assert_eq!(a.inner, b.inner);
        assert_eq!(a.line, b.line);
    }
}

#[test]
fn numbers_come_back_up_to_rounding() {
    let program = read("G1 X1.00005 Y-2.00004 Z3.99999\n");
    let text = written(&program);
    assert_eq!(text, "G1 X1.0001 Y-2.0000 Z4.0000\n");
    match &read(&text)[0].inner {
        GCodeCommand::LinearMove { x, y, z, .. } => {
            assert_eq!(*x, Some(number("1.0001")));
            assert_eq!(*y, Some(number("-2")));
            assert_eq!(*z, Some(number("4")));
        }
        other => panic!("{other:?}"),
    };
    let mut exact = String::new();
    let config = EmitConfig {
        decimal_places: 6,
        line_ending: "\n",
    };
    emit(&program, &mut exact, &config);
    assert_eq!(read(&exact)[0].inner, program[0].inner);
}

#[test]
fn a_second_carriage_return_is_a_part_of_the_comment() {
    let program = read(";a\r\r\n;b\r\n");
    assert_eq!(
        program[0].inner,
        GCodeCommand::Comment {
            text: Cow::Borrowed("a\r")
        }
    );
    assert_eq!(written(&program), ";a\r\n;b\n");
    let mut out = String::new();
    let config = EmitConfig {
        decimal_places: 4,
        line_ending: "\r\n",
    };
    emit(&program, &mut out, &config);
    assert_eq!(out, ";a\r\r\n;b\r\n");
}

#[test]
fn commands_are_written_with_the_places_asked_for() {
    let mut out = String::new();
    let config = EmitConfig {
        decimal_places: 2,
        line_ending: "\r\n",
    };
    emit(&read("G0 X1.005 F600\nM84\n"), &mut out, &config);
    assert_eq!(out, "G0 X1.01 F600.00\r\nM84\r\n");
}

#[test]
fn a_command_is_appended_without_a_line_ending() {
    let mut out = "> ".to_string();
    let command: GCodeCommand<'_, Fixed> = GCodeCommand::MetaCommand {
        code: 106,
        params: Cow::Borrowed("S255"),
    };
    emit_command(&command, &mut out, &EmitConfig::default());
    assert_eq!(out, "> M106 S255");
}

// ── Optimizing ────────────────────────────────────────────────────────────────

#[test]
fn what_is_kept_stays_in_order() {
    let (out, changes) = optimized("M107\nG1\nG90\nG90\nG1 X1\nM107\n; end\n");
    assert_eq!(out, "M107\nG90\nG1 X1.0000\n; end\n");
    assert_eq!(
        changes,
        vec![
            (2, "empty move with no parameters".to_string()),
            (4, "duplicate mode switch (G90/G91 already active)".to_string()),
            (6, "duplicate fan command (same setting already active)".to_string()),
        ]
    );
}

#[test]
fn only_feedrates_change_in_what_is_kept() {
    let (out, changes) = optimized("G1 X1 F1500\nG1 Y2 F1500\nG1 Z3 F900\n");
    assert_eq!(
        out,
        "G1 X1.0000 F1500.0000\nG1 Y2.0000\nG1 Z3.0000 F900.0000\n"
    );
    assert_eq!(
        changes,
        vec![(2, "redundant feedrate F1500 (already modal)".to_string())]
    );
}

#[test]
fn every_rule_gives_its_reason() {
    let (_, changes) = optimized(
        "G0\nG91\nG91\nG90\nM106 S9\nM106 S9\nG1 X5 Y5\nG1 X5\nM104 S200\nM104 S200\nM140 S60\nM140 S60\n",
    );
    assert_eq!(
        changes,
        vec![
            (1, "empty move with no parameters".to_string()),
            (3, "duplicate mode switch (G90/G91 already active)".to_string()),
            (6, "duplicate fan command (same setting already active)".to_string()),
            (8, "zero-delta move (no net displacement)".to_string()),
            (10, "duplicate temperature command (already set)".to_string()),
            (12, "duplicate temperature command (already set)".to_string()),
        ]
    );
    let (out, changes) = optimized("G0 X1\nG0 X2\n");
    assert_eq!(out, "G0 X2.0000\n");
    assert_eq!(
        changes,
        vec![(1, "redundant same-axis travel (superseded by next move)".to_string())]
    );
}

#[test]
fn commands_that_set_nothing_stay() {
    let source = "; a\nG28\nM84\nM84\nFOO\nG4 P1\nG4 P1\n\n";
    let (out, changes) = optimized(source);
    assert_eq!(out, source);
    assert!(changes.is_empty());
}

#[test]
fn waiting_for_a_temperature_is_another_command_than_setting_it() {
    let source = "M104 S200\nM109 S200\nM140 S60\nM190 S60\nM106 S255\nM107\n";
    let (out, changes) = optimized(source);
    assert_eq!(out, source);
    assert!(changes.is_empty());
    // The hotend and the bed are told apart.
    let source = "M104 S60\nM140 S60\nM104 S60\n";
    let (out, changes) = optimized(source);
    assert_eq!(out, "M104 S60\nM140 S60\n");
    assert_eq!(changes.len(), 1);
}

#[test]
fn the_filament_stays_the_same() {
    let source = "G92 E0\nG1 X10 E1\nG1 X10\nG1 X20 E2.5\nG0\nG1 E1\nG1 X30 E4\n";
    let before = analyzed(source).stats.total_filament_mm;
    let (out, changes) = optimized(source);
    assert_eq!(changes.len(), 2);
    assert_eq!(before, number("5.5"));
    assert_eq!(analyzed(&out).stats.total_filament_mm, before);
}

/// Where an absolute program leads: X, Y, Z, E and the feedrate.
fn end_of(program: &Program<'_>) -> [Option<Fixed>; 5] {
    let mut end = [None; 5];
    for command in program {
        let named = match &command.inner {
            GCodeCommand::RapidMove { x, y, z, f } => [*x, *y, *z, None, *f],
            GCodeCommand::LinearMove { x, y, z, e, f } => [*x, *y, *z, *e, *f],
            _ => [None; 5],
        };
        for k in 0..5 {
            if named[k].is_some() {
                end[k] = named[k];
            }
        }
    }
    end
}

#[test]
fn the_head_ends_where_it_did() {
    let source = "G0 X1 F600\nG0 X2\n; still there\nG0 X3\nG1 X3 Y4 E1 F600\nG1 Y4\nG0 Z1\nG0 Z2\n";
    let result = optimize(read(source), &OptConfig::default());
    assert_eq!(
        written(&result.commands),
        "G0 X1.0000 F600.0000\n; still there\nG0 X3.0000\nG1 X3.0000 Y4.0000 E1.0000\nG0 Z2.0000\n"
    );
    assert_eq!(end_of(&result.commands), end_of(&read(source)));
    assert_eq!(
        end_of(&result.commands),
        [
            Some(number("3")),
            Some(number("4")),
            Some(number("2")),
            Some(number("1")),
            Some(number("600")),
        ]
    );
}

#[test]
fn a_dry_run_reports_the_same_and_changes_nothing() {
    let source = "G90\nG90\nG1 X1 F600\nG1 X2 F600\nG1\n";
    let wet = optimize(read(source), &OptConfig::default());
    let dry = optimize(
        read(source),
        &OptConfig {
            dry_run: true,
            ..OptConfig::default()
        },
    );
    assert_eq!(wet.changes, dry.changes);
    assert_eq!(dry.commands, read(source));
    assert_eq!(wet.changes.len(), 3);
}

#[test]
fn changes_come_in_the_order_of_their_lines() {
    let (_, changes) = optimized("G0 X1 F600\nG0 X2 F600\nG0 X3 F600\nG1\nG90\nG90\n");
    let lines: Vec<u32> = changes.iter().map(|c| c.0).collect();
    let mut sorted = lines.clone();
    sorted.sort();
    assert_eq!(lines, sorted);
    assert!(lines.len() >= 4);
}

#[test]
fn optimizing_again_and_again_comes_to_an_end() {
    let mut program = read("G0 X1 F600\nG0 X2 F600\nG0 X2\nG1\nG90\nG90\nM107\nM107\n");
    let mut passes = 0;
    loop {
        let result = optimize(program, &OptConfig::default());
        program = result.commands;
        if result.changes.is_empty() {
            break;
        }
        passes += 1;
    }
    assert!(passes <= 3);
}

#[test]
fn superseded_travel_stays_where_positions_are_relative_anywhere() {
    let source = "G0 X1\nG0 X2\nG91\n";
    let (out, changes) = optimized(source);
    assert_eq!(out, "G0 X1.0000\nG0 X2.0000\nG91\n");
    assert!(changes.is_empty());
}

#[test]
fn a_redundant_move_does_not_keep_travel_apart() {
    let (out, changes) = optimized("G0 X10\nG0 X10\nG0 X20\n");
    assert_eq!(out, "G0 X20.0000\n");
    assert_eq!(changes.iter().map(|c| c.0).collect::<Vec<u32>>(), vec![1, 2]);
    let (out, _) = optimized("G0 X10\n; a\nG0 X10\nG0 X10\nFOO\nG0 X20\nG0 X20\nG0 X30\n");
    assert_eq!(out, "; a\nFOO\nG0 X30.0000\n");
    // A redundant move on another axis does.
    let (out, _) = optimized("G0 X10\nG0 Y0\nG0 X20\n");
    assert_eq!(out, "G0 X10.0000\nG0 X20.0000\n");
}

#[test]
fn stripping_feedrates_changes_no_analysis() {
    let source = "G1 X10 F1200\nG1 X-20 Y5 E5 F1200\nG0 X5 Y7 F1200\nG2 X7 Y9 I1 F600\nG1 X9 Z2 E1 F1200\nG1 X8 Y1 F1200\n";
    let (out, changes) = optimized(source);
    assert_eq!(changes.len(), 3);
    let before = analyzed(source);
    let after = analyzed(&out);
    assert_eq!(after.stats, before.stats);
    assert_eq!(after.diagnostics, before.diagnostics);
}

#[test]
fn four_decimals_lose_nothing() {
    let source = "G90\nG1 X1 Y1 E0.0001 F1200\nG1 E0.0002\nG1 X1 Y1 E0.0002\nG91\nG1 E0.0001\nG1 E0.0001 F1200.0001\nG90\nG1 E0.0004\nG1 E0.0005 F1200.0001\n";
    let before = read(source);
    let (out, changes) = optimized(source);
    let after = read(&out);
    assert_eq!(changes.len(), 3);
    assert_eq!(analyzed(source).stats.total_filament_mm, number("0.0005"));
    assert_eq!(analyzed(&out).stats.total_filament_mm, number("0.0005"));
    assert_eq!(end_of(&before), end_of(&after));
}

#[test]
fn rules_can_be_switched_off() {
    let travel = optimize(
        read("G0 X1\nG0 X2\n"),
        &OptConfig {
            no_travel_merge: true,
            ..OptConfig::default()
        },
    );
    assert!(travel.changes.is_empty());
    let feed = optimize(
        read("G1 X1 F600\nG1 Y2 F600\n"),
        &OptConfig {
            no_feedrate_strip: true,
            ..OptConfig::default()
        },
    );
    assert!(feed.changes.is_empty());
}

// ── Merging collinear moves ───────────────────────────────────────────────────

fn merged(source: &str) -> (String, Vec<u32>) {
    let result = merge_collinear(
        read(source),
        &OptConfig {
            merge_collinear: true,
            ..OptConfig::default()
        },
    );
    let lines = result.changes.iter().map(|c| c.line).collect();
    (written(&result.commands), lines)
}

#[test]
fn a_run_becomes_one_move_that_ends_where_it_ended() {
    let (out, lines) = merged("G1 X1 Y1 E1\nG1 X2 Y2 E2\nG1 X3 Y3 E3\nM84\n");
    assert_eq!(out, "G1 X3.0000 Y3.0000 E3.0000\nM84\n");
    assert_eq!(lines, vec![2, 3]);
}

#[test]
fn merging_keeps_the_filament() {
    let source = "G92 E0\nG1 X1 Y1 E1\nG1 X2 Y2 E2\nG1 X3 Y3 E3\nG1 X9 Y0 E3.5\n";
    let before = analyzed(source).stats.total_filament_mm;
    let (out, lines) = merged(source);
    assert_eq!(lines.len(), 2);
    assert_eq!(before, number("3.5"));
    assert_eq!(analyzed(&out).stats.total_filament_mm, before);
}

#[test]
fn other_commands_end_a_run_and_stay() {
    let source = "G1 X1 Y1\n; a\nG1 X2 Y2\nM84\nG1 X3 Y3\n";
    let (out, lines) = merged(source);
    assert_eq!(out, "G1 X1.0000 Y1.0000\n; a\nG1 X2.0000 Y2.0000\nM84\nG1 X3.0000 Y3.0000\n");
    assert!(lines.is_empty());
}

#[test]
fn nothing_is_merged_where_positions_are_relative_anywhere() {
    let (_, lines) = merged("G1 X1 Y1\nG1 X2 Y2\nG1 X3 Y3\nG91\n");
    assert!(lines.is_empty());
}

#[test]
fn a_run_names_z_throughout_or_nowhere() {
    let (_, lines) = merged("G1 X1 Y1 Z0\nG1 X2 Y2\nG1 X3 Y3\n");
    assert!(lines.is_empty());
    let (out, lines) = merged("G1 X1 Y1 Z1\nG1 X2 Y2 Z2\nG1 X3 Y3 Z3\n");
    assert_eq!(lines.len(), 2);
    assert_eq!(out, "G1 X3.0000 Y3.0000 Z3.0000\n");
}

#[test]
fn a_bare_g92_resets_all_axes_everywhere() {
    // To the analysis and the optimizer alike.
    let source = "G1 E5\nG92\nG1 E0\nG1 E5\n";
    let (out, changes) = optimized(source);
    assert_eq!(out, "G1 E5.0000\nG92\nG1 E5.0000\n");
    assert_eq!(changes.len(), 1);
    assert_eq!(analyzed(source).stats.total_filament_mm, number("10"));
    assert_eq!(analyzed(&out).stats.total_filament_mm, number("10"));
    let stats = analyzed("G1 X100 Y100\nG92\nG1 X3 Y4\n").stats;
    assert_eq!(stats.total_distance_mm.minus(number("141.421356")), number("5"));
    // A G92 that names an axis sets no other.
    let stats = analyzed("G1 X3 E5\nG92 X0\nG1 X3 E6\n").stats;
    assert_eq!(stats.total_filament_mm, number("6"));
    // To arc fitting.
    let (out, changes) = fitted(
        "G0 X5 Y0\nG92\nG1 X-5 Y5 E1 F3000\nG1 X-10 Y0 E2\nG1 X-5 Y-5 E3\n",
    );
    assert_eq!(changes, 1);
    assert!(
        out.ends_with("G92\nG3 X-5.0000 Y-5.0000 E3.0000 F3000.0000 I-5.0000 J0.0000\n"),
        "{out}"
    );
}

#[test]
fn a_run_begins_where_the_head_is() {
    let source = "G1 X10 Y0\nG1 X10 Y1\nG1 X10 Y2\n";
    let (out, lines) = merged(source);
    assert_eq!(out, written(&read(source)));
    assert!(lines.is_empty());
    // The corner is left out of the run behind it.
    let (out, lines) = merged("G1 X10 Y0\nG1 X10 Y1\nG1 X10 Y2\nG1 X10 Y3\n");
    assert_eq!(out, "G1 X10.0000 Y0.0000\nG1 X10.0000 Y3.0000\n");
    assert_eq!(lines, vec![3, 4]);
    let (out, lines) = merged("G0 X10 Y5\nG1 X10 Y6\nG1 X10 Y7\nG1 X10 Y8\n");
    assert_eq!(out, "G0 X10.0000 Y5.0000\nG1 X10.0000 Y8.0000\n");
    assert_eq!(lines, vec![3, 4]);
}

#[test]
fn a_run_extrudes_in_proportion_from_where_it_begins() {
    let (_, lines) = merged("G1 X1 Y1 E5\nG1 X2 Y2 E6\nG1 X3 Y3 E7\n");
    assert!(lines.is_empty());
    let (out, lines) = merged("G92 E4\nG1 X1 Y1 E5\nG1 X2 Y2 E6\nG1 X3 Y3 E7\n");
    assert_eq!(out, "G92 E4.0000\nG1 X3.0000 Y3.0000 E7.0000\n");
    assert_eq!(lines, vec![3, 4]);
}

#[test]
fn a_merged_move_names_every_axis_of_its_run() {
    let (out, lines) = merged("G1 X1 Y0\nG1 X2\nG1 X3\n");
    assert_eq!(out, "G1 X3.0000 Y0.0000\n");
    assert_eq!(lines, vec![2, 3]);
    let (out, lines) = merged("G1 X5 Y0\nG1 X10 Y0\nG1 Y0\n");
    assert_eq!(out, "G1 X10.0000 Y0.0000\n");
    assert_eq!(lines, vec![2, 3]);
    let (out, lines) = merged("G0 X5 Y7\nG1 X6 E1\nG1 X7 Y7 E2\nG1 X8 E3\n");
    assert_eq!(out, "G0 X5.0000 Y7.0000\nG1 X8.0000 Y7.0000 E3.0000\n");
    assert_eq!(lines, vec![3, 4]);
    // What is not named stays: this is a corner, not a line.
    let (_, lines) = merged("G1 X1 Y0\nG1 X2\nG1 Y3\n");
    assert!(lines.is_empty());
    let (out, lines) = merged("G0 X5 Y7\nG1 X6\nG1 X7\nG1 X8\n");
    assert_eq!(out, "G0 X5.0000 Y7.0000\nG1 X8.0000\n");
    assert_eq!(lines, vec![3, 4]);
}

#[test]
fn a_spot_is_no_line() {
    let source = "G1 X0 Y0\nG1 X0 Y0\nG1 X5 Y5\nG1 X10 Y0\n";
    let (out, lines) = merged(source);
    assert_eq!(out, written(&read(source)));
    assert!(lines.is_empty());
}

#[test]
fn merging_leads_where_the_moves_led() {
    let source = "G92 X1 Y2\nG1 X2 Y3\nG1 X3 Y4\nG1 X4 Y5\nG1 X9\nG1 X10\nG1 X11\nG1 Z5\n";
    let (out, lines) = merged(source);
    assert_eq!(lines.len(), 4);
    assert_eq!(end_of(&read(source)), end_of(&read(&out)));
}

// ── Fitting arcs ──────────────────────────────────────────────────────────────

fn fitted(source: &str) -> (String, usize) {
    let config: ArcFitConfig<Fixed> = ArcFitConfig {
        enabled: true,
        ..ArcFitConfig::default()
    };
    let result = fit_arcs(read(source), &config);
    (written(&result.commands), result.changes.len())
}

#[test]
fn the_first_move_of_an_arc_extrudes_like_the_others() {
    let source = "G0 X5 Y0\nG1 X0 Y5 E10 F3000\nG1 X-5 Y0 E11\nG1 X0 Y-5 E12\n";
    let config: ArcFitConfig<Fixed> = ArcFitConfig {
        enabled: true,
        tolerance_mm: number("0.02"),
    };
    let result = fit_arcs(read(source), &config);
    assert_eq!(result.commands, read(source));
    assert!(result.changes.is_empty());
    assert!(result.diagnostics.is_empty());
    let (out, changes) = fitted("G0 X5 Y0\nG1 X0 Y5 E1 F3000\nG1 X-5 Y0 E2\nG1 X0 Y-5 E3\n");
    assert_eq!(changes, 1);
    assert!(out.ends_with("G3 X0.0000 Y-5.0000 E3.0000 F3000.0000 I-5.0000 J0.0000\n"), "{out}");
}

#[test]
fn moves_that_do_not_extrude_make_no_arc() {
    let still = "G0 X5 Y0\nG1 X0 Y5 E0 F3000\nG1 X-5 Y0 E0\nG1 X0 Y-5 E0\n";
    assert_eq!(fitted(still), (written(&read(still)), 0));
    let back = "G0 X5 Y0\nG92 E9\nG1 X0 Y5 E8 F3000\nG1 X-5 Y0 E7\nG1 X0 Y-5 E6\n";
    assert_eq!(fitted(back), (written(&read(back)), 0));
}

#[test]
fn an_arc_has_the_feedrate_in_force() {
    let (out, changes) = fitted("G0 X5 Y0 F9000\nG1 X0 Y5 E1\nG1 X-5 Y0 E2\nG1 X0 Y-5 E3\n");
    assert_eq!(changes, 1);
    assert_eq!(
        out,
        "G0 X5.0000 Y0.0000 F9000.0000\nG3 X0.0000 Y-5.0000 E3.0000 F9000.0000 I-5.0000 J0.0000\n"
    );
    // So it is where an arc has set it.
    let (out, changes) = fitted(
        "G0 X0 Y-5\nG2 X5 Y0 I0 J5 F600\nG1 X0 Y5 E1\nG1 X-5 Y0 E2\nG1 X0 Y-5 E3\n",
    );
    assert_eq!(changes, 1);
    assert!(out.ends_with("E3.0000 F600.0000 I-5.0000 J0.0000\n"), "{out}");
}

#[test]
fn fitting_again_changes_nothing() {
    let source = "G0 X10 Y0\nG1 X9.238795 Y3.826834 E1 F1200\nG1 X7.071068 Y7.071068 E2 F1200\nG1 X3.826834 Y9.238795 E3 F1200\nG1 X0 Y10 E4 F1200\nG1 X-9 Y10 E5 F1200\nG1 X-9 Y20 E6 F1200\nG1 X-20 Y20 E7 F1200\nM84\nG1 X0 Y0 E8 F1200\n";
    let config: ArcFitConfig<Fixed> = ArcFitConfig {
        enabled: true,
        ..ArcFitConfig::default()
    };
    let once = fit_arcs(read(source), &config);
    assert_eq!(once.changes.len(), 1);
    let first = written(&once.commands);
    let twice = fit_arcs(once.commands, &config);
    assert!(twice.changes.is_empty());
    assert_eq!(written(&twice.commands), first);
}

#[test]
fn an_arc_leads_where_its_moves_led_and_uses_their_filament() {
    let source = "G0 X10 Y0\nG1 X9.238795 Y3.826834 E1 F1200\nG1 X7.071068 Y7.071068 E2\nG1 X3.826834 Y9.238795 E3\nG1 X0 Y10 E4\nM84\n";
    let config: ArcFitConfig<Fixed> = ArcFitConfig {
        enabled: true,
        ..ArcFitConfig::default()
    };
    let result = fit_arcs(read(source), &config);
    assert_eq!(result.changes.len(), 1);
    assert!(result.changes[0].description.starts_with("merged lines 2–5 into G3 arc (r=10.00"));
    assert_eq!(result.commands.len(), 3);
    match &result.commands[1].inner {
        GCodeCommand::ArcMoveCCW { x, y, z, e, f, i, j } => {
            assert_eq!(*x, Some(number("0")));
            assert_eq!(*y, Some(number("10")));
            assert_eq!(*z, None);
            assert_eq!(*e, Some(number("4")));
            assert_eq!(*f, Some(number("1200")));
            let near = number("0.001");
            assert!(i.unwrap().plus(number("10")).abs().less(near));
            assert!(j.unwrap().abs().less(near));
        }
        other => panic!("{other:?}"),
    }
    let before = analyzed(source).stats.total_filament_mm;
    let after = analyze(&result.commands, None).stats.total_filament_mm;
    assert_eq!(before, number("4"));
    assert_eq!(after, before);
    assert_eq!(result.diagnostics.len(), 1);
    assert_eq!(
        result.diagnostics[0].to_text(),
        "[warning] line 0: W004 — firmware dialect 'unknown' may not support G2/G3 arc moves — verify before printing"
    );
}

#[test]
fn nothing_is_fitted_where_positions_are_relative_anywhere() {
    let source = "G0 X10 Y0\nG1 X9.238795 Y3.826834 E1 F1200\nG1 X7.071068 Y7.071068 E2\nG1 X3.826834 Y9.238795 E3\nG1 X0 Y10 E4\nG91\n";
    let config: ArcFitConfig<Fixed> = ArcFitConfig {
        enabled: true,
        ..ArcFitConfig::default()
    };
    let result = fit_arcs(read(source), &config);
    assert!(result.changes.is_empty());
    assert!(result.diagnostics.is_empty());
    assert_eq!(result.commands, read(source));
}

// ── Progress markers ──────────────────────────────────────────────────────────

fn marked(source: &str, trust: bool) -> (String, Vec<String>) {
    let program = read(source);
    let stats = analyze(&program, None).stats;
    let result = insert_progress_markers(
        program,
        stats.estimated_time_seconds,
        stats.layer_count,
        &stats.per_layer_times,
        &OptConfig {
            insert_progress: true,
            trust_existing_m73: trust,
            ..OptConfig::default()
        },
    );
    let notes = result
        .diagnostics
        .iter()
        .map(|d| format!("{} {} {}", d.line, d.code, d.message))
        .collect();
    (written(&result.commands), notes)
}

#[test]
fn each_layer_gets_a_marker_and_a_note() {
    // Three layers of 60, 60 and 120 seconds.
    let (out, notes) = marked(
        ";LAYER_CHANGE\nG1 X600 F600\nM73 P1 R1\n;LAYER_CHANGE\nG1 X0\n;LAYER_CHANGE\nG1 X1200\n",
        false,
    );
    assert_eq!(
        out,
        ";LAYER_CHANGE\nM73 P25 R3\nG1 X600.0000 F600.0000\n;LAYER_CHANGE\nM73 P50 R2\nG1 X0.0000\n;LAYER_CHANGE\nM73 P100 R0\nG1 X1200.0000\n"
    );
    assert_eq!(
        notes,
        vec![
            "1 I002 inserted M73 P25 R3 at layer 1/3",
            "4 I002 inserted M73 P50 R2 at layer 2/3",
            "6 I002 inserted M73 P100 R0 at layer 3/3",
        ]
    );
}

#[test]
fn existing_markers_can_be_trusted() {
    let source = "M73 P7 R7\n;LAYER_CHANGE\nG1 X600 F600\n;LAYER_CHANGE\nG1 X0\n";
    let (out, notes) = marked(source, true);
    assert_eq!(notes.len(), 1);
    assert_eq!(
        out,
        "M73 P7 R7\n;LAYER_CHANGE\nG1 X600.0000 F600.0000\n;LAYER_CHANGE\nM73 P100 R0\nG1 X0.0000\n"
    );
}

#[test]
fn a_trusted_marker_may_stand_behind_the_boundary() {
    let source = ";LAYER_CHANGE\nM73 P7 R7\nG1 X600 F600\n;LAYER_CHANGE\nG1 X0\n";
    let (out, notes) = marked(source, true);
    assert_eq!(notes.len(), 1);
    assert_eq!(
        out,
        ";LAYER_CHANGE\nM73 P7 R7\nG1 X600.0000 F600.0000\n;LAYER_CHANGE\nM73 P100 R0\nG1 X0.0000\n"
    );
}

#[test]
fn trusted_markers_suffice() {
    for source in [
        ";LAYER_CHANGE\nG1 X600 F600\n;LAYER_CHANGE\nG1 X0\n",
        "G1 Z1 F600\nG1 X9\nG1 Z2\nG1 Z1\nG1 Z3\n",
    ] {
        for trust in [false, true] {
            let (once, notes) = marked(source, trust);
            assert!(!notes.is_empty());
            assert_eq!(marked(&once, true), (once.clone(), vec![]));
        }
    }
}

#[test]
fn a_climb_is_seen_from_the_last_height() {
    let result = insert_progress_markers(
        read("G1 Z0.6\nG1 Z0.2\nG1 Z0.4\n"),
        number("60"),
        3,
        &[],
        &OptConfig {
            insert_progress: true,
            ..OptConfig::default()
        },
    );
    assert_eq!(
        written(&result.commands),
        "G1 Z0.6000\nM73 P33 R1\nG1 Z0.2000\nG1 Z0.4000\nM73 P67 R0\n"
    );
    let lines: Vec<u32> = result.diagnostics.iter().map(|d| d.line).collect();
    assert_eq!(lines, vec![1, 3]);
}

#[test]
fn announced_layers_come_before_climbs() {
    let (_, notes) = marked(";LAYER_CHANGE\nG1 Z1 F600\nG1 Z2\n", false);
    assert_eq!(notes.len(), 1);
    let (_, notes) = marked("G1 Z1 F600\nG1 Z2\n", false);
    assert_eq!(notes.len(), 2);
}

// ── Analysis ──────────────────────────────────────────────────────────────────

#[test]
fn layers_are_the_announcements_where_there_are_any() {
    let result = analyzed("G1 Z0.2 F600\n;LAYER_CHANGE\nG1 Z0.4\n;LAYER_CHANGE\nG1 Z0.6\n");
    assert_eq!(result.stats.layer_count, 2);
    assert!(result.diagnostics.is_empty());
    let result = analyzed("G1 Z0.2 F600\nG1 Z0.4\n");
    assert_eq!(result.stats.layer_count, 2);
    let notes: Vec<&str> = result.diagnostics.iter().map(|d| d.message.as_str()).collect();
    assert_eq!(
        notes,
        vec![
            "layer change detected: Z 0.000 → 0.200",
            "layer change detected: Z 0.200 → 0.400",
        ]
    );
}

#[test]
fn each_layer_has_its_time() {
    let result = analyzed("G1 X10 F600\nG1 Z1\nG1 X40\nG1 Z2\n");
    assert_eq!(result.stats.layer_count, 2);
    assert_eq!(
        result.stats.per_layer_times,
        vec![number("3.1"), number("0.1")]
    );
    assert_eq!(result.stats.estimated_time_seconds, number("4.2"));
    assert_eq!(result.stats.total_distance_mm, number("42"));
}

#[test]
fn moves_are_counted() {
    let result = analyzed("G0 X1\nG1 X2\nG28\nG1\nM84\nG2 X3 I0.5\n");
    assert_eq!(result.stats.move_count, 3);
}

#[test]
fn without_limits_there_are_no_errors() {
    let source = "G1 X1000000 Y1000000 Z1000000\n";
    let free = analyzed(source);
    assert!(free.diagnostics.iter().all(|d| d.severity != Severity::Error));
    let bound = analyze(&read(source), Some(&MachineLimits::default()));
    let codes: Vec<&str> = bound.diagnostics.iter().map(|d| d.code).collect();
    assert_eq!(codes, vec!["E001", "E002", "E003", "I001"]);
    assert_eq!(
        bound.diagnostics[0].message,
        "X 1000000.000 exceeds machine limit of 300.000 mm"
    );
}

#[test]
fn limits_only_add_errors_about_limits() {
    let source = "G1 X-1 Y5 E5 F600\nG1 X300 Y500 Z1 E2\nG2 X0 Y0 I-5 E9\nG1 Z900\n";
    let limits = MachineLimits {
        max_x: number("250"),
        max_y: number("210"),
        max_z: number("200"),
    };
    let with = analyze(&read(source), Some(&limits));
    let without = analyzed(source);
    assert_eq!(with.stats, without.stats);
    let rest: Vec<&Diagnostic> = with
        .diagnostics
        .iter()
        .filter(|d| !matches!(d.code, "E001" | "E002" | "E003"))
        .collect();
    assert_eq!(rest, without.diagnostics.iter().collect::<Vec<&Diagnostic>>());
    assert_eq!(with.diagnostics.len(), without.diagnostics.len() + 3);
}

#[test]
fn findings_keep_the_order_of_the_commands() {
    let result = analyzed("G1 X-1\nG1 E-1\nG1 E-4\nG1 Z1 Y-2\n");
    let all: Vec<(u32, &str, Severity)> = result
        .diagnostics
        .iter()
        .map(|d| (d.line, d.code, d.severity))
        .collect();
    assert_eq!(
        all,
        vec![
            (1, "W001", Severity::Warning),
            (2, "W001", Severity::Warning),
            (2, "W002", Severity::Info),
            (3, "W001", Severity::Warning),
            (3, "W002", Severity::Warning),
            (4, "W001", Severity::Warning),
            (4, "I001", Severity::Info),
        ]
    );
    assert_eq!(
        result.diagnostics[0].message,
        "move to negative coordinate (-1, 0, 0)"
    );
    assert_eq!(
        result.diagnostics[4].message,
        "extruder retraction: E delta -3.000 mm"
    );
}

#[test]
fn an_arc_without_a_centre_is_straight() {
    let result = analyzed("G2 X3 Y4 F600\n");
    assert_eq!(result.stats.total_distance_mm, number("5"));
    assert_eq!(result.stats.move_count, 0);
    assert_eq!(result.stats.bbox_max.x, number("3"));
}

// ── Dialects ──────────────────────────────────────────────────────────────────

#[test]
fn nothing_known_means_no_confidence() {
    let result = detect_dialect(&read("G28\n; nothing\nG1 X1\n"), None);
    assert_eq!(result.metadata.dialect, SlicerDialect::Unknown);
    assert_eq!(result.metadata.confidence, Confidence::Absent);
    assert!(result.diagnostics.is_empty());
}

#[test]
fn a_given_dialect_wins_over_the_signs() {
    let program = read("; generated by OrcaSlicer 2.1.0\n");
    let result = detect_dialect(&program, Some(SlicerDialect::Cura));
    assert_eq!(result.metadata.dialect, SlicerDialect::Cura);
    assert_eq!(result.metadata.confidence, Confidence::High);
    assert_eq!(result.diagnostics.len(), 1);
    assert_eq!(
        result.diagnostics[0].message,
        "slicer dialect detected: Cura (confidence: High)"
    );
}

#[test]
fn signs_are_found_in_any_case() {
    let program = read("; GENERATED BY PRUSASLICER 2.7\n");
    let result = detect_dialect(&program, None);
    assert_eq!(result.metadata.dialect, SlicerDialect::PrusaSlicer);
    assert_eq!(result.metadata.slicer_version, None);
}
