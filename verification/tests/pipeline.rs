use gcode_sentinel::arc_fitter::{default_arc_tolerance_mm, ArcFitConfig};
use gcode_sentinel::cli::{Cli, CliDialect, ReportFormat};
use gcode_sentinel::diagnostics::{Diagnostic, Severity};
use gcode_sentinel::dialect::{Confidence, SlicerDialect};
use gcode_sentinel::emitter::{emit, EmitConfig};
use gcode_sentinel::fixed::Fixed;
use gcode_sentinel::machine_profile::{profile_from_entries, ProfileError, TomlValue};
use gcode_sentinel::models::{MachineLimits, ParseError};
use gcode_sentinel::pipeline::{
    conclude, run, warn_about_short_layers, Conclusion, PipelineError, Processed,
};
use gcode_sentinel::scalar::Scalar;

fn number(text: &str) -> Fixed {
    Fixed::parse(text).unwrap()
}

/// The options of a run with nothing but an input.
fn options() -> Cli<Fixed> {
    Cli {
        input: "input.gcode".to_string(),
        output: None,
        config: None,
        max_x: None,
        max_y: None,
        max_z: None,
        check_only: false,
        verbose: false,
        report_file: None,
        report_format: ReportFormat::Text,
        merge_collinear: false,
        insert_progress: false,
        min_layer_time: None,
        no_travel_merge: false,
        no_feedrate_strip: false,
        trust_existing_m73: false,
        arc_fit: false,
        arc_tolerance: None,
        machine: None,
        dialect: None,
    }
}

fn written(done: &Processed<'_, Fixed>) -> String {
    let mut out = String::new();
    emit(&done.commands, &mut out, &EmitConfig::default());
    out
}

fn codes(done: &Processed<'_, Fixed>) -> Vec<&'static str> {
    done.report.diagnostics.iter().map(|d| d.code).collect()
}

// ── Runs ──────────────────────────────────────────────────────────────────────

#[test]
fn a_run_optimizes_and_reports() {
    let done = run(
        "; generated by OrcaSlicer 2.1.0\nG90\nG90\nG1 X10 F600\nG1 X10\nM84\n",
        &options(),
        None,
    )
    .unwrap();
    assert_eq!(
        written(&done),
        "; generated by OrcaSlicer 2.1.0\nG90\nG1 X10.0000 F600.0000\nM84\n"
    );
    let lines: Vec<u32> = done.report.changes.iter().map(|c| c.line).collect();
    assert_eq!(lines, vec![3, 5]);
    assert!(!done.report.dry_run);
    let slicer = done.report.slicer.as_ref().unwrap();
    assert_eq!(slicer.dialect, SlicerDialect::OrcaSlicer);
    assert_eq!(slicer.confidence, Confidence::High);
    assert_eq!(slicer.slicer_version.as_deref(), Some("2.1.0"));
    assert_eq!(
        codes(&done),
        vec!["I004", "W005", "W005", "W005", "W005", "W005", "W005"]
    );
    assert_eq!(done.report.stats.move_count, 1);
    assert_eq!(done.report.stats.total_distance_mm, number("10"));
}

#[test]
fn a_run_with_all_stages_leads_where_the_program_led() {
    let source = "G0 X5 Y0 F3000\nG1 X0 Y5 E1\nG1 X-5 Y0 E2\nG1 X0 Y-5 E3\nG1 X0 Y-5 E3\nG1 X1 Y-3 E4\nG1 X2 Y-1 E5\nG1 X3 Y1 E6\nG0 Z1\nG0 Z2\n";
    let all = Cli {
        merge_collinear: true,
        arc_fit: true,
        insert_progress: true,
        ..options()
    };
    let done = run(source, &all, None).unwrap();
    assert_eq!(
        written(&done),
        "G0 X5.0000 Y0.0000 F3000.0000\nG3 X0.0000 Y-5.0000 E3.0000 F3000.0000 I-5.0000 J0.0000\nG1 X3.0000 Y1.0000 E6.0000\nG0 Z2.0000\nM73 P100 R0\n"
    );
    assert_eq!(done.report.stats.total_filament_mm, number("6"));
}

#[test]
fn a_run_reports_what_is_beyond_the_limits() {
    let limits = MachineLimits {
        max_x: number("220"),
        max_y: number("220"),
        max_z: number("250"),
    };
    let done = run("G1 X250 Y10\n", &options(), Some(&limits)).unwrap();
    assert_eq!(codes(&done), vec!["E001"]);
    assert_eq!(
        done.report.diagnostics[0].to_text(),
        "[error] line 1: E001 — X 250.000 exceeds machine limit of 220.000 mm"
    );
}

#[test]
fn a_run_fails_at_a_line_that_cannot_be_read() {
    match run("G90\nG1 X1.2.3\n", &options(), None) {
        Err(PipelineError::Parse(ParseError::InvalidNumber { line, value })) => {
            assert_eq!(line, 2);
            assert_eq!(value, "1.2.3");
        }
        other => panic!("{other:?}"),
    }
}

#[test]
fn a_run_fails_on_a_useless_tolerance() {
    let cli = Cli {
        arc_tolerance: Some(number("-0.5")),
        ..options()
    };
    match run("G90\n", &cli, None) {
        Err(PipelineError::Tolerance(message)) => assert_eq!(
            message,
            "arc tolerance must be a finite number greater than 0 mm, got -0.5"
        ),
        other => panic!("{other:?}"),
    }
}

#[test]
fn a_run_fails_where_a_stage_introduces_errors() {
    // The merged move stands at line 1, where no error was.
    let cli = Cli {
        merge_collinear: true,
        ..options()
    };
    let limits = MachineLimits::default();
    match run(
        "G1 X100 Y100\nG1 X200 Y200\nG1 X350 Y350\n",
        &cli,
        Some(&limits),
    ) {
        Err(PipelineError::Regression(errors)) => {
            let places: Vec<(u32, &str)> = errors.iter().map(|d| (d.line, d.code)).collect();
            assert_eq!(places, vec![(1, "E001"), (1, "E002")]);
        }
        other => panic!("{other:?}"),
    }
}

#[test]
fn a_dry_run_leaves_the_program_as_it_is() {
    let cli = Cli {
        check_only: true,
        merge_collinear: true,
        ..options()
    };
    let source = "G90\nG90\nG1 X1.0000 Y1.0000\nG1 X2.0000 Y2.0000\nG1 X3.0000 Y3.0000\n";
    let done = run(source, &cli, None).unwrap();
    assert_eq!(written(&done), source);
    assert!(done.report.dry_run);
    let lines: Vec<u32> = done.report.changes.iter().map(|c| c.line).collect();
    assert_eq!(lines, vec![4, 5, 2]);
}

#[test]
fn a_run_keeps_other_commands_and_layers() {
    let cli = Cli {
        insert_progress: true,
        ..options()
    };
    let done = run(
        "FOO BAR\n;LAYER_CHANGE\nG1 X600 F600\nG28 X\n;LAYER_CHANGE\nG1 X0\n",
        &cli,
        None,
    )
    .unwrap();
    assert_eq!(
        written(&done),
        "FOO BAR\n;LAYER_CHANGE\nM73 P50 R1\nG1 X600.0000 F600.0000\nG28 X\n;LAYER_CHANGE\nM73 P100 R0\nG1 X0.0000\n"
    );
    assert_eq!(done.report.stats.layer_count, 2);
    assert_eq!(codes(&done), vec!["I002", "I002"]);
}

#[test]
fn a_given_dialect_is_reported() {
    let cli = Cli {
        dialect: Some(CliDialect::PrusaSlicer),
        ..options()
    };
    let done = run("G28\n", &cli, None).unwrap();
    assert_eq!(done.report.slicer.as_ref().unwrap().dialect, SlicerDialect::PrusaSlicer);
    assert_eq!(codes(&done), vec!["I004"]);
    let mut summary = String::new();
    done.report.write_summary(&mut summary);
    assert!(summary.contains("\nSlicer    : PrusaSlicer (High)\n"));
}

// ── Short layers ──────────────────────────────────────────────────────────────

#[test]
fn short_layers_are_warned_about() {
    let cli = Cli {
        min_layer_time: Some(number("5")),
        ..options()
    };
    // Layers of 3.1 and 6.1 seconds.
    let done = run("G1 Z1 F600\nG1 X30\nG1 Z2\nG1 X90\n", &cli, None).unwrap();
    let short: Vec<String> = done
        .report
        .diagnostics
        .iter()
        .filter(|d| d.code == "W003")
        .map(|d| d.to_text())
        .collect();
    assert_eq!(
        short,
        vec!["[warning] line 0: W003 — layer 1 print time 3.1s is below minimum 5s"]
    );
}

#[test]
fn only_times_below_the_threshold_are_short() {
    let times = vec![number("4.99"), number("5"), number("0")];
    let mut found = vec![Diagnostic {
        severity: Severity::Info,
        line: 1,
        code: "I001",
        message: "earlier".to_string(),
    }];
    warn_about_short_layers(&times, number("5"), &mut found);
    let messages: Vec<&str> = found.iter().map(|d| d.message.as_str()).collect();
    assert_eq!(
        messages,
        vec![
            "earlier",
            "layer 1 print time 5.0s is below minimum 5s",
            "layer 3 print time 0.0s is below minimum 5s",
        ]
    );
}

// ── What follows a run ────────────────────────────────────────────────────────

#[test]
fn what_follows_depends_on_the_options_and_the_errors() {
    let limits = MachineLimits::default();
    let bad = run("G1 X1000\n", &options(), Some(&limits)).unwrap().report;
    let good = run("G1 X1\n", &options(), Some(&limits)).unwrap().report;
    let check = Cli {
        check_only: true,
        ..options()
    };
    let json = Cli {
        report_format: ReportFormat::Json,
        ..options()
    };
    let filed = Cli {
        report_file: Some("report.json".to_string()),
        report_format: ReportFormat::Json,
        ..options()
    };
    assert_eq!(conclude(&options(), &bad), Conclusion::WriteGCode);
    assert_eq!(conclude(&check, &bad), Conclusion::Fail(1));
    assert_eq!(conclude(&check, &good), Conclusion::Done);
    assert_eq!(conclude(&json, &good), Conclusion::PrintJson);
    assert_eq!(conclude(&json, &bad), Conclusion::PrintJsonAndFail(1));
    let both = Cli {
        check_only: true,
        report_format: ReportFormat::Json,
        ..options()
    };
    assert_eq!(conclude(&both, &good), Conclusion::PrintJson);
    assert_eq!(conclude(&both, &bad), Conclusion::PrintJsonAndFail(1));
    assert_eq!(conclude(&filed, &good), Conclusion::WriteGCode);
}

// ── Options ───────────────────────────────────────────────────────────────────

#[test]
fn json_on_standard_output_excludes_an_output_file() {
    let both = Cli {
        report_format: ReportFormat::Json,
        output: Some("out.gcode".to_string()),
        ..options()
    };
    let message = both.validate_flags().unwrap_err();
    assert!(message.starts_with("--report-format json without --report-file"));
    let filed = Cli {
        report_file: Some("report.json".to_string()),
        ..both
    };
    assert!(filed.validate_flags().is_ok());
    assert!(!filed.is_dry_run());
    assert!(options().validate_flags().is_ok());
}

#[test]
fn json_on_standard_output_is_a_dry_run() {
    let json = Cli {
        report_format: ReportFormat::Json,
        ..options()
    };
    assert!(json.is_dry_run());
    assert!(json.opt_config().dry_run);
    assert!(!options().is_dry_run());
}

#[test]
fn the_tolerance_defaults_to_two_hundredths() {
    assert_eq!(default_arc_tolerance_mm::<Fixed>(), number("0.02"));
    let config = options().arc_config();
    assert_eq!(config.tolerance_mm, number("0.02"));
    assert!(!config.enabled);
    assert!(config.validate().is_ok());
    let zero: ArcFitConfig<Fixed> = ArcFitConfig {
        enabled: true,
        tolerance_mm: number("0"),
    };
    assert_eq!(
        zero.validate().unwrap_err(),
        "arc tolerance must be a finite number greater than 0 mm, got 0"
    );
    let endless: ArcFitConfig<Fixed> = ArcFitConfig {
        enabled: true,
        tolerance_mm: Fixed::infinity(),
    };
    assert!(endless.validate().is_err());
}

#[test]
fn a_named_profile_is_loaded() {
    let none = options().resolve_machine_profile().unwrap();
    assert!(none.is_none());
    let cli = Cli {
        machine: Some("prusa_mk4".to_string()),
        ..options()
    };
    let profile = cli.resolve_machine_profile().unwrap().unwrap();
    assert_eq!(profile.max_y_mm, number("210"));
    let cli = Cli {
        machine: Some("help".to_string()),
        ..options()
    };
    match cli.resolve_machine_profile() {
        Err(error) => assert_eq!(
            error.to_text(),
            "unknown machine profile 'help'; available profiles: ender3, prusa_mk4, voron_v2, bambu_x1c, generic_300"
        ),
        Ok(_) => panic!("there is no such profile"),
    }
}

#[test]
fn entries_make_up_a_profile_or_name_the_wrong_field() {
    let text = |t: &str| TomlValue::Text(t.to_string());
    let digits = |t: &str| TomlValue::Number(t.to_string());
    let mut entries = vec![
        ("firmware".to_string(), text("klipper")),
        ("max_x_mm".to_string(), digits("350")),
        ("max_y_mm".to_string(), digits("350.5")),
        ("name".to_string(), text("mine")),
        ("other".to_string(), TomlValue::Other),
    ];
    assert_eq!(profile_from_entries::<Fixed>(&entries).unwrap_err(), "max_z_mm");
    entries.push(("max_z_mm".to_string(), digits("300")));
    let profile = profile_from_entries::<Fixed>(&entries).unwrap();
    assert_eq!(profile.name, "mine");
    assert_eq!(profile.max_y_mm, number("350.5"));
    assert_eq!(profile.firmware.as_deref(), Some("klipper"));
    assert_eq!(profile.nozzle_diameter_mm, None);
    entries[1].1 = TomlValue::Other;
    assert_eq!(profile_from_entries::<Fixed>(&entries).unwrap_err(), "max_x_mm");
    entries[3].1 = digits("7");
    assert_eq!(profile_from_entries::<Fixed>(&entries).unwrap_err(), "name");
}

#[test]
fn profile_errors_read_as_messages() {
    let error = ProfileError::InvalidField {
        name: "ender3",
        field: "max_x_mm",
    };
    assert_eq!(
        error.to_text(),
        "failed to parse built-in profile 'ender3': invalid field 'max_x_mm'"
    );
    let source = toml::from_str::<toml::Table>("= 1").unwrap_err();
    let said = source.to_string();
    let error = ProfileError::ParseError {
        name: "ender3",
        source,
    };
    assert_eq!(
        error.to_text(),
        format!("failed to parse built-in profile 'ender3': {said}")
    );
}
