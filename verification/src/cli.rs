//! The options of a run, and the decisions that follow from them alone.

use vstd::prelude::*;

use crate::arc_fitter::{default_arc_tolerance_mm, default_tolerance_spec, ArcFitConfig};
use crate::dialect::SlicerDialect;
use crate::machine_profile::{
    load_profile, profile_names, profile_of, profile_source, toml_document, MachineProfile,
    ProfileError,
};
use crate::models::MachineLimits;
use crate::optimizer::OptConfig;
use crate::scalar::{or_default, value_or, Scalar};

verus! {

/// The slicer dialects that a user can name.
#[derive(Debug, Clone, Copy, PartialEq, Eq, Structural)]
pub enum CliDialect {
    /// `OrcaSlicer`.
    OrcaSlicer,
    /// `PrusaSlicer`.
    PrusaSlicer,
    /// Ultimaker Cura.
    Cura,
}

impl CliDialect {
    /// The dialect that the option names.
    pub open spec fn dialect_spec(self) -> SlicerDialect {
        match self {
            CliDialect::OrcaSlicer => SlicerDialect::OrcaSlicer,
            CliDialect::PrusaSlicer => SlicerDialect::PrusaSlicer,
            CliDialect::Cura => SlicerDialect::Cura,
        }
    }

    /// The dialect that the option names.
    pub fn to_slicer_dialect(self) -> (result: SlicerDialect)
        ensures
            result == self.dialect_spec(),
    {
        match self {
            CliDialect::OrcaSlicer => SlicerDialect::OrcaSlicer,
            CliDialect::PrusaSlicer => SlicerDialect::PrusaSlicer,
            CliDialect::Cura => SlicerDialect::Cura,
        }
    }
}

/// The format of the report.
#[derive(Debug, Clone, Copy, PartialEq, Eq, Structural)]
pub enum ReportFormat {
    /// Text for people.
    Text,
    /// JSON for machines.
    Json,
}

impl Default for ReportFormat {
    fn default() -> (result: Self)
        ensures
            result == ReportFormat::Text,
    {
        ReportFormat::Text
    }
}

/// The options of a run.
#[derive(Debug)]
pub struct Cli<N> {
    /// Path of the G-code file to process.
    pub input: String,
    /// Path of the output file; standard output where it is absent.
    pub output: Option<String>,
    /// Path of a configuration file.
    pub config: Option<String>,
    /// Travel limit of the X axis in millimetres.
    pub max_x: Option<N>,
    /// Travel limit of the Y axis in millimetres.
    pub max_y: Option<N>,
    /// Travel limit of the Z axis in millimetres.
    pub max_z: Option<N>,
    /// Validate only; write no G-code.
    pub check_only: bool,
    /// Log in detail.
    pub verbose: bool,
    /// Path of the report file.
    pub report_file: Option<String>,
    /// Format of the report.
    pub report_format: ReportFormat,
    /// Merge collinear linear moves.
    pub merge_collinear: bool,
    /// Insert progress markers.
    pub insert_progress: bool,
    /// Warn about layers that take less than this many seconds.
    pub min_layer_time: Option<N>,
    /// Keep superseded travel moves.
    pub no_travel_merge: bool,
    /// Keep feedrates that are already in force.
    pub no_feedrate_strip: bool,
    /// Keep existing progress markers.
    pub trust_existing_m73: bool,
    /// Fit arcs.
    pub arc_fit: bool,
    /// Largest radial deviation for arc fitting in millimetres.
    pub arc_tolerance: Option<N>,
    /// Name of a built-in machine profile.
    pub machine: Option<String>,
    /// The slicer dialect, in place of the detected one.
    pub dialect: Option<CliDialect>,
}

/// The profile's limits, where there is a profile.
pub open spec fn profile_limits<N>(profile: Option<&MachineProfile<N>>) -> Option<
    MachineLimits<N>,
> {
    match profile {
        Some(p) => Some(
            MachineLimits { max_x: p.max_x_mm, max_y: p.max_y_mm, max_z: p.max_z_mm },
        ),
        None => None,
    }
}

impl<N: Scalar> Cli<N> {
    /// Whether any limit is given explicitly.
    pub open spec fn has_explicit_limit(self) -> bool {
        self.max_x is Some || self.max_y is Some || self.max_z is Some
    }

    /// The limits under a base: explicit limits come before those of the base.
    pub open spec fn limits_over(self, base: MachineLimits<N>) -> MachineLimits<N> {
        MachineLimits {
            max_x: value_or(self.max_x, base.max_x),
            max_y: value_or(self.max_y, base.max_y),
            max_z: value_or(self.max_z, base.max_z),
        }
    }

    /// The limits of the machine: explicit ones, then those of the profile, then
    /// the common ones.  There are none where neither a profile nor an explicit
    /// limit is given.
    pub fn machine_limits(&self, profile: Option<&MachineProfile<N>>) -> (result: Option<
        MachineLimits<N>,
    >)
        ensures
            match profile_limits(profile) {
                Some(base) => result == Some(self.limits_over(base)),
                None => result == if self.has_explicit_limit() {
                    Some(self.limits_over(MachineLimits::common()))
                } else {
                    None
                },
            },
    {
        let base = match profile {
            Some(p) => p.to_machine_limits(),
            None => {
                if self.max_x.is_none() && self.max_y.is_none() && self.max_z.is_none() {
                    return None;
                }
                MachineLimits::default()
            },
        };
        Some(
            MachineLimits {
                max_x: or_default(self.max_x, base.max_x),
                max_y: or_default(self.max_y, base.max_y),
                max_z: or_default(self.max_z, base.max_z),
            },
        )
    }

    /// Whether the report goes to standard output as JSON, in place of G-code.
    pub open spec fn prints_json_spec(self) -> bool {
        self.report_format == ReportFormat::Json && self.report_file is None
    }

    /// Whether the report goes to standard output as JSON, in place of G-code.
    pub fn prints_json(&self) -> (result: bool)
        ensures
            result == self.prints_json_spec(),
    {
        self.report_format == ReportFormat::Json && self.report_file.is_none()
    }

    /// Whether this is a check only: no G-code is written, and errors make it fail.
    pub open spec fn is_dry_run_spec(self) -> bool {
        self.check_only || self.prints_json_spec()
    }

    /// Whether this is a check only: no G-code is written, and errors make it fail.
    pub fn is_dry_run(&self) -> (result: bool)
        ensures
            result == self.is_dry_run_spec(),
    {
        self.check_only || self.prints_json()
    }

    /// Refuses JSON on standard output together with an output file.
    pub fn validate_flags(&self) -> (result: Result<(), &'static str>)
        ensures
            result is Err <==> self.prints_json_spec() && self.output is Some,
            result matches Err(message) ==> message@
                == "--report-format json without --report-file cannot be combined with --output (JSON would go to stdout, conflicting with the G-Code output destination)"@,
    {
        if self.prints_json() && self.output.is_some() {
            Err(
                "--report-format json without --report-file cannot be combined with --output (JSON would go to stdout, conflicting with the G-Code output destination)",
            )
        } else {
            Ok(())
        }
    }

    /// What the optimizer is to do.
    pub open spec fn opt_config_spec(self) -> OptConfig {
        OptConfig {
            dry_run: self.is_dry_run_spec(),
            merge_collinear: self.merge_collinear,
            insert_progress: self.insert_progress,
            no_travel_merge: self.no_travel_merge,
            no_feedrate_strip: self.no_feedrate_strip,
            trust_existing_m73: self.trust_existing_m73,
        }
    }

    /// What the optimizer is to do.
    pub fn opt_config(&self) -> (result: OptConfig)
        ensures
            result == self.opt_config_spec(),
    {
        OptConfig {
            dry_run: self.is_dry_run(),
            merge_collinear: self.merge_collinear,
            insert_progress: self.insert_progress,
            no_travel_merge: self.no_travel_merge,
            no_feedrate_strip: self.no_feedrate_strip,
            trust_existing_m73: self.trust_existing_m73,
        }
    }

    /// What arc fitting is to do.
    pub open spec fn arc_config_spec(self) -> ArcFitConfig<N> {
        ArcFitConfig {
            enabled: self.arc_fit,
            tolerance_mm: value_or(self.arc_tolerance, default_tolerance_spec()),
        }
    }

    /// What arc fitting is to do.
    pub fn arc_config(&self) -> (result: ArcFitConfig<N>)
        ensures
            result == self.arc_config_spec(),
    {
        ArcFitConfig {
            enabled: self.arc_fit,
            tolerance_mm: or_default(self.arc_tolerance, default_arc_tolerance_mm()),
        }
    }

    /// Loads the machine profile that is named, if one is.
    pub fn resolve_machine_profile(&self) -> (result: Result<
        Option<MachineProfile<N>>,
        ProfileError,
    >)
        ensures
            match self.machine {
                None => result matches Ok(None),
                Some(name) => match profile_source(name@) {
                    Some(source) => match toml_document(source) {
                        Some(entries) => match profile_of::<N>(entries) {
                            Ok(model) => result matches Ok(Some(profile)) && profile@ == model,
                            Err(wrong) => result matches Err(
                                ProfileError::InvalidField { name: key, field },
                            ) && key@ == name@ && field@ == wrong,
                        },
                        None => result matches Err(ProfileError::ParseError { name: key, .. })
                            && key@ == name@,
                    },
                    None => result matches Err(
                        ProfileError::UnknownProfile { name: asked, available },
                    ) && asked@ == name@ && available@.map_values(|n: String| n@)
                        == profile_names(),
                },
            },
    {
        match &self.machine {
            None => Ok(None),
            Some(name) => match load_profile::<N>(name.as_str()) {
                Ok(profile) => Ok(Some(profile)),
                Err(error) => Err(error),
            },
        }
    }
}

} // verus!
