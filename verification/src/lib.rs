//! Analysis and optimisation of G-code for FFF/FDM printers.

pub mod analyzer;
pub mod arc_fitter;
pub mod cli;
pub mod diagnostics;
pub mod dialect;
pub mod effects;
pub mod emitter;
pub mod filament;
pub mod fixed;
pub mod geometry;
pub mod grid;
pub mod machine_profile;
pub mod models;
pub mod motion;
pub mod optimizer;
pub mod pace;
pub mod parser;
pub mod pipeline;
pub mod place;
pub mod refit;
pub mod roundtrip;
pub mod scalar;
pub mod text;
pub mod tower;
