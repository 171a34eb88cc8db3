//! Solvers for a series of line-oriented puzzle inputs, with the loading and
//! per-line processing they share.
pub mod text;
pub mod common;
pub mod sonar;
pub mod navigation;
pub mod diagnostic;
