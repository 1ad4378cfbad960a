//! Extracts an issue-tracker reference (such as `GH-1234` or
//! `CVE-2024-53908`) from a git branch name, driven by a small
//! configuration of issue codes and optional required branch prefixes.

use vstd::prelude::*;

pub mod config;
pub mod laws;
pub mod git;
pub mod parse;

verus! {

/// The failures that the library itself can report. Errors that carry
/// values of outside crates (I/O, YAML, git) belong to the surrounding
/// program, not to this library.
#[derive(Clone, Copy, Debug, PartialEq, Eq, Structural)]
pub enum Error {
    /// No git branch could be found.
    NoBranch,
    /// No configuration file could be found.
    NoConfigurationFile,
}

} // verus!
