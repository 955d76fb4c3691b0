//! The errors of the library.

use vstd::prelude::*;

verus! {

/// Why an operation of the library failed.
#[derive(Debug)]
pub enum PkgError {
    /// `add_dependency`: the manifest already depends on this name.
    DependencyExists(String),
    /// `add_dev_dependency`: the manifest already has this dev dependency.
    DevDependencyExists(String),
    /// `remove_dependency`: neither table has this name.
    DependencyNotFound(String),
    /// `validate`: the package name is empty.
    EmptyName,
    /// `validate`: the package version is empty.
    EmptyVersion,
    /// A version text that `semver` refuses, with its error.
    InvalidVersion(String, semver::Error),
    /// A requirement text that `semver` refuses, with its error.
    InvalidRequirement(String, semver::Error),
    /// No version of the package is known.
    PackageNotFound(String),
    /// No known version of the package meets all requirements (the
    /// requirement texts are given).
    NoCompatibleVersion(String, Vec<String>),
    /// A package loaded from an explicit source (its name, the source text and
    /// its version text) does not meet the requirements on it (their texts
    /// are given).
    SourceVersionMismatch(String, String, String, Vec<String>),
    /// A package (first) requires a dependency (second) with a requirement
    /// (third) that the version already chosen for it (fourth) does not meet.
    VersionConflict(String, String, String, String),
}

} // verus!
