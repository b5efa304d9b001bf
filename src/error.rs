//! Errors of the library.
use vstd::prelude::*;

verus! {

/// Failures of dependency resolution.
#[derive(Clone, Debug, PartialEq, Eq)]
pub enum DependencyResolutionError {
    /// A record could not be read as Debian metadata.
    DebianError(String),
    /// The solver found no solution, or failed choosing a version.
    PubGrubError(String),
    /// The provider was asked about a package or version it does not know.
    ConfigError(String),
    Unexpected(String),
}

/// Failures of the tool, by kind.
#[derive(Clone, Debug, PartialEq, Eq)]
pub enum AptPrepError {
    /// The configuration file is missing, malformed or has unknown fields.
    Config { details: String },
    Io { details: String },
    DependencyResolution(DependencyResolutionError),
    LockfileLoad { path: String, reason: String },
    LockfileSave { path: String, reason: String },
    /// The lockfile or its inputs are inconsistent.
    LockfileValidation { details: String },
    /// Command-line arguments are missing or inconsistent.
    CliArgumentValidation { details: String },
    Download { message: String },
    DownloadDirectoryCreation { path: String, reason: String },
    RepositoryAccess { repository: String, reason: String },
    PackageVerification { package: String, expected: String, actual: String },
    ConfigFileHash { path: String, reason: String },
}

} // verus!
