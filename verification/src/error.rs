//! The error values of the pipeline, each with its diagnostic code.
use vstd::prelude::*;

verus! {

/// Failures of reading input files.
#[derive(Debug, Clone)]
pub enum IoError {
    FileRead { path: String, message: String },
    FileWrite { path: String, message: String },
    NeedsfileMissing,
    NeedsfileEmpty { path: String },
}

impl IoError {
    pub open spec fn spec_code(self) -> Seq<char> {
        match self {
            IoError::FileRead { .. } => "needs::io::read_failed"@,
            IoError::FileWrite { .. } => "needs::io::write_failed"@,
            IoError::NeedsfileMissing => "needs::io::needsfile_missing"@,
            IoError::NeedsfileEmpty { .. } => "needs::io::needsfile_empty"@,
        }
    }

    /// The diagnostic code of this error.
    pub fn code(&self) -> (r: String)
        ensures
            r@ == self.spec_code(),
    {
        match self {
            IoError::FileRead { .. } => String::from_str("needs::io::read_failed"),
            IoError::FileWrite { .. } => String::from_str("needs::io::write_failed"),
            IoError::NeedsfileMissing => String::from_str("needs::io::needsfile_missing"),
            IoError::NeedsfileEmpty { .. } => String::from_str("needs::io::needsfile_empty"),
        }
    }
}

/// Failures of locating binaries on the search path.
#[derive(Debug, Clone)]
pub enum DiscoveryError {
    NoBinariesSpecified,
    BinaryCheck { name: String, message: String },
}

impl DiscoveryError {
    pub open spec fn spec_code(self) -> Seq<char> {
        match self {
            DiscoveryError::NoBinariesSpecified => "needs::discovery::no_binaries"@,
            DiscoveryError::BinaryCheck { .. } => "needs::discovery::binary_check_failed"@,
        }
    }

    /// The diagnostic code of this error.
    pub fn code(&self) -> (r: String)
        ensures
            r@ == self.spec_code(),
    {
        match self {
            DiscoveryError::NoBinariesSpecified => String::from_str(
                "needs::discovery::no_binaries",
            ),
            DiscoveryError::BinaryCheck { .. } => String::from_str(
                "needs::discovery::binary_check_failed",
            ),
        }
    }
}

/// Failures of retrieving or reading a version.
#[derive(Debug, Clone)]
pub enum VersionError {
    Execution { name: String, message: String },
    VersionParse { name: String, output: String },
    SemverParse { version_string: String },
}

impl VersionError {
    pub open spec fn spec_code(self) -> Seq<char> {
        match self {
            VersionError::Execution { .. } => "needs::version::execution_failed"@,
            VersionError::VersionParse { .. } => "needs::version::parse_failed"@,
            VersionError::SemverParse { .. } => "needs::version::semver_parse_failed"@,
        }
    }

    /// The diagnostic code of this error.
    pub fn code(&self) -> (r: String)
        ensures
            r@ == self.spec_code(),
    {
        match self {
            VersionError::Execution { .. } => String::from_str("needs::version::execution_failed"),
            VersionError::VersionParse { .. } => String::from_str("needs::version::parse_failed"),
            VersionError::SemverParse { .. } => String::from_str(
                "needs::version::semver_parse_failed",
            ),
        }
    }
}

/// Failures of validating input text.
#[derive(Debug, Clone)]
pub enum ValidationError {
    InvalidContent { filename: String, token: String, line: usize, column: usize },
}

impl ValidationError {
    pub open spec fn spec_code(self) -> Seq<char> {
        match self {
            ValidationError::InvalidContent { .. } => "needs::validation::invalid_content"@,
        }
    }

    /// The diagnostic code of this error.
    pub fn code(&self) -> (r: String)
        ensures
            r@ == self.spec_code(),
    {
        match self {
            ValidationError::InvalidContent { .. } => String::from_str(
                "needs::validation::invalid_content",
            ),
        }
    }
}

/// Failures of configuration.
#[derive(Debug, Clone)]
pub enum ConfigError {
    Invalid { reason: String, advice: String },
    LoggerSetup { message: String },
}

impl ConfigError {
    pub open spec fn spec_code(self) -> Seq<char> {
        match self {
            ConfigError::Invalid { .. } => "needs::config::invalid_config"@,
            ConfigError::LoggerSetup { .. } => "needs::config::logger_setup_failed"@,
        }
    }

    /// The diagnostic code of this error.
    pub fn code(&self) -> (r: String)
        ensures
            r@ == self.spec_code(),
    {
        match self {
            ConfigError::Invalid { .. } => String::from_str("needs::config::invalid_config"),
            ConfigError::LoggerSetup { .. } => String::from_str(
                "needs::config::logger_setup_failed",
            ),
        }
    }
}

/// Any failure of the whole application.
#[derive(Debug, Clone)]
pub enum AppError {
    Io(IoError),
    Discovery(DiscoveryError),
    Version(VersionError),
    Validation(ValidationError),
    Config(ConfigError),
}

impl AppError {
    pub open spec fn spec_code(self) -> Seq<char> {
        match self {
            AppError::Io(e) => e.spec_code(),
            AppError::Discovery(e) => e.spec_code(),
            AppError::Version(e) => e.spec_code(),
            AppError::Validation(e) => e.spec_code(),
            AppError::Config(e) => e.spec_code(),
        }
    }

    /// The diagnostic code of the wrapped error.
    pub fn code(&self) -> (r: String)
        ensures
            r@ == self.spec_code(),
    {
        match self {
            AppError::Io(e) => e.code(),
            AppError::Discovery(e) => e.code(),
            AppError::Version(e) => e.code(),
            AppError::Validation(e) => e.code(),
            AppError::Config(e) => e.code(),
        }
    }
}

} // verus!
