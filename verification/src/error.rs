//! Error taxonomy of the engine and the stable exit-code surface.

use vstd::prelude::*;
use vstd::string::*;

verus! {

/// The process exit codes this tool may end with. The numeric values are a
/// stable contract: 0 Success, 1 GeneralError, 2 ConfigError,
/// 64 InvalidArguments, 127 CommandNotFound, 128 CommandFailed,
/// 129 DuplicateCommand.
#[derive(Clone, Copy, Debug, PartialEq, Eq, Structural)]
pub enum ExitCode {
    Success,
    GeneralError,
    ConfigError,
    InvalidArguments,
    CommandNotFound,
    CommandFailed,
    DuplicateCommand,
}

impl ExitCode {
    /// The numeric value surfaced to the operating system.
    pub open spec fn spec_code(self) -> i32 {
        match self {
            ExitCode::Success => 0,
            ExitCode::GeneralError => 1,
            ExitCode::ConfigError => 2,
            ExitCode::InvalidArguments => 64,
            ExitCode::CommandNotFound => 127,
            ExitCode::CommandFailed => 128,
            ExitCode::DuplicateCommand => 129,
        }
    }

    /// Numeric exit status handed to the operating system on process exit.
    pub fn code(self) -> (r: i32)
        ensures
            r == self.spec_code(),
    {
        match self {
            ExitCode::Success => 0,
            ExitCode::GeneralError => 1,
            ExitCode::ConfigError => 2,
            ExitCode::InvalidArguments => 64,
            ExitCode::CommandNotFound => 127,
            ExitCode::CommandFailed => 128,
            ExitCode::DuplicateCommand => 129,
        }
    }
}

/// Everything that can go wrong inside the engine. Each variant carries the
/// text it is about: the alias name, or a human-readable description.
#[derive(Debug)]
pub enum ShadowError {
    /// No alias is registered under the given name.
    AliasNotFound(String),
    /// An alias under the given name already exists.
    DuplicateCommand(String),
    /// Loading or persisting the configuration document failed.
    ConfigError(String),
    /// The replacement command line is empty or whitespace-only.
    InvalidReplacement(String),
    /// Spawning or waiting on the child process failed.
    CommandExecutionError(String),
}

impl ShadowError {
    /// The exit code each error maps to, deterministically.
    pub open spec fn spec_exit_code(self) -> ExitCode {
        match self {
            ShadowError::AliasNotFound(_) => ExitCode::CommandNotFound,
            ShadowError::DuplicateCommand(_) => ExitCode::DuplicateCommand,
            ShadowError::ConfigError(_) => ExitCode::ConfigError,
            ShadowError::InvalidReplacement(_) => ExitCode::InvalidArguments,
            ShadowError::CommandExecutionError(_) => ExitCode::CommandFailed,
        }
    }

    /// Maps this error to the exit code it is surfaced as.
    pub fn exit_code(&self) -> (r: ExitCode)
        ensures
            r == self.spec_exit_code(),
    {
        match self {
            ShadowError::AliasNotFound(_) => ExitCode::CommandNotFound,
            ShadowError::DuplicateCommand(_) => ExitCode::DuplicateCommand,
            ShadowError::ConfigError(_) => ExitCode::ConfigError,
            ShadowError::InvalidReplacement(_) => ExitCode::InvalidArguments,
            ShadowError::CommandExecutionError(_) => ExitCode::CommandFailed,
        }
    }

    /// The human-readable text of each error.
    pub open spec fn spec_message(self) -> Seq<char> {
        match self {
            ShadowError::AliasNotFound(n) => "No alias found for command: "@ + n@,
            ShadowError::DuplicateCommand(n) => "Command already shadowed: "@ + n@,
            ShadowError::ConfigError(d) => "Failed to load config: "@ + d@,
            ShadowError::InvalidReplacement(d) => "Invalid replacement command: "@ + d@,
            ShadowError::CommandExecutionError(d) => "Failed to execute command: "@ + d@,
        }
    }

    /// Renders the error as one human-readable line.
    pub fn message(&self) -> (r: String)
        ensures
            r@ == self.spec_message(),
    {
        match self {
            ShadowError::AliasNotFound(n) => String::from_str(
                "No alias found for command: ",
            ).concat(n.as_str()),
            ShadowError::DuplicateCommand(n) => String::from_str(
                "Command already shadowed: ",
            ).concat(n.as_str()),
            ShadowError::ConfigError(d) => String::from_str("Failed to load config: ").concat(
                d.as_str(),
            ),
            ShadowError::InvalidReplacement(d) => String::from_str(
                "Invalid replacement command: ",
            ).concat(d.as_str()),
            ShadowError::CommandExecutionError(d) => String::from_str(
                "Failed to execute command: ",
            ).concat(d.as_str()),
        }
    }
}

} // verus!
