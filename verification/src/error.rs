//! Error kinds reported by the library and the tool around it.
use vstd::prelude::*;

verus! {

/// Everything that can go wrong while tracking a build, selecting files
/// and storing the outcome. Message payloads carry the failing command,
/// path or input so the operator can diagnose without re-running.
#[derive(Debug)]
pub enum Error {
    ConfigToolNotFound,
    CommandExecutionFailed(String),
    ConfigSaveFailed(String),
    ConfigError(String),
    IoError(String),
    Json(String),
    HookLibraryNotFound,
    FileSelectionCancelled(String),
    TargetsListNotFound(String),
    NoTargetsFound(String),
    InvalidInput(String),
}

impl Error {
    /// The operator-facing description of this error.
    pub open spec fn spec_message(&self) -> Seq<char> {
        match self {
            Error::ConfigToolNotFound => {
                "c2rust-config not found. Please install c2rust-config first."@
            },
            Error::CommandExecutionFailed(m) => "Command execution failed: "@ + m@,
            Error::ConfigSaveFailed(m) => "Failed to save configuration: "@ + m@,
            Error::ConfigError(m) => "Configuration error: "@ + m@,
            Error::IoError(m) => "IO error: "@ + m@,
            Error::Json(m) => "JSON error: "@ + m@,
            Error::HookLibraryNotFound => {
                "Hook library not found. Set C2RUST_HOOK_LIB environment variable to the path of libhook.so"@
            },
            Error::FileSelectionCancelled(m) => "File selection cancelled: "@ + m@,
            Error::TargetsListNotFound(m) => "Targets list not found: "@ + m@,
            Error::NoTargetsFound(m) => "No targets found: "@ + m@,
            Error::InvalidInput(m) => "Invalid input: "@ + m@,
        }
    }

    /// Renders the error as one line of text.
    pub fn message(&self) -> (r: String)
        ensures
            r@ == self.spec_message(),
    {
        match self {
            Error::ConfigToolNotFound => {
                String::from_str("c2rust-config not found. Please install c2rust-config first.")
            },
            Error::CommandExecutionFailed(m) => {
                let mut s = String::from_str("Command execution failed: ");
                s.append(m.as_str());
                s
            },
            Error::ConfigSaveFailed(m) => {
                let mut s = String::from_str("Failed to save configuration: ");
                s.append(m.as_str());
                s
            },
            Error::ConfigError(m) => {
                let mut s = String::from_str("Configuration error: ");
                s.append(m.as_str());
                s
            },
            Error::IoError(m) => {
                let mut s = String::from_str("IO error: ");
                s.append(m.as_str());
                s
            },
            Error::Json(m) => {
                let mut s = String::from_str("JSON error: ");
                s.append(m.as_str());
                s
            },
            Error::HookLibraryNotFound => {
                String::from_str(
                    "Hook library not found. Set C2RUST_HOOK_LIB environment variable to the path of libhook.so",
                )
            },
            Error::FileSelectionCancelled(m) => {
                let mut s = String::from_str("File selection cancelled: ");
                s.append(m.as_str());
                s
            },
            Error::TargetsListNotFound(m) => {
                let mut s = String::from_str("Targets list not found: ");
                s.append(m.as_str());
                s
            },
            Error::NoTargetsFound(m) => {
                let mut s = String::from_str("No targets found: ");
                s.append(m.as_str());
                s
            },
            Error::InvalidInput(m) => {
                let mut s = String::from_str("Invalid input: ");
                s.append(m.as_str());
                s
            },
        }
    }
}

pub type Result<T> = core::result::Result<T, Error>;

} // verus!
