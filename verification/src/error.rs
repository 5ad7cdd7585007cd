//! The library's error type.

use vstd::prelude::*;

verus! {

/// Everything that can go wrong while checking or fixing copyrights.
///
/// Repository-level failures (`GitCmdError`, `ConfigError`) abort a whole
/// run; the per-file failures (`UnknownCommentSign`, `ReadError`,
/// `WriteError`, decoding reported as `Utf8Error`) mark one file as failed
/// and let the batch continue; `FixError` is the aggregate verdict when any
/// file failed, and `FilesChanged` the verdict of the post-run diff check.
#[derive(Debug)]
pub enum CError {
    UnknownCommentSign(String),
    GitCmdError(String),
    ConfigError(String),
    ReadError(String),
    WriteError(String),
    FixError,
    FilesChanged,
    Utf8Error(String),
    RegexError(String),
}

impl CError {
    /// What each variant means, with its detail string.
    pub open spec fn spec_describe(&self) -> Seq<char> {
        match self {
            CError::UnknownCommentSign(f) => "No comment sign found for file "@ + f@,
            CError::GitCmdError(m) => "Error while running git subcommand: "@ + m@,
            CError::ConfigError(m) => "Invalid configuration: "@ + m@,
            CError::ReadError(f) => "Could not read "@ + f@,
            CError::WriteError(f) => "Could not write "@ + f@,
            CError::FixError => {
                "Some copyrights could not be fixed, please check the output"@
            },
            CError::FilesChanged => {
                "The copyright job changed tracked files that should be committed"@
            },
            CError::Utf8Error(f) => "Could not decode "@ + f@,
            CError::RegexError(p) => "Could not compile pattern "@ + p@,
        }
    }

    /// One line of human-readable text for the error.
    pub fn describe(&self) -> (r: String)
        ensures
            r@ == self.spec_describe(),
    {
        match self {
            CError::UnknownCommentSign(f) => {
                let mut s = String::from_str("No comment sign found for file ");
                s.append(f.as_str());
                s
            },
            CError::GitCmdError(m) => {
                let mut s = String::from_str("Error while running git subcommand: ");
                s.append(m.as_str());
                s
            },
            CError::ConfigError(m) => {
                let mut s = String::from_str("Invalid configuration: ");
                s.append(m.as_str());
                s
            },
            CError::ReadError(f) => {
                let mut s = String::from_str("Could not read ");
                s.append(f.as_str());
                s
            },
            CError::WriteError(f) => {
                let mut s = String::from_str("Could not write ");
                s.append(f.as_str());
                s
            },
            CError::FixError => {
                String::from_str("Some copyrights could not be fixed, please check the output")
            },
            CError::FilesChanged => {
                String::from_str("The copyright job changed tracked files that should be committed")
            },
            CError::Utf8Error(f) => {
                let mut s = String::from_str("Could not decode ");
                s.append(f.as_str());
                s
            },
            CError::RegexError(p) => {
                let mut s = String::from_str("Could not compile pattern ");
                s.append(p.as_str());
                s
            },
        }
    }
}

} // verus!
