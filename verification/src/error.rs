//! Failures of a log read.

use vstd::prelude::*;

verus! {

/// Why a log read could not be answered.
#[derive(Debug, Clone, Copy, PartialEq, Eq, Structural)]
pub enum LogError {
    /// The log path has no file name to derive archive names from.
    NoFileName,
    /// The log directory could not be listed.
    ListFailed,
    /// The log file exists but could not be opened.
    OpenFailed,
    /// A line of the log file could not be read.
    ReadFailed,
}

impl LogError {
    /// What failed, in words.
    pub fn message(&self) -> (text: &'static str)
        ensures
            text@ == (match *self {
                LogError::NoFileName => "log path has no file name"@,
                LogError::ListFailed => "reading log dir"@,
                LogError::OpenFailed => "opening log"@,
                LogError::ReadFailed => "reading log line"@,
            }),
    {
        match self {
            LogError::NoFileName => "log path has no file name",
            LogError::ListFailed => "reading log dir",
            LogError::OpenFailed => "opening log",
            LogError::ReadFailed => "reading log line",
        }
    }
}

}
