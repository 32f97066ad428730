use vstd::prelude::*;

verus! {

/// Failures that the gateway reports to its clients.
#[derive(Debug, Clone, Copy, PartialEq, Eq, Structural)]
pub enum Error {
    /// Two entries of a sensor walk disagree on whether a name is a file or a directory.
    TreeConflict,
    /// A requested command path leaves the command directory.
    PathEscape,
    /// The command could not be started.
    SpawnFailed,
    /// The command ran and exited with a failure status.
    ExecutionFailed,
    /// The command's standard output is not valid UTF-8 text.
    OutputNotText,
    /// Any other I/O failure.
    IoError,
}

/// The HTTP status that an error is reported with.
pub open spec fn status_of(e: Error) -> u16 {
    match e {
        Error::PathEscape => 400,
        _ => 500,
    }
}

/// The text that an error is reported with: fixed per kind, so no operating-system
/// detail reaches a client.
pub open spec fn message_of(e: Error) -> Seq<char> {
    match e {
        Error::TreeConflict => "sensor tree changed during the walk"@,
        Error::PathEscape => "command path leaves the command directory"@,
        Error::SpawnFailed => "command could not be started"@,
        Error::ExecutionFailed => "command failed"@,
        Error::OutputNotText => "command output is not text"@,
        Error::IoError => "i/o error"@,
    }
}

impl Error {
    /// The message a client sees for this error.
    pub fn message(&self) -> (r: &'static str)
        ensures
            r@ == message_of(*self),
    {
        match self {
            Error::TreeConflict => "sensor tree changed during the walk",
            Error::PathEscape => "command path leaves the command directory",
            Error::SpawnFailed => "command could not be started",
            Error::ExecutionFailed => "command failed",
            Error::OutputNotText => "command output is not text",
            Error::IoError => "i/o error",
        }
    }

    /// HTTP status code for this error: a client error for a path escape, a server error otherwise.
    pub fn status_code(&self) -> (r: u16)
        ensures
            r == status_of(*self),
    {
        match self {
            Error::PathEscape => 400,
            _ => 500,
        }
    }
}

} // verus!
