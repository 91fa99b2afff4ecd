//! The command-level error: an exit code and a report for the user.

use vstd::prelude::*;

verus! {

/// An error surfaced to the command line: a process exit code and the
/// text to print.
#[derive(Debug)]
pub struct CliError {
    pub code: i32,
    pub message: String,
}

impl CliError {
    /// An error with the given exit code and report.
    pub fn new(code: i32, message: String) -> (r: CliError)
        ensures
            r.code == code,
            r.message@ == message@,
    {
        CliError { code, message }
    }
}

} // verus!
