//! What can go wrong, and where.

use vstd::prelude::*;

verus! {

/// What is wrong with a line of the service manager's status report.
#[derive(Debug, Clone, Copy, PartialEq, Eq, Structural)]
pub enum StatusFault {
    /// The line names a main unit file, and one was named before.
    UnexpectedLoaded,
    /// The line announces the main unit file, but holds no path between `(`
    /// and `;`.
    MissingUnitPath,
    /// The line opens the list of drop-ins, but not right after exactly one
    /// main unit file, or for the second time.
    UnexpectedDropIn,
}

/// Why an operation of this crate was refused or could not be completed.
#[derive(Debug, PartialEq, Eq)]
pub enum Error {
    /// The configuration file at index `file` ends in a line that is to be
    /// continued.
    UnexpectedEndOfFile { file: usize },
    /// The line at index `line` of the service manager's status report
    /// cannot stand where it does.
    MalformedStatus { line: usize, fault: StatusFault },
    /// The unit has a profiling fragment already.
    ProfileFragmentExists,
    /// The unit has a hardening fragment, whose options may break the tracer.
    HardeningFragmentExists,
    /// The fragment to remove is not there.
    FragmentMissing,
    /// The log holds no complete block of options.
    SnippetNotFound,
    /// The service manager, asked for `verb`, did not exit with success;
    /// `code` is its exit code, if it exited by itself.
    CommandFailed { verb: String, code: Option<i32> },
}

} // verus!
