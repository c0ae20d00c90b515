//! What the service manager and the log reader are asked, and what their
//! exit means.

use crate::error::Error;
use crate::text::texts;
use crate::unit::{unit_file_name, Service, UnitId};
use vstd::prelude::*;

verus! {

/// The program that controls the service manager.
pub const SERVICE_MANAGER: &'static str = "systemctl";

/// The program that reads the log.
pub const LOG_READER: &'static str = "journalctl";

/// The arguments that ask the service manager to do `verb` to the unit, and
/// not to wait for the end of it unless `block` is set.
pub open spec fn action_args(id: UnitId, verb: Seq<char>, block: bool) -> Seq<Seq<char>> {
    if block {
        seq![verb, unit_file_name(id)]
    } else {
        seq![verb, "--no-block"@, unit_file_name(id)]
    }
}

/// The arguments that ask the service manager to read all unit files again.
pub open spec fn reload_args() -> Seq<Seq<char>> {
    seq!["daemon-reload"@]
}

/// The arguments that ask the service manager for the unit's status, without
/// any line of its log.
pub open spec fn status_args(id: UnitId) -> Seq<Seq<char>> {
    seq!["status"@, "-n"@, "0"@, unit_file_name(id)]
}

/// The arguments that ask the log reader for the messages of the unit, and
/// nothing but the messages, all of them, the newest first.
pub open spec fn journal_args(id: UnitId) -> Seq<Seq<char>> {
    seq![
        "-r"@,
        "-o"@,
        "cat"@,
        "--output-fields=MESSAGE"@,
        "--no-tail"@,
        "-u"@,
        unit_file_name(id),
    ]
}

/// Whether a process that ended with the given exit code, or without one
/// because a signal ended it, has succeeded.
pub open spec fn succeeded(code: Option<i32>) -> bool {
    code == Some(0i32)
}

impl Service {
    /// The arguments that ask the service manager to do `verb` to the unit.
    pub fn action(&self, verb: &str, block: bool) -> (args: Vec<String>)
        ensures
            texts(args@) == action_args(self@, verb@, block),
    {
        let mut args: Vec<String> = Vec::new();
        args.push(String::from_str(verb));
        if !block {
            args.push(String::from_str("--no-block"));
        }
        args.push(self.unit_name());
        assert(texts(args@) =~= action_args(self@, verb@, block));
        args
    }

    /// The arguments that ask the service manager to read all unit files
    /// again.
    pub fn reload_unit_config() -> (args: Vec<String>)
        ensures
            texts(args@) == reload_args(),
    {
        let mut args: Vec<String> = Vec::new();
        args.push(String::from_str("daemon-reload"));
        assert(texts(args@) =~= reload_args());
        args
    }

    /// The arguments that ask the service manager for the unit's status.
    pub fn status_query(&self) -> (args: Vec<String>)
        ensures
            texts(args@) == status_args(self@),
    {
        let mut args: Vec<String> = Vec::new();
        args.push(String::from_str("status"));
        args.push(String::from_str("-n"));
        args.push(String::from_str("0"));
        args.push(self.unit_name());
        assert(texts(args@) =~= status_args(self@));
        args
    }

    /// The arguments that ask the log reader for the messages of the unit.
    pub fn journal_query(&self) -> (args: Vec<String>)
        ensures
            texts(args@) == journal_args(self@),
    {
        let mut args: Vec<String> = Vec::new();
        args.push(String::from_str("-r"));
        args.push(String::from_str("-o"));
        args.push(String::from_str("cat"));
        args.push(String::from_str("--output-fields=MESSAGE"));
        args.push(String::from_str("--no-tail"));
        args.push(String::from_str("-u"));
        args.push(self.unit_name());
        assert(texts(args@) =~= journal_args(self@));
        args
    }
}

/// What the end of the service manager means for the one who asked it for
/// `verb`: success if it exited with code 0, whatever it wrote; else a
/// failure that names the verb and the exit code.
pub fn command_result(verb: &str, code: Option<i32>) -> (res: Result<(), Error>)
    ensures
        res is Ok <==> succeeded(code),
        match res {
            Ok(_) => true,
            Err(Error::CommandFailed { verb: v, code: c }) => v@ == verb@ && c == code,
            Err(_) => false,
        },
{
    match code {
        Some(0) => Ok(()),
        _ => Err(Error::CommandFailed { verb: String::from_str(verb), code }),
    }
}

} // verus!
