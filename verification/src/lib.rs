//! Interactive SSH target launcher: a merged, deduplicated catalog of SSH
//! destinations drawn from an SSH client configuration file and from a
//! persisted history of raw invocations, offered to an external chooser and
//! resolved back to an argument vector for the SSH binary.

pub mod codec;
pub mod commands;
pub mod smap;
pub mod ssh_command_database;
pub mod ssh_command;
pub mod ssh_config;
pub mod state;
pub mod text;
pub mod user_fuzzy_find;

use vstd::prelude::*;

verus! {

/// The error kinds that any operation of this library can surface.
///
/// Every kind names the failing operation; `ProcessError` keeps the exit
/// code of the launched process, where there was one, for the caller to
/// surface.
#[derive(Clone, Copy, PartialEq, Eq, Debug)]
pub enum Error {
    /// The SSH configuration file does not exist.
    NotFound,
    /// A file exists but could not be read.
    ReadError,
    /// The history store directory or file could not be written.
    WriteError,
    /// The history store file exists but is not a valid store document.
    CorruptData,
    /// The interactive chooser could not run, or echoed an unknown key.
    SelectionFailed,
    /// The user cancelled the interactive selection.
    Aborted,
    /// The SSH executable could not be started.
    SpawnFailed,
    /// The SSH process exited with the given non-zero code, or abnormally
    /// without one.
    ProcessError(Option<i32>),
    /// No home or data directory could be resolved for this user.
    ConfigurationError,
}

} // verus!
