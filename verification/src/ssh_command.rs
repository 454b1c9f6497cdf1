//! The session launcher's decisions. Spawning the SSH process and waiting
//! on it is the caller's business; this module fixes what arguments the
//! process gets, what each outcome means for the run, and when a raw
//! session is offered to the history store.

use vstd::prelude::*;

use crate::Error;
use crate::ssh_config::SshItem;
use crate::ssh_config::clone_strings;
use crate::ssh_config::model_invocation;
use crate::state::State;

verus! {

/// How an attempted SSH session ended.
#[derive(Clone, Copy, PartialEq, Eq, Structural, Debug)]
pub enum LaunchOutcome {
    /// The executable could not be started.
    SpawnFailed,
    /// The process exited with this code.
    Exited(i32),
    /// The process ended without an exit code.
    Abnormal,
}

/// Resolves items to argument vectors and judges session outcomes.
pub struct SshCommand {}

impl SshCommand {
    /// The argument vector to hand to the SSH binary for a chosen item:
    /// the alias alone for a declared host, the stored tokens verbatim for
    /// a raw invocation.
    pub fn session_args(&self, ssh_item: &SshItem) -> (r: Vec<String>)
        ensures
            r.deep_view() == model_invocation(ssh_item@),
    {
        ssh_item.to_host()
    }

    /// What an outcome means for the run: success exactly on a zero exit,
    /// `SpawnFailed` when the executable could not start, `ProcessError`
    /// with the underlying exit code on any other end.
    pub fn session_result(&self, outcome: &LaunchOutcome) -> (r: Result<(), Error>)
        ensures
            match *outcome {
                LaunchOutcome::SpawnFailed => r == Err::<(), Error>(Error::SpawnFailed),
                LaunchOutcome::Exited(code) => if code == 0 {
                    r == Ok::<(), Error>(())
                } else {
                    r == Err::<(), Error>(Error::ProcessError(Some(code)))
                },
                LaunchOutcome::Abnormal => r == Err::<(), Error>(Error::ProcessError(None)),
            },
    {
        match outcome {
            LaunchOutcome::SpawnFailed => Err(Error::SpawnFailed),
            LaunchOutcome::Exited(code) => {
                if *code == 0 {
                    Ok(())
                } else {
                    Err(Error::ProcessError(Some(*code)))
                }
            },
            LaunchOutcome::Abnormal => Err(Error::ProcessError(None)),
        }
    }

    /// The invocation to offer the history store after a raw session:
    /// exactly the session's own tokens, and only when the session
    /// succeeded. A failed spawn or a failed session records nothing.
    pub fn record_after_raw(&self, outcome: &LaunchOutcome, raw: &Vec<String>) -> (r: Option<
        Vec<String>,
    >)
        ensures
            match r {
                Some(v) => *outcome == LaunchOutcome::Exited(0) && v@ == raw@,
                None => *outcome != LaunchOutcome::Exited(0),
            },
    {
        match outcome {
            LaunchOutcome::Exited(code) => {
                if *code == 0 {
                    Some(clone_strings(raw))
                } else {
                    None
                }
            },
            _ => None,
        }
    }
}

/// Hands out the stateless session launcher.
pub trait SshCommandState {
    /// The session launcher service.
    fn ssh_command(&self) -> SshCommand;
}

impl SshCommandState for State {
    fn ssh_command(&self) -> SshCommand {
        SshCommand {}
    }
}

} // verus!
