//! Commands to run, and what became of them.
use crate::error::{NotchError, Result};
use vstd::prelude::*;

verus! {

/// Takes a command apart into the program and its arguments.
pub fn run_command<'a>(cmd: &'a [&'a str]) -> (r: Result<(&'a str, &'a [&'a str])>)
    ensures
        if cmd@.len() == 0 {
            r == Err::<(&str, &[&str]), NotchError>(NotchError::EmptyCommand)
        } else {
            &&& r is Ok
            &&& r->Ok_0.0 == cmd@[0]
            &&& r->Ok_0.1@ == cmd@.skip(1)
        },
{
    if cmd.len() == 0 {
        return Err(NotchError::EmptyCommand);
    }
    let args = vstd::slice::slice_subrange(cmd, 1, cmd.len());
    assert(args@ =~= cmd@.skip(1));
    Ok((cmd[0], args))
}

/// Whether a command that has ended did what it should: it ended with the exit code zero.
pub fn command_outcome(code: Option<i32>) -> (r: Result<()>)
    ensures
        r == (if code == Some(0i32) {
            Ok::<(), NotchError>(())
        } else {
            Err(NotchError::CommandFailed(code))
        }),
{
    match code {
        Some(0) => Ok(()),
        other => Err(NotchError::CommandFailed(other)),
    }
}

/// The command that updates the lockfile of the project.
pub fn generate_lockfile() -> (r: Vec<&'static str>)
    ensures
        r@.len() == 2,
        r@[0]@ == "cargo"@,
        r@[1]@ == "generate-lockfile"@,
{
    vec!["cargo", "generate-lockfile"]
}

} // verus!
