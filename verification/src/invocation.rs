//! What a finished command leaves behind, and what is made of it.

use vstd::prelude::*;
use vstd::string::StringExecFns;

verus! {

/// What a finished command left behind.
#[derive(Debug, PartialEq, Eq)]
pub struct Invocation {
    /// The exit code, or `None` where a signal ended the process.
    pub status: Option<i32>,
    /// What the process wrote to its standard output, as text.
    pub stdout: String,
    /// What the process wrote to its standard error, as text.
    pub stderr: String,
}

/// A command that the tool ran and did not complete.
#[derive(Debug, PartialEq, Eq)]
pub struct ToolFailure {
    /// The command that was given.
    pub command: String,
    /// The exit code that it left, or `None` where a signal ended it.
    pub status: Option<i32>,
}

impl Invocation {
    /// Whether the process left with the exit code 0.
    pub fn success(&self) -> (r: bool)
        ensures
            r == (self.status == Some(0i32)),
    {
        match self.status {
            Some(code) => code == 0,
            None => false,
        }
    }

    /// Nothing where the process succeeded, and else the failure of
    /// `command`, which is the command that was run.
    pub fn completed(&self, command: &str) -> (r: Result<(), ToolFailure>)
        ensures
            match r {
                Ok(_) => self.status == Some(0i32),
                Err(e) => self.status != Some(0i32) && e.command@ == command@ && e.status
                    == self.status,
            },
    {
        if self.success() {
            Ok(())
        } else {
            Err(ToolFailure { command: String::from_str(command), status: self.status })
        }
    }
}

} // verus!
