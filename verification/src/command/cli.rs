//! Which command is run.

use vstd::prelude::*;

verus! {

#[derive(Clone, Copy, PartialEq, Eq, Structural, Debug)]
pub enum Command {
    Record,
    Prepare,
    Snapshot,
    Datasource,
}

/// What a command line comes to.
#[derive(Clone, Copy, PartialEq, Eq, Structural, Debug)]
pub enum Dispatch {
    /// Print what is wrong, and exit with this code.
    Exit(i32),
    /// Print the help, and exit with 0.
    Help,
    /// Run the command; its code is the code to exit with.
    Run(Command),
}

/// What a command line comes to, once it was read: the code of what is wrong with
/// it, or the command, if one is given.
pub fn run(parsed: Result<Option<Command>, i32>) -> (d: Dispatch)
    ensures
        d == (match parsed {
            Err(code) => Dispatch::Exit(code),
            Ok(None) => Dispatch::Help,
            Ok(Some(c)) => Dispatch::Run(c),
        }),
{
    match parsed {
        Err(code) => Dispatch::Exit(code),
        Ok(None) => Dispatch::Help,
        Ok(Some(c)) => Dispatch::Run(c),
    }
}

} // verus!
