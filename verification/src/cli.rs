//! What the program is asked to do on the command line.
use vstd::prelude::*;

verus! {

/// The program, run as a subcommand of cargo.
#[derive(Debug, PartialEq, Eq)]
pub enum CargoCli {
    Notch(Cli),
}

/// The arguments.
#[derive(Debug, PartialEq, Eq)]
pub struct Cli {
    /// Whether to say what is going on.
    pub verbose: bool,
    pub command: Commands,
}

/// The subcommands.
#[derive(Debug, PartialEq, Eq)]
pub enum Commands {
    /// Bump versions, update changelogs, and open a release pull request for changed packages.
    Pr { auto: bool, dry_run: bool },
    /// Bump versions, update changelogs, and commit the result locally.
    Commit { auto: bool, dry_run: bool },
    /// Print the tags of the packages whose version changed between two commits.
    Tag { old: String, new: String },
    /// Write the default configuration and workflow.
    Init {},
}

} // verus!
