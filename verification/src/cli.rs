//! The command surface: the verbs the front-end dispatches on.
//!
//! Argument parsing and terminal output happen outside the library; the
//! types here carry the parsed command into the coordinator.

use vstd::prelude::*;

verus! {

/// One invocation's verb and arguments.
#[derive(Debug)]
pub enum Commands {
    Install { file: Option<String>, package: Vec<String>, version: Option<String> },
    Remove { packages: Vec<String> },
    List,
    Update { file: Option<String>, packages: Vec<String> },
    Switch { target: String },
    Completions { shell: String },
}

/// A parsed command line.
#[derive(Debug)]
pub struct Cli {
    pub command: Commands,
}

} // verus!
