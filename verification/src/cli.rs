//! What the command line asks for.

use vstd::prelude::*;
use std::path::PathBuf;

verus! {

/// `std::path::PathBuf`, an owned path. It is only carried through.
#[verifier::external_type_specification]
#[verifier::external_body]
pub struct ExPathBuf(PathBuf);

/// The arguments of one invocation.
#[derive(Debug)]
pub struct Cli {
    /// The alias file to work on, where one is named.
    pub alias_file_path: Option<PathBuf>,
    /// What is to be done.
    pub operation: Option<Operation>,
}

/// One operation on the aliases or on the suggestions.
#[derive(Debug)]
pub enum Operation {
    /// Adds the alias `alias` for `command`.
    Add { command: String, alias: String },
    /// Removes the alias `alias`.
    Remove { alias: String },
    /// Lists all aliases.
    List,
    /// Gives the alias `old_alias` the name `new_alias`.
    Change { old_alias: String, new_alias: String },
    /// Shows the `num` best suggestions.
    GetSuggestions { num: Option<usize> },
    /// Deletes the suggestions for `alias`.
    DeleteSuggestion { alias: String },
    /// Opens the interactive surface.
    Tui,
    /// Prints the start-up script for `shell`.
    Init { shell: InitShell },
    /// Sets up the data files.
    InitData,
}

/// A shell that a start-up script can be made for.
#[derive(Clone, Copy, Debug)]
pub enum InitShell {
    Bash,
    Zsh,
    Fish,
    Posix,
}

} // verus!
