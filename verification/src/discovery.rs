//! Finding the shell's history file.

use vstd::prelude::*;
use crate::persistence::{join, join_path, Environment};
use crate::text::string_views;

verus! {

/// Why no history file is named.
#[derive(Debug, Clone, Copy, PartialEq, Eq, Structural)]
pub enum HistoryPathError {
    /// `HISTFILE` names none and the home directory is not known.
    NoHomeDirectory,
    /// `HISTFILE` names none and none of the usual files is there.
    NoHistoryFile,
}

/// The usual history files below the home directory, the most preferred first.
pub open spec fn usual_history_files(home: Seq<char>) -> Seq<Seq<char>> {
    seq![
        join_path(home, ".zsh_history"@),
        join_path(home, ".bash_history"@),
        join_path(home, ".history"@),
        join_path(home, ".fish_history"@),
    ]
}

/// Whether the file at position `i` is reported to be there.
pub open spec fn is_present(present: Seq<bool>, i: int) -> bool {
    0 <= i < present.len() && present[i]
}

/// The history file to read: the one that `HISTFILE` names, or else the first
/// of the usual files that is there.
pub open spec fn history_file(
    histfile: Option<Seq<char>>,
    home: Option<Seq<char>>,
    present: Seq<bool>,
) -> Result<Seq<char>, HistoryPathError> {
    if histfile is Some && histfile->0.len() > 0 {
        Ok(histfile->0)
    } else if home is None {
        Err(HistoryPathError::NoHomeDirectory)
    } else if is_present(present, 0) {
        Ok(usual_history_files(home->0)[0])
    } else if is_present(present, 1) {
        Ok(usual_history_files(home->0)[1])
    } else if is_present(present, 2) {
        Ok(usual_history_files(home->0)[2])
    } else if is_present(present, 3) {
        Ok(usual_history_files(home->0)[3])
    } else {
        Err(HistoryPathError::NoHistoryFile)
    }
}

/// The usual history files below `home`, the most preferred first.
pub fn default_history_files(home: &str) -> (r: Vec<String>)
    ensures
        r@.len() == 4,
        string_views(r@) == usual_history_files(home@),
{
    let mut out: Vec<String> = Vec::new();
    out.push(join(home, ".zsh_history"));
    out.push(join(home, ".bash_history"));
    out.push(join(home, ".history"));
    out.push(join(home, ".fish_history"));
    assert(string_views(out@) =~= usual_history_files(home@));
    out
}

/// The history file to read. `present` says of each of the usual files, in
/// the order of `default_history_files`, whether it is there; a file that it
/// does not speak of counts as missing.
#[verifier::loop_isolation(false)]
pub fn get_history_file_path(environment: &Environment, present: &Vec<bool>) -> (r: Result<
    String,
    HistoryPathError,
>)
    ensures
        match history_file(environment@.2, environment@.3, present@) {
            Ok(path) => r matches Ok(p) && p@ == path,
            Err(e) => r == Err::<String, HistoryPathError>(e),
        },
{
    if let Some(histfile) = &environment.histfile {
        if !histfile.as_str().is_empty() {
            return Ok(histfile.clone());
        }
    }
    let home = match &environment.home {
        Some(h) => h,
        None => {
            return Err(HistoryPathError::NoHomeDirectory);
        },
    };
    let files = default_history_files(home.as_str());
    let mut i: usize = 0;
    while i < 4
        invariant
            i <= 4,
            forall|j: int| 0 <= j < i ==> !is_present(present@, j),
        decreases 4 - i,
    {
        if i < present.len() && present[i] {
            assert(string_views(files@)[i as int] == files@[i as int]@);
            return Ok(files[i].clone());
        }
        i += 1;
    }
    Err(HistoryPathError::NoHistoryFile)
}

} // verus!
