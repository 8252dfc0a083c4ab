//! Where the state is kept on disk, and how a store comes back from what was
//! kept.
//!
//! Nothing here touches the file system: the caller reads and writes the
//! files, and hands over what it read.

use vstd::prelude::*;
use vstd::string::StringExecFns;
use vstd::string::StrSliceExecFns;
use crate::ingest::{
    bootstrap_report, bootstrapped, initialize_database_from_history, optional_text, reports,
    IngestError,
};
use crate::pool::{all_valid, distinct_texts, is_pool, law_rebuilt_in_order, rebuilt};
use crate::record::{Command, CommandView};
use crate::store::{views, CommandStore, StoreError};
use crate::text::string_views;
use crate::tombstones::{members, TombstoneSet};

verus! {

/// The name of the file that holds the store.
pub const DB_FILE: &'static str = "command_database.json";

/// The name of the file that holds the excluded texts.
pub const DELETED_COMMANDS_FILE: &'static str = "deleted_commands.json";

/// The name of the file that holds the configuration.
pub const CONFIG_FILE: &'static str = "config.json";

/// The configuration: the alias files that are managed.
#[derive(Debug)]
pub struct AppConfig {
    pub alias_file_paths: Vec<String>,
}

/// What the environment says about where files are.
pub struct Environment {
    /// The value of `XDG_DATA_HOME`, where it is set.
    pub xdg_data_home: Option<String>,
    /// The value of `XDG_CONFIG_HOME`, where it is set.
    pub xdg_config_home: Option<String>,
    /// The value of `HISTFILE`, where it is set.
    pub histfile: Option<String>,
    /// The user's home directory, where it is known.
    pub home: Option<String>,
}

/// The text of an optional owned string.
pub open spec fn owned_text(value: Option<String>) -> Option<Seq<char>> {
    match value {
        Some(s) => Some(s@),
        None => None,
    }
}

/// `name` below the directory `base`: the two are joined by one `/`, which is
/// left out where `base` is empty or ends in one.
pub open spec fn join_path(base: Seq<char>, name: Seq<char>) -> Seq<char> {
    if base.len() == 0 {
        name
    } else if base.last() == '/' {
        base + name
    } else {
        base.push('/') + name
    }
}

/// The home directory, or the current directory where none is known.
pub open spec fn home_or_here(home: Option<Seq<char>>) -> Seq<char> {
    match home {
        Some(h) => h,
        None => "."@,
    }
}

/// The data directory: `alman` below `XDG_DATA_HOME`, or else
/// `.local/share/alman` below the home directory.
pub open spec fn data_directory(xdg_data_home: Option<Seq<char>>, home: Option<Seq<char>>) -> Seq<
    char,
> {
    match xdg_data_home {
        Some(x) => join_path(x, "alman"@),
        None => join_path(
            join_path(join_path(home_or_here(home), ".local"@), "share"@),
            "alman"@,
        ),
    }
}

/// The configuration directory: `alman` below `XDG_CONFIG_HOME`, or else
/// `.config/alman` below the home directory.
pub open spec fn config_directory(
    xdg_config_home: Option<Seq<char>>,
    home: Option<Seq<char>>,
) -> Seq<char> {
    match xdg_config_home {
        Some(x) => join_path(x, "alman"@),
        None => join_path(join_path(home_or_here(home), ".config"@), "alman"@),
    }
}

/// `dirs::home_dir` gives the user's home directory, from `HOME` or from the
/// user database, or nothing where neither knows one. The result depends on
/// the process's environment, so nothing is said of it.
#[verifier::external_body]
fn home_directory() -> Option<String> {
    match dirs::home_dir() {
        Some(path) => Some(path.to_string_lossy().into_owned()),
        None => None,
    }
}

impl Environment {
    /// The texts of the four values.
    pub open spec fn view(&self) -> (
        Option<Seq<char>>,
        Option<Seq<char>>,
        Option<Seq<char>>,
        Option<Seq<char>>,
    ) {
        (
            owned_text(self.xdg_data_home),
            owned_text(self.xdg_config_home),
            owned_text(self.histfile),
            owned_text(self.home),
        )
    }

    /// The environment with the given values of `XDG_DATA_HOME`,
    /// `XDG_CONFIG_HOME` and `HISTFILE` and with the home directory that the
    /// system reports.
    pub fn with_home_directory(
        xdg_data_home: Option<String>,
        xdg_config_home: Option<String>,
        histfile: Option<String>,
    ) -> (r: Environment)
        ensures
            r.xdg_data_home == xdg_data_home,
            r.xdg_config_home == xdg_config_home,
            r.histfile == histfile,
    {
        Environment { xdg_data_home, xdg_config_home, histfile, home: home_directory() }
    }
}

/// `name` below the directory `base`.
pub fn join(base: &str, name: &str) -> (r: String)
    ensures
        r@ == join_path(base@, name@),
{
    let n = base.unicode_len();
    if n == 0 {
        return name.to_owned();
    }
    let mut out = base.to_owned();
    if base.get_char(n - 1) != '/' {
        out.push('/');
    }
    out.append(name);
    out
}

/// The data directory.
pub fn get_data_directory(environment: &Environment) -> (r: String)
    ensures
        r@ == data_directory(environment@.0, environment@.3),
{
    match &environment.xdg_data_home {
        Some(x) => join(x.as_str(), "alman"),
        None => {
            let home = match &environment.home {
                Some(h) => h.clone(),
                None => ".".to_owned(),
            };
            let local = join(home.as_str(), ".local");
            let share = join(local.as_str(), "share");
            join(share.as_str(), "alman")
        },
    }
}

/// The configuration directory.
pub fn get_config_directory(environment: &Environment) -> (r: String)
    ensures
        r@ == config_directory(environment@.1, environment@.3),
{
    match &environment.xdg_config_home {
        Some(x) => join(x.as_str(), "alman"),
        None => {
            let home = match &environment.home {
                Some(h) => h.clone(),
                None => ".".to_owned(),
            };
            let config = join(home.as_str(), ".config");
            join(config.as_str(), "alman")
        },
    }
}

/// The path of the file that holds the store.
pub fn get_database_path(environment: &Environment) -> (r: String)
    ensures
        r@ == join_path(data_directory(environment@.0, environment@.3), DB_FILE@),
{
    let directory = get_data_directory(environment);
    join(directory.as_str(), DB_FILE)
}

/// The path of the file that holds the excluded texts.
pub fn get_deleted_commands_path(environment: &Environment) -> (r: String)
    ensures
        r@ == join_path(data_directory(environment@.0, environment@.3), DELETED_COMMANDS_FILE@),
{
    let directory = get_data_directory(environment);
    join(directory.as_str(), DELETED_COMMANDS_FILE)
}

/// The path of the file that holds the configuration.
pub fn get_config_path(environment: &Environment) -> (r: String)
    ensures
        r@ == join_path(config_directory(environment@.1, environment@.3), CONFIG_FILE@),
{
    let directory = get_config_directory(environment);
    join(directory.as_str(), CONFIG_FILE)
}

/// The path of the alias file that is used where none is configured.
pub fn get_default_alias_file_path(environment: &Environment) -> (r: String)
    ensures
        r@ == join_path(config_directory(environment@.1, environment@.3), "aliases"@),
{
    let directory = get_config_directory(environment);
    join(directory.as_str(), "aliases")
}

/// The models of records that were read from a file, if there was a file.
pub open spec fn stored_views(stored: Option<&Vec<Command>>) -> Option<Seq<CommandView>> {
    match stored {
        Some(records) => Some(views(records@)),
        None => None,
    }
}

/// The pool that stored records give: none where there was no file, and
/// otherwise the records at their ranks, unless one is invalid or a text
/// occurs twice.
pub open spec fn restored(stored: Option<Seq<CommandView>>) -> Result<
    Seq<CommandView>,
    StoreError,
> {
    match stored {
        None => Ok(Seq::empty()),
        Some(records) => if !all_valid(records) {
            Err(StoreError::InvalidRecord)
        } else if !distinct_texts(records) {
            Err(StoreError::DuplicateText)
        } else {
            Ok(rebuilt(records))
        },
    }
}

/// What was saved comes back as it was: the records of a store, handed over
/// in the order of the store, give the same pool again.
pub proof fn law_saved_store_loads(pool: Seq<CommandView>)
    requires
        is_pool(pool),
    ensures
        restored(Some(pool)) == Ok::<Seq<CommandView>, StoreError>(pool),
{
    law_rebuilt_in_order(pool);
}

/// Whether the history is wanted for loading: there is no file, or the file
/// holds no record.
pub fn needs_history(stored: Option<&Vec<Command>>) -> (r: bool)
    ensures
        r == match stored {
            Some(records) => records@.len() == 0,
            None => true,
        },
{
    match stored {
        Some(records) => records.len() == 0,
        None => true,
    }
}

/// A store at the start of a session, with what became of the history.
pub struct LoadedDatabase {
    /// The store.
    pub db: CommandStore,
    /// The number of commands that the history held, which is zero where the
    /// history was not asked, or why the history was not taken in.
    pub history: Result<usize, IngestError>,
}

/// The store at the start of a session.
///
/// `stored` holds the records of the store's file, or nothing where there is
/// no file; `history` holds the text of the shell's history file, or nothing
/// where none was found. A store that comes out empty is filled from the
/// history; that a history was too long for the clock is reported beside the
/// store, which is then empty.
///
/// Stored records are held to the data model before they are taken: a list
/// with a record whose length, number of words or score is not that of its
/// text and frequency, or with a text that occurs twice, is refused as a
/// whole, with the fault as the error. A list that is a store, as every list
/// is that `CommandStore::records` gave, is returned as it is.
pub fn load_database(
    stored: Option<&Vec<Command>>,
    deleted_commands: &TombstoneSet,
    history: Option<&str>,
    now: u64,
    program: Option<&str>,
) -> (r: Result<LoadedDatabase, StoreError>)
    requires
        deleted_commands.wf(),
    ensures
        match restored(stored_views(stored)) {
            Err(e) => r == Err::<LoadedDatabase, StoreError>(e),
            Ok(pool) => {
                &&& r matches Ok(loaded)
                &&& loaded.db.wf()
                &&& loaded.db@ == bootstrapped(
                    pool,
                    optional_text(history),
                    now as nat,
                    deleted_commands@,
                    optional_text(program),
                )
                &&& reports(
                    loaded.history,
                    bootstrap_report(pool, optional_text(history), now as nat),
                )
            },
        },
{
    let mut db = match stored {
        None => CommandStore::new(),
        Some(records) => match CommandStore::from_records(records) {
            Ok(db) => db,
            Err(e) => {
                return Err(e);
            },
        },
    };
    let history = initialize_database_from_history(
        &mut db,
        deleted_commands,
        history,
        now,
        program,
    );
    Ok(LoadedDatabase { db, history })
}

/// The excluded texts at the start of a session: those of the file, or none
/// where there is no file.
pub fn load_deleted_commands(stored: Option<&Vec<String>>) -> (r: TombstoneSet)
    ensures
        r.wf(),
        r@ == match stored {
            Some(texts) => members(string_views(texts@)),
            None => Set::<Seq<char>>::empty(),
        },
{
    match stored {
        Some(texts) => TombstoneSet::from_texts(texts),
        None => TombstoneSet::new(),
    }
}

} // verus!
