use alman::history::parse_history_file;
use alman::ingest::{
    expand_prefixes, ingest_commands, initialize_database_from_history,
    insert_command_with_timestamp, IngestError, HISTORY_INTERVAL,
};
use alman::record::Command;
use alman::store::CommandStore;
use alman::tombstones::TombstoneSet;

const NOW: u64 = 2_000_000_000;

fn texts(store: &CommandStore) -> Vec<String> {
    let mut all: Vec<String> = store.records().iter().map(|c| c.command_text.clone()).collect();
    all.sort();
    all
}

fn frequency(store: &CommandStore, text: &str) -> u64 {
    store.get(text).map(|c: Command| c.frequency).unwrap_or(0)
}

#[test]
fn command_enters_with_its_prefixes() {
    let mut store = CommandStore::new();
    let none = TombstoneSet::new();
    insert_command_with_timestamp("git commit -m test", NOW, NOW, &mut store, &none, None);
    assert_eq!(
        texts(&store),
        vec!["git", "git commit", "git commit -m", "git commit -m test"]
    );
    for t in ["git", "git commit", "git commit -m", "git commit -m test"] {
        let c = store.get(t).unwrap();
        assert_eq!(c.frequency, 1);
        assert_eq!(c.last_access_time, NOW);
    }
    assert!(!store.contains(""));
    assert_eq!(store.total_num_commands(), 4);
}

#[test]
fn short_prefixes_stay_out() {
    let mut store = CommandStore::new();
    let none = TombstoneSet::new();
    insert_command_with_timestamp("ls -la /tmp", NOW, NOW, &mut store, &none, None);
    assert_eq!(texts(&store), vec!["ls -la", "ls -la /tmp"]);
    assert!(!store.contains("ls"));
}

#[test]
fn extended_line_is_counted_once_each_time() {
    let commands = parse_history_file(": 1700000000:0;ls -la /tmp");
    assert_eq!(commands, vec!["ls -la /tmp"]);
    let mut store = CommandStore::new();
    let none = TombstoneSet::new();
    insert_command_with_timestamp(&commands[0], NOW - 700_000, NOW - 700_000, &mut store, &none, None);
    let first = store.get("ls -la /tmp").unwrap();
    assert_eq!(first.frequency, 1);
    assert_eq!(first.score, 14);
    insert_command_with_timestamp(&commands[0], NOW - 50, NOW, &mut store, &none, None);
    let second = store.get("ls -la /tmp").unwrap();
    assert_eq!(second.frequency, 2);
    assert_eq!(second.last_access_time, NOW - 50);
    assert_eq!(second.score, 29);
    assert_eq!(frequency(&store, "ls -la"), 2);
}

#[test]
fn short_or_single_word_commands_are_rejected() {
    let mut store = CommandStore::new();
    let none = TombstoneSet::new();
    for c in ["", "l", "ls -l", "a b c", "singleword", "longsingleword", "     ", "ab   "] {
        insert_command_with_timestamp(c, NOW, NOW, &mut store, &none, None);
        assert!(store.is_empty(), "{:?}", c);
    }
    insert_command_with_timestamp("ls -la", NOW, NOW, &mut store, &none, None);
    assert_eq!(texts(&store), vec!["ls -la"]);
}

#[test]
fn excluded_command_is_skipped() {
    let mut store = CommandStore::new();
    let mut gone = TombstoneSet::new();
    gone.add("git push --force");
    insert_command_with_timestamp("git push --force", NOW, NOW, &mut store, &gone, None);
    assert!(store.is_empty());
    insert_command_with_timestamp("git pull --rebase", NOW, NOW, &mut store, &gone, None);
    assert!(!store.contains("git push --force"));
    assert!(store.contains("git pull --rebase"));
}

#[test]
fn excluded_text_never_enters_from_history() {
    let mut gone = TombstoneSet::new();
    gone.add("rm -rf build");
    let history = "rm -rf build\nmake all\nrm -rf build\n: 1:0;rm -rf build\n- cmd: rm -rf build\n";
    let mut store = CommandStore::new();
    let r = initialize_database_from_history(&mut store, &gone, Some(history), NOW, None);
    assert_eq!(r, Ok(5));
    assert!(!store.contains("rm -rf build"));
    assert_eq!(texts(&store), vec!["make", "make all"]);
}

#[test]
fn commands_of_the_program_itself_are_skipped() {
    let mut store = CommandStore::new();
    let none = TombstoneSet::new();
    insert_command_with_timestamp("alman add -c x y", NOW, NOW, &mut store, &none, Some("alman"));
    assert!(store.is_empty());
    insert_command_with_timestamp("almanac add -c x", NOW, NOW, &mut store, &none, Some("alman"));
    assert!(store.contains("almanac add -c x"));
    insert_command_with_timestamp("git alman status", NOW, NOW, &mut store, &none, Some("alman"));
    assert!(store.contains("git alman status"));
}

#[test]
fn uneven_spacing_keeps_the_command_and_its_prefixes() {
    let mut store = CommandStore::new();
    let none = TombstoneSet::new();
    insert_command_with_timestamp("git   commit", NOW, NOW, &mut store, &none, None);
    assert_eq!(texts(&store), vec!["git", "git   commit", "git commit"]);
    assert_eq!(frequency(&store, "git commit"), 1);
    assert_eq!(frequency(&store, "git   commit"), 1);
}

#[test]
fn history_is_dated_backwards_from_now() {
    assert_eq!(HISTORY_INTERVAL, 120);
    let history = "cargo build --release\ngit status --short\nmake test\n";
    let mut store = CommandStore::new();
    let none = TombstoneSet::new();
    let r = initialize_database_from_history(&mut store, &none, Some(history), NOW, None);
    assert_eq!(r, Ok(3));
    assert_eq!(store.get("make test").unwrap().last_access_time, NOW);
    assert_eq!(store.get("git status --short").unwrap().last_access_time, NOW - 120);
    assert_eq!(store.get("cargo build --release").unwrap().last_access_time, NOW - 240);
    assert_eq!(store.get("cargo build").unwrap().last_access_time, NOW - 240);
}

#[test]
fn repeated_commands_add_up() {
    let history = "git status -s\ngit log -n 5\ngit status -s\ngit status -s\n";
    let mut store = CommandStore::new();
    let none = TombstoneSet::new();
    let r = initialize_database_from_history(&mut store, &none, Some(history), NOW, None);
    assert_eq!(r, Ok(4));
    assert_eq!(frequency(&store, "git status -s"), 3);
    assert_eq!(frequency(&store, "git status"), 3);
    assert_eq!(frequency(&store, "git"), 4);
    assert_eq!(frequency(&store, "git log -n 5"), 1);
    // the oldest occurrence is taken in last
    assert_eq!(store.get("git status -s").unwrap().last_access_time, NOW - 360);
    assert_eq!(store.get("git").unwrap().last_access_time, NOW - 360);
}

#[test]
fn filled_store_is_left_alone() {
    let mut store = CommandStore::new();
    store.upsert("make test", NOW, NOW);
    let none = TombstoneSet::new();
    let r = initialize_database_from_history(&mut store, &none, Some("git status -s\n"), NOW, None);
    assert_eq!(r, Ok(0));
    assert_eq!(texts(&store), vec!["make test"]);
}

#[test]
fn empty_history_leaves_the_store_empty() {
    let mut store = CommandStore::new();
    let none = TombstoneSet::new();
    assert_eq!(initialize_database_from_history(&mut store, &none, Some(""), NOW, None), Ok(0));
    assert_eq!(initialize_database_from_history(&mut store, &none, Some("ls\n#x\n"), 0, None), Ok(0));
    assert!(store.is_empty());
}

#[test]
fn history_that_outlasts_the_clock_is_refused() {
    let history = "git status -s\ngit log -n 5\ngit diff --stat\n";
    let mut store = CommandStore::new();
    let none = TombstoneSet::new();
    let r = initialize_database_from_history(&mut store, &none, Some(history), 239, None);
    assert_eq!(r, Err(IngestError::HistoryOutlastsClock));
    assert!(store.is_empty());
    let r = initialize_database_from_history(&mut store, &none, Some(history), 240, None);
    assert_eq!(r, Ok(3));
    assert_eq!(store.get("git status -s").unwrap().last_access_time, 0);
    assert_eq!(store.get("git diff --stat").unwrap().last_access_time, 240);
}

#[test]
fn commands_are_taken_in_order() {
    let commands = vec![String::from("git status -s"), String::from("make test")];
    let mut store = CommandStore::new();
    store.upsert("make test", NOW - 5000, NOW);
    let none = TombstoneSet::new();
    ingest_commands(&commands, NOW, &mut store, &none, None);
    assert_eq!(store.get("git status -s").unwrap().last_access_time, NOW);
    assert_eq!(store.get("make test").unwrap().last_access_time, NOW - 120);
    assert_eq!(frequency(&store, "make test"), 2);
    ingest_commands(&Vec::new(), 0, &mut store, &none, None);
    assert_eq!(store.total_num_commands(), 5);
}

#[test]
fn excluded_prefix_stays_out() {
    let mut gone = TombstoneSet::new();
    gone.add("git commit");
    let mut store = CommandStore::new();
    insert_command_with_timestamp("git commit", NOW, NOW, &mut store, &gone, None);
    assert!(store.is_empty());
    insert_command_with_timestamp("git commit -m test", NOW, NOW, &mut store, &gone, None);
    assert_eq!(texts(&store), vec!["git", "git commit -m", "git commit -m test"]);
    assert!(!store.contains("git commit"));
}

#[test]
fn excluded_texts_never_enter_from_a_history() {
    let mut gone = TombstoneSet::new();
    for t in ["git", "git commit", "make test", "ls -la /tmp"] {
        gone.add(t);
    }
    let history = "git commit -m one\nmake test\nmake test now\nls -la /tmp\ngit commit\n: 1:0;git commit -m two\n- cmd: ls -la /tmp/x\n";
    let mut store = CommandStore::new();
    let r = initialize_database_from_history(&mut store, &gone, Some(history), NOW, None);
    assert_eq!(r, Ok(7));
    for t in ["git", "git commit", "make test", "ls -la /tmp"] {
        assert!(!store.contains(t), "{:?}", t);
    }
    assert_eq!(
        texts(&store),
        vec![
            "git commit -m",
            "git commit -m one",
            "git commit -m two",
            "ls -la",
            "ls -la /tmp/x",
            "make",
            "make test now"
        ]
    );
    assert_eq!(frequency(&store, "git commit -m"), 2);
}

#[test]
fn no_history_is_no_work() {
    let mut store = CommandStore::new();
    let none = TombstoneSet::new();
    assert_eq!(initialize_database_from_history(&mut store, &none, None, NOW, None), Ok(0));
    assert!(store.is_empty());
    assert_eq!(initialize_database_from_history(&mut store, &none, None, 0, Some("alman")), Ok(0));
    assert!(store.is_empty());
}

#[test]
fn prefixes_are_runs_of_leading_words() {
    assert_eq!(
        expand_prefixes("git commit -m test"),
        vec!["git", "git commit", "git commit -m", "git commit -m test"]
    );
    assert_eq!(expand_prefixes("ls -la /tmp"), vec!["ls -la", "ls -la /tmp"]);
    assert_eq!(expand_prefixes("a b c"), vec!["a b", "a b c"]);
    assert_eq!(expand_prefixes("git   commit"), vec!["git", "git commit", "git   commit"]);
    assert_eq!(expand_prefixes(" git commit "), vec!["git", "git commit", " git commit "]);
    assert_eq!(expand_prefixes("make"), vec!["make"]);
    assert_eq!(expand_prefixes("ls"), Vec::<String>::new());
    assert_eq!(expand_prefixes("l"), Vec::<String>::new());
    assert_eq!(expand_prefixes(""), Vec::<String>::new());
    assert_eq!(expand_prefixes("a b"), vec!["a b"]);
    assert_eq!(expand_prefixes("a  b"), vec!["a b", "a  b"]);
}
