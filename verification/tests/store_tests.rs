use alman::record::Command;
use alman::score::score;
use alman::store::{precedes, CommandStore, StoreError};
use alman::tombstones::TombstoneSet;

const NOW: u64 = 2_000_000_000;

fn texts(records: &Vec<Command>) -> Vec<String> {
    records.iter().map(|c| c.command_text.clone()).collect()
}

fn check_totals(store: &CommandStore) {
    let all = store.records();
    assert_eq!(store.total_num_commands(), all.len());
    assert_eq!(store.total_score(), all.iter().map(|c| c.score as u128).sum::<u128>());
    for pair in all.windows(2) {
        assert!(precedes(&pair[0], &pair[1]));
        assert!(
            pair[0].score > pair[1].score
                || (pair[0].score == pair[1].score && pair[0].command_text < pair[1].command_text)
        );
    }
}

#[test]
fn new_store_is_empty() {
    let store = CommandStore::new();
    assert!(store.is_empty());
    assert_eq!(store.total_num_commands(), 0);
    assert_eq!(store.total_score(), 0);
    assert!(store.top_n(5).is_empty());
    assert!(!store.contains("git"));
    assert!(store.get("git").is_none());
}

#[test]
fn upsert_of_a_new_text_inserts_a_record() {
    let mut store = CommandStore::new();
    store.upsert("ls -la /tmp", NOW - 10, NOW);
    assert!(!store.is_empty());
    assert!(store.contains("ls -la /tmp"));
    let c = store.get("ls -la /tmp").unwrap();
    assert_eq!(c.frequency, 1);
    assert_eq!(c.last_access_time, NOW - 10);
    assert_eq!(c.length, 9);
    assert_eq!(c.number_of_words, 3);
    assert_eq!(c.score, 14);
    assert_eq!(store.total_num_commands(), 1);
    assert_eq!(store.total_score(), 14);
}

#[test]
fn upsert_of_a_known_text_counts_and_scores_anew() {
    let mut store = CommandStore::new();
    store.upsert("ls -la /tmp", NOW - 700_000, NOW - 700_000);
    assert_eq!(store.get("ls -la /tmp").unwrap().score, 14);
    store.upsert("ls -la /tmp", NOW - 100_000, NOW);
    let c = store.get("ls -la /tmp").unwrap();
    assert_eq!(c.frequency, 2);
    assert_eq!(c.last_access_time, NOW - 100_000);
    // 0.5 * 9^0.6 * 2 = 3.73...
    assert_eq!(c.score, 3);
    assert_eq!(store.total_num_commands(), 1);
    assert_eq!(store.total_score(), 3);
    store.upsert("ls -la /tmp", NOW, NOW);
    let c = store.get("ls -la /tmp").unwrap();
    assert_eq!(c.frequency, 3);
    assert_eq!(c.last_access_time, NOW);
    assert_eq!(c.score, 44);
    check_totals(&store);
}

#[test]
fn frequency_stays_at_the_largest_number() {
    let mut records = Vec::new();
    let mut c = Command::new("git status", u64::MAX, NOW, NOW);
    c.frequency = u64::MAX;
    records.push(c);
    let mut store = CommandStore::from_records(&records).unwrap();
    store.upsert("git status", NOW, NOW);
    assert_eq!(store.get("git status").unwrap().frequency, u64::MAX);
}

#[test]
fn ranking_is_by_score_then_text() {
    let mut store = CommandStore::new();
    store.upsert("bbb", NOW, NOW);
    store.upsert("aaa", NOW, NOW);
    store.upsert("ccc", NOW, NOW);
    store.upsert("a long command line", NOW, NOW);
    store.upsert("old one", NOW - 1_000_000, NOW);
    assert_eq!(
        texts(&store.records()),
        vec!["a long command line", "aaa", "bbb", "ccc", "old one"]
    );
    store.upsert("ccc", NOW, NOW);
    assert_eq!(
        texts(&store.records()),
        vec!["a long command line", "ccc", "aaa", "bbb", "old one"]
    );
    store.upsert("old one", NOW, NOW);
    store.upsert("old one", NOW, NOW);
    store.upsert("old one", NOW, NOW);
    assert_eq!(texts(&store.top_n(1)), vec!["old one"]);
    check_totals(&store);
}

#[test]
fn top_n_gives_the_first_n_or_all() {
    let mut store = CommandStore::new();
    for (i, t) in ["one", "two", "three", "four", "five"].iter().enumerate() {
        for _ in 0..=i {
            store.upsert(t, NOW, NOW);
        }
    }
    assert_eq!(texts(&store.top_n(0)), Vec::<String>::new());
    assert_eq!(texts(&store.top_n(2)), vec!["five", "four"]);
    assert_eq!(store.top_n(5).len(), 5);
    assert_eq!(store.top_n(6).len(), 5);
    assert_eq!(store.top_n(usize::MAX).len(), 5);
    assert_eq!(texts(&store.top_n(100)), texts(&store.records()));
    let top = store.top_n(5);
    for pair in top.windows(2) {
        assert!(precedes(&pair[0], &pair[1]));
    }
}

#[test]
fn remove_deletes_the_record() {
    let mut store = CommandStore::new();
    store.upsert("git status", NOW, NOW);
    store.upsert("git log", NOW, NOW);
    store.upsert("make", NOW, NOW);
    let before = store.total_score();
    let gone = store.get("git log").unwrap().score as u128;
    assert!(store.remove("git log"));
    assert!(!store.contains("git log"));
    assert!(store.contains("git status"));
    assert!(store.contains("make"));
    assert_eq!(store.total_num_commands(), 2);
    assert_eq!(store.total_score(), before - gone);
    check_totals(&store);
}

#[test]
fn remove_of_an_unknown_text_changes_nothing() {
    let mut store = CommandStore::new();
    store.upsert("git status", NOW, NOW);
    let before = texts(&store.records());
    assert!(!store.remove("git log"));
    assert_eq!(texts(&store.records()), before);
    assert_eq!(store.total_num_commands(), 1);
    check_totals(&store);
}

#[test]
fn removed_text_starts_again_at_one() {
    let mut store = CommandStore::new();
    store.upsert("git status", NOW, NOW);
    store.upsert("git status", NOW, NOW);
    store.remove("git status");
    store.upsert("git status", NOW, NOW);
    assert_eq!(store.get("git status").unwrap().frequency, 1);
}

#[test]
fn precedes_orders_by_score_then_text() {
    let a = Command::new("aaa", 1, NOW, NOW);
    let b = Command::new("bbb", 1, NOW, NOW);
    let high = Command::new("bbb", 5, NOW, NOW);
    assert_eq!(a.score, b.score);
    assert!(precedes(&a, &b));
    assert!(!precedes(&b, &a));
    assert!(!precedes(&a, &a));
    assert!(precedes(&high, &a));
    assert!(!precedes(&a, &high));
}

#[test]
fn records_come_back_as_they_were_saved() {
    let mut store = CommandStore::new();
    let mut t = NOW - 2_000_000;
    for line in ["git status", "git log", "make test", "git status", "cargo build", "ls", "git log", "git status"] {
        store.upsert(line, t, t);
        t += 300_000;
    }
    let saved = store.records();
    let loaded = CommandStore::from_records(&saved).unwrap();
    let again = loaded.records();
    assert_eq!(texts(&again), texts(&saved));
    for (a, b) in again.iter().zip(saved.iter()) {
        assert_eq!(a.score, b.score);
        assert_eq!(a.frequency, b.frequency);
        assert_eq!(a.last_access_time, b.last_access_time);
        assert_eq!(a.length, b.length);
        assert_eq!(a.number_of_words, b.number_of_words);
    }
    assert_eq!(loaded.total_num_commands(), store.total_num_commands());
    assert_eq!(loaded.total_score(), store.total_score());
    check_totals(&loaded);
}

#[test]
fn records_in_any_order_are_ranked() {
    let records = vec![
        Command::new("low", 1, NOW - 1_000_000, NOW),
        Command::new("high", 9, NOW, NOW),
        Command::new("mid b", 2, NOW, NOW),
        Command::new("mid a", 2, NOW, NOW),
    ];
    let store = CommandStore::from_records(&records).unwrap();
    assert_eq!(texts(&store.records()), vec!["high", "mid a", "mid b", "low"]);
    check_totals(&store);
}

#[test]
fn no_records_give_the_empty_store() {
    let store = CommandStore::from_records(&Vec::new()).unwrap();
    assert!(store.is_empty());
    assert_eq!(store.total_score(), 0);
}

#[test]
fn invalid_record_is_refused() {
    let mut bad = Command::new("git status", 1, NOW, NOW);
    bad.length = 3;
    let records = vec![Command::new("make", 1, NOW, NOW), bad];
    assert_eq!(CommandStore::from_records(&records).err(), Some(StoreError::InvalidRecord));
}

#[test]
fn duplicate_text_is_refused() {
    let records = vec![
        Command::new("make", 1, NOW, NOW),
        Command::new("git status", 1, NOW, NOW),
        Command::new("make", 4, NOW, NOW),
    ];
    assert_eq!(CommandStore::from_records(&records).err(), Some(StoreError::DuplicateText));
}

#[test]
fn invalid_record_is_reported_before_a_duplicate() {
    let mut bad = Command::new("make", 1, NOW, NOW);
    bad.frequency = 0;
    let records = vec![Command::new("make", 1, NOW, NOW), Command::new("make", 1, NOW, NOW), bad];
    assert_eq!(CommandStore::from_records(&records).err(), Some(StoreError::InvalidRecord));
}

#[test]
fn score_of_a_record_is_computed_at_insertion() {
    let mut store = CommandStore::new();
    store.upsert("docker compose up", NOW - 90_000, NOW);
    let c = store.get("docker compose up").unwrap();
    assert_eq!(c.score, score(c.length, c.frequency, c.last_access_time, NOW));
    assert_eq!(c.length, 15);
    assert_eq!(c.score, 2);
}

#[test]
fn tombstones_only_grow() {
    let mut set = TombstoneSet::new();
    assert!(!set.contains("git status"));
    set.add("git status");
    assert!(set.contains("git status"));
    assert!(!set.contains("git"));
    assert!(!set.contains("git status "));
    set.add("make");
    set.add("git status");
    set.add("a");
    assert!(set.contains("make"));
    assert!(set.contains("a"));
    assert_eq!(set.texts(), vec!["a", "git status", "make"]);
}

#[test]
fn tombstones_from_texts() {
    let texts = vec![String::from("zz"), String::from("aa"), String::from("zz"), String::from("mm")];
    let set = TombstoneSet::from_texts(&texts);
    assert_eq!(set.texts(), vec!["aa", "mm", "zz"]);
    assert!(set.contains("aa"));
    assert!(!set.contains("bb"));
    let empty = TombstoneSet::from_texts(&Vec::new());
    assert!(empty.texts().is_empty());
}

#[test]
fn many_updates_keep_the_store_in_order() {
    let words = ["git", "make", "cargo", "ls", "docker", "kubectl", "ssh", "vim"];
    let tails = ["", " status", " build", " -la", " run --rm", " test"];
    let mut store = CommandStore::new();
    let mut expected: std::collections::BTreeMap<String, (u64, u64)> =
        std::collections::BTreeMap::new();
    let mut seed: u64 = 12345;
    for step in 0..600u64 {
        seed = seed.wrapping_mul(6364136223846793005).wrapping_add(1442695040888963407);
        let w = words[((seed >> 33) % words.len() as u64) as usize];
        let t = tails[((seed >> 17) % tails.len() as u64) as usize];
        let text = format!("{}{}", w, t);
        let age = (seed >> 40) % 1_000_000;
        if (seed >> 7) % 5 == 0 {
            assert_eq!(store.remove(&text), expected.remove(&text).is_some());
        } else {
            store.upsert(&text, NOW - age, NOW);
            let entry = expected.entry(text).or_insert((0, 0));
            entry.0 += 1;
            entry.1 = NOW - age;
        }
        if step % 50 == 0 {
            check_totals(&store);
        }
    }
    check_totals(&store);
    assert_eq!(store.total_num_commands(), expected.len());
    for (text, (frequency, last)) in expected.iter() {
        let c = store.get(text).unwrap();
        assert_eq!(c.frequency, *frequency);
        assert_eq!(c.last_access_time, *last);
        assert_eq!(c.score, score(c.length, c.frequency, c.last_access_time, NOW));
        assert!(store.contains(text));
    }
    assert!(!store.contains("never seen"));
}
