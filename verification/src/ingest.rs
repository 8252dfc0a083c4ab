//! From commands to candidates in the store.
//!
//! Every command that passes the filters enters the store together with its
//! prefixes: the first word, the first two words, and so on, each joined by
//! single spaces and taken where it is longer than two characters. A text
//! that is excluded never enters, neither as a command nor as a prefix.

use vstd::prelude::*;
use crate::history::{commands_of, parse_history_file};
use crate::pool::{
    frequency_of, has_text, is_pool, lemma_upserted_pool, position_of, upserted,
};
use crate::record::CommandView;
use crate::store::CommandStore;
use crate::text::{
    append_chars, from_chars, joined, law_words_hold_no_whitespace, lemma_joined_grows,
    lemma_tokens_of_joined, same_chars, split_words, string_views, to_chars, tokens, word_views,
};
use crate::tombstones::TombstoneSet;

verus! {

/// The seconds between the times given to two neighbouring commands of a history.
pub const HISTORY_INTERVAL: u64 = 120;

/// Why a history was not taken in.
#[derive(Debug, Clone, Copy, PartialEq, Eq, Structural)]
pub enum IngestError {
    /// The history is so long that its oldest command would be dated before
    /// the start of the clock.
    HistoryOutlastsClock,
}

/// The text of an optional string.
pub open spec fn optional_text(name: Option<&str>) -> Option<Seq<char>> {
    match name {
        Some(n) => Some(n@),
        None => None,
    }
}

/// Of the prefixes of one up to `k` words, those longer than two characters.
pub open spec fn prefix_candidates(words: Seq<Seq<char>>, k: nat) -> Seq<Seq<char>>
    decreases k,
{
    if k == 0 {
        Seq::empty()
    } else {
        let shorter = prefix_candidates(words, (k - 1) as nat);
        let prefix = joined(words.take(k as int));
        if prefix.len() > 2 {
            shorter.push(prefix)
        } else {
            shorter
        }
    }
}

/// The texts that a command offers to the store, in the order in which they
/// enter: its prefixes and the command itself, each where it is longer than
/// two characters. A command that is its own last prefix stands once.
pub open spec fn candidates(command: Seq<char>) -> Seq<Seq<char>> {
    let words = tokens(command);
    let prefixes = prefix_candidates(words, words.len());
    if command.len() > 2 && joined(words) != command {
        prefixes.push(command)
    } else {
        prefixes
    }
}

/// Of the given texts those that are not excluded, in their order.
pub open spec fn admitted(texts: Seq<Seq<char>>, excluded: Set<Seq<char>>) -> Seq<Seq<char>>
    decreases texts.len(),
{
    if texts.len() == 0 {
        Seq::empty()
    } else if excluded.contains(texts.last()) {
        admitted(texts.drop_last(), excluded)
    } else {
        admitted(texts.drop_last(), excluded).push(texts.last())
    }
}

/// Whether a command is taken in: it is not excluded, has at least two words
/// and more than five characters, and does not start with the name of the
/// program itself.
pub open spec fn accepted(
    command: Seq<char>,
    excluded: Set<Seq<char>>,
    program: Option<Seq<char>>,
) -> bool {
    &&& command.len() > 5
    &&& !excluded.contains(command)
    &&& tokens(command).len() > 1
    &&& (program matches Some(name) ==> tokens(command)[0] != name)
}

/// The pool after each of `texts` was seen once, in order.
pub open spec fn upserted_all(
    s: Seq<CommandView>,
    texts: Seq<Seq<char>>,
    timestamp: nat,
    now: nat,
) -> Seq<CommandView>
    decreases texts.len(),
{
    if texts.len() == 0 {
        s
    } else {
        upserted(upserted_all(s, texts.drop_last(), timestamp, now), texts.last(), timestamp, now)
    }
}

/// The pool after one command was offered to it: a command that is taken in
/// leaves one occurrence of each of its candidates that is not excluded.
pub open spec fn ingested(
    s: Seq<CommandView>,
    command: Seq<char>,
    timestamp: nat,
    now: nat,
    excluded: Set<Seq<char>>,
    program: Option<Seq<char>>,
) -> Seq<CommandView> {
    if accepted(command, excluded, program) {
        upserted_all(s, admitted(candidates(command), excluded), timestamp, now)
    } else {
        s
    }
}

/// Whether the clock can date a history of the given number of commands: the
/// oldest command is dated at zero or later.
pub open spec fn clock_reaches(count: nat, now: nat) -> bool {
    HISTORY_INTERVAL * (count - 1) <= now
}

/// A pool at the start of a session: an empty pool takes in the history,
/// where there is one that the clock can date; any other pool stays as it is.
pub open spec fn bootstrapped(
    pool: Seq<CommandView>,
    history: Option<Seq<char>>,
    now: nat,
    excluded: Set<Seq<char>>,
    program: Option<Seq<char>>,
) -> Seq<CommandView> {
    match history {
        Some(h) => if pool.len() == 0 && clock_reaches(commands_of(h).len(), now) {
            ingested_all(pool, commands_of(h), now, excluded, program)
        } else {
            pool
        },
        None => pool,
    }
}

/// What the start of a session reports of the history: the number of commands
/// that it held, which is zero where there is no history or the pool holds a
/// record, or that the history is too long for the clock.
pub open spec fn bootstrap_report(
    pool: Seq<CommandView>,
    history: Option<Seq<char>>,
    now: nat,
) -> Result<nat, IngestError> {
    match history {
        Some(h) => if pool.len() > 0 {
            Ok(0)
        } else if !clock_reaches(commands_of(h).len(), now) {
            Err(IngestError::HistoryOutlastsClock)
        } else {
            Ok(commands_of(h).len())
        },
        None => Ok(0),
    }
}

/// Whether a result stands for a report.
pub open spec fn reports(r: Result<usize, IngestError>, report: Result<nat, IngestError>) -> bool {
    match r {
        Ok(n) => report == Ok::<nat, IngestError>(n as nat),
        Err(e) => report == Err::<nat, IngestError>(e),
    }
}

/// The pool after the commands of a history, newest first, were offered to
/// it: the first is dated `now`, each following one `HISTORY_INTERVAL`
/// seconds earlier.
pub open spec fn ingested_all(
    s: Seq<CommandView>,
    commands: Seq<Seq<char>>,
    now: nat,
    excluded: Set<Seq<char>>,
    program: Option<Seq<char>>,
) -> Seq<CommandView>
    decreases commands.len(),
{
    if commands.len() == 0 {
        s
    } else {
        ingested(
            ingested_all(s, commands.drop_last(), now, excluded, program),
            commands.last(),
            (now - HISTORY_INTERVAL * (commands.len() - 1)) as nat,
            now,
            excluded,
            program,
        )
    }
}

/// Every prefix candidate is longer than two characters and is a run of
/// leading words, joined.
pub proof fn lemma_prefix_candidates(words: Seq<Seq<char>>, k: nat)
    requires
        k <= words.len(),
    ensures
        forall|i: int|
            0 <= i < prefix_candidates(words, k).len() ==> (#[trigger] prefix_candidates(
                words,
                k,
            )[i]).len() > 2 && exists|j: int|
                1 <= j <= k && prefix_candidates(words, k)[i] == #[trigger] joined(words.take(j)),
    decreases k,
{
    if k > 0 {
        lemma_prefix_candidates(words, (k - 1) as nat);
        let shorter = prefix_candidates(words, (k - 1) as nat);
        let all = prefix_candidates(words, k);
        let prefix = joined(words.take(k as int));
        assert forall|i: int| 0 <= i < all.len() implies (#[trigger] all[i]).len() > 2
            && exists|j: int| 1 <= j <= k && all[i] == #[trigger] joined(words.take(j)) by {
            if i < shorter.len() {
                assert(all[i] == shorter[i]);
                let j = choose|j: int|
                    1 <= j <= k - 1 && shorter[i] == #[trigger] joined(words.take(j));
                assert(all[i] == joined(words.take(j)));
            } else {
                assert(all[i] == prefix);
            }
        }
    }
}

/// A command stands once among its candidates: at the end.
pub proof fn lemma_command_stands_once(command: Seq<char>)
    requires
        command.len() > 2,
    ensures
        candidates(command).len() > 0,
        candidates(command).last() == command,
        !candidates(command).drop_last().contains(command),
{
    let words = tokens(command);
    let n = words.len();
    let prefixes = prefix_candidates(words, n);
    let all = candidates(command);
    lemma_command_is_candidate(command);
    law_words_hold_no_whitespace(command);
    let rest = all.drop_last();
    if rest.contains(command) {
        let i = choose|i: int| 0 <= i < rest.len() && rest[i] == command;
        assert(all[i] == command);
        if joined(words) == command {
            // the candidates are the prefixes, and the last of them is the command
            assert(words.take(n as int) =~= words);
            assert(prefixes == prefix_candidates(words, (n - 1) as nat).push(command));
            assert(rest =~= prefix_candidates(words, (n - 1) as nat));
            lemma_prefix_candidates(words, (n - 1) as nat);
            let j = choose|j: int|
                1 <= j <= n - 1 && rest[i] == #[trigger] joined(words.take(j));
            lemma_joined_grows(words, j, n as int);
        } else {
            assert(rest =~= prefixes);
            lemma_prefix_candidates(words, n);
            let j = choose|j: int| 1 <= j <= n && rest[i] == #[trigger] joined(words.take(j));
            let run = words.take(j);
            assert forall|m: int| 0 <= m < run.len() implies crate::text::is_word(
                #[trigger] run[m],
            ) by {
                assert(run[m] == words[m]);
            }
            lemma_tokens_of_joined(run);
            assert(run.len() == n);
            assert(run =~= words);
        }
    }
}

/// The admitted texts are those of the given texts that are not excluded.
pub proof fn lemma_admitted(texts: Seq<Seq<char>>, excluded: Set<Seq<char>>)
    ensures
        forall|x: Seq<char>|
            #[trigger] admitted(texts, excluded).contains(x) <==> texts.contains(x)
                && !excluded.contains(x),
    decreases texts.len(),
{
    let all = admitted(texts, excluded);
    if texts.len() > 0 {
        let before = texts.drop_last();
        let kept = admitted(before, excluded);
        let last = texts.last();
        lemma_admitted(before, excluded);
        assert forall|x: Seq<char>| #[trigger] all.contains(x) <==> texts.contains(x)
            && !excluded.contains(x) by {
            assert(kept.contains(x) <==> before.contains(x) && !excluded.contains(x));
            assert(before.contains(x) ==> texts.contains(x)) by {
                if before.contains(x) {
                    let j = choose|j: int| 0 <= j < before.len() && before[j] == x;
                    assert(texts[j] == x);
                }
            }
            assert(texts.contains(x) ==> before.contains(x) || x == last) by {
                if texts.contains(x) {
                    let j = choose|j: int| 0 <= j < texts.len() && texts[j] == x;
                    if j < before.len() {
                        assert(before[j] == x);
                    }
                }
            }
            assert(texts[texts.len() - 1] == last);
            if excluded.contains(last) {
                assert(all == kept);
            } else {
                assert(all == kept.push(last));
                assert(all[all.len() - 1] == last);
                assert(kept.contains(x) ==> all.contains(x)) by {
                    if kept.contains(x) {
                        let i = choose|i: int| 0 <= i < kept.len() && kept[i] == x;
                        assert(all[i] == x);
                    }
                }
                assert(all.contains(x) ==> kept.contains(x) || x == last) by {
                    if all.contains(x) {
                        let i = choose|i: int| 0 <= i < all.len() && all[i] == x;
                        if i < kept.len() {
                            assert(kept[i] == x);
                        }
                    }
                }
            }
        }
    }
}

/// A command that is taken in counts once: its frequency grows by one, and
/// its record holds the time of this occurrence and the score of this moment.
pub proof fn law_command_counts_once(
    s: Seq<CommandView>,
    command: Seq<char>,
    timestamp: nat,
    now: nat,
    excluded: Set<Seq<char>>,
    program: Option<Seq<char>>,
)
    requires
        is_pool(s),
        accepted(command, excluded, program),
        frequency_of(s, command) < u64::MAX,
    ensures
        ({
            let after = ingested(s, command, timestamp, now, excluded, program);
            &&& has_text(after, command)
            &&& frequency_of(after, command) == frequency_of(s, command) + 1
            &&& after[position_of(after, command)].last_access_time == timestamp
            &&& after[position_of(after, command)].scored_at(now)
        }),
{
    let texts = candidates(command);
    lemma_command_stands_once(command);
    let before = admitted(texts.drop_last(), excluded);
    lemma_admitted(texts.drop_last(), excluded);
    assert(admitted(texts, excluded) == before.push(command));
    assert(before.push(command).drop_last() =~= before);
    let mid = upserted_all(s, before, timestamp, now);
    lemma_upserted_all_pool(s, before, timestamp, now);
    lemma_upserted_pool(mid, command, timestamp, now);
}

/// A command that is taken in twice, the second time later, has its frequency
/// raised by one each time, and holds the time of the second occurrence.
pub proof fn law_command_taken_in_twice(
    s: Seq<CommandView>,
    command: Seq<char>,
    t1: nat,
    now1: nat,
    t2: nat,
    now2: nat,
    excluded: Set<Seq<char>>,
    program: Option<Seq<char>>,
)
    requires
        is_pool(s),
        accepted(command, excluded, program),
        frequency_of(s, command) + 2 <= u64::MAX,
        t1 < t2,
    ensures
        ({
            let once = ingested(s, command, t1, now1, excluded, program);
            let twice = ingested(once, command, t2, now2, excluded, program);
            &&& frequency_of(once, command) == frequency_of(s, command) + 1
            &&& frequency_of(twice, command) == frequency_of(s, command) + 2
            &&& has_text(twice, command)
            &&& twice[position_of(twice, command)].last_access_time == t2
        }),
{
    law_command_counts_once(s, command, t1, now1, excluded, program);
    lemma_ingested_pool(s, command, t1, now1, excluded, program);
    law_command_counts_once(
        ingested(s, command, t1, now1, excluded, program),
        command,
        t2,
        now2,
        excluded,
        program,
    );
}

/// Any number of occurrences leaves a pool.
pub proof fn lemma_upserted_all_pool(
    s: Seq<CommandView>,
    texts: Seq<Seq<char>>,
    timestamp: nat,
    now: nat,
)
    requires
        is_pool(s),
    ensures
        is_pool(upserted_all(s, texts, timestamp, now)),
        forall|other: Seq<char>|
            !texts.contains(other) ==> has_text(upserted_all(s, texts, timestamp, now), other)
                == has_text(s, other) && frequency_of(
                upserted_all(s, texts, timestamp, now),
                other,
            ) == frequency_of(s, other),
        forall|i: int|
            0 <= i < texts.len() ==> has_text(
                upserted_all(s, texts, timestamp, now),
                #[trigger] texts[i],
            ),
    decreases texts.len(),
{
    if texts.len() > 0 {
        let before = texts.drop_last();
        let mid = upserted_all(s, before, timestamp, now);
        lemma_upserted_all_pool(s, before, timestamp, now);
        lemma_upserted_pool(mid, texts.last(), timestamp, now);
        assert forall|other: Seq<char>| !texts.contains(other) implies has_text(
            upserted_all(s, texts, timestamp, now),
            other,
        ) == has_text(s, other) && frequency_of(upserted_all(s, texts, timestamp, now), other)
            == frequency_of(s, other) by {
            assert(texts[texts.len() - 1] == texts.last());
            assert(other != texts.last());
            if before.contains(other) {
                let j = choose|j: int| 0 <= j < before.len() && before[j] == other;
                assert(texts[j] == other);
            }
        }
        assert forall|i: int| 0 <= i < texts.len() implies has_text(
            upserted_all(s, texts, timestamp, now),
            #[trigger] texts[i],
        ) by {
            if i < before.len() && texts[i] != texts.last() {
                assert(before[i] == texts[i]);
            }
        }
    }
}

/// Offering a command leaves a pool.
pub proof fn lemma_ingested_pool(
    s: Seq<CommandView>,
    command: Seq<char>,
    timestamp: nat,
    now: nat,
    excluded: Set<Seq<char>>,
    program: Option<Seq<char>>,
)
    requires
        is_pool(s),
    ensures
        is_pool(ingested(s, command, timestamp, now, excluded, program)),
{
    if accepted(command, excluded, program) {
        lemma_upserted_all_pool(s, admitted(candidates(command), excluded), timestamp, now);
    }
}

/// Offering a history leaves a pool.
pub proof fn lemma_ingested_all_pool(
    s: Seq<CommandView>,
    commands: Seq<Seq<char>>,
    now: nat,
    excluded: Set<Seq<char>>,
    program: Option<Seq<char>>,
)
    requires
        is_pool(s),
    ensures
        is_pool(ingested_all(s, commands, now, excluded, program)),
    decreases commands.len(),
{
    if commands.len() > 0 {
        lemma_ingested_all_pool(s, commands.drop_last(), now, excluded, program);
        lemma_ingested_pool(
            ingested_all(s, commands.drop_last(), now, excluded, program),
            commands.last(),
            (now - HISTORY_INTERVAL * (commands.len() - 1)) as nat,
            now,
            excluded,
            program,
        );
    }
}

/// A command that is taken in leaves a record of itself and of each of its
/// other candidates that is not excluded.
pub proof fn law_candidates_enter(
    s: Seq<CommandView>,
    command: Seq<char>,
    timestamp: nat,
    now: nat,
    excluded: Set<Seq<char>>,
    program: Option<Seq<char>>,
)
    requires
        is_pool(s),
        accepted(command, excluded, program),
    ensures
        has_text(ingested(s, command, timestamp, now, excluded, program), command),
        forall|i: int|
            0 <= i < candidates(command).len() && !excluded.contains(candidates(command)[i])
                ==> has_text(
                ingested(s, command, timestamp, now, excluded, program),
                #[trigger] candidates(command)[i],
            ),
{
    let texts = candidates(command);
    let taken = admitted(texts, excluded);
    lemma_admitted(texts, excluded);
    lemma_upserted_all_pool(s, taken, timestamp, now);
    lemma_command_is_candidate(command);
    assert forall|i: int| 0 <= i < texts.len() && !excluded.contains(texts[i]) implies has_text(
        upserted_all(s, taken, timestamp, now),
        #[trigger] texts[i],
    ) by {
        assert(texts.contains(texts[i]));
        assert(taken.contains(texts[i]));
        let k = choose|k: int| 0 <= k < taken.len() && taken[k] == texts[i];
        assert(has_text(upserted_all(s, taken, timestamp, now), taken[k]));
    }
    let i = choose|i: int| 0 <= i < texts.len() && texts[i] == command;
    assert(has_text(upserted_all(s, taken, timestamp, now), texts[i]));
}

/// A command of more than two characters is the last of its candidates.
pub proof fn lemma_command_is_candidate(command: Seq<char>)
    requires
        command.len() > 2,
    ensures
        candidates(command).len() > 0,
        candidates(command).last() == command,
        exists|i: int| 0 <= i < candidates(command).len() && candidates(command)[i] == command,
{
    let words = tokens(command);
    let prefixes = prefix_candidates(words, words.len());
    if joined(words) == command {
        assert(words.len() > 0);
        assert(words.take(words.len() as int) =~= words);
        assert(prefixes.last() == command);
    }
    let all = candidates(command);
    assert(all[all.len() - 1] == command);
}

/// An excluded text that the store does not hold stays out of it, whatever
/// history is taken in: neither the text itself, where it stands in the
/// history as a command, nor a command that starts with it brings it in.
pub proof fn law_excluded_text_stays_out(
    s: Seq<CommandView>,
    commands: Seq<Seq<char>>,
    now: nat,
    excluded: Set<Seq<char>>,
    program: Option<Seq<char>>,
    text: Seq<char>,
)
    requires
        is_pool(s),
        excluded.contains(text),
        !has_text(s, text),
    ensures
        !has_text(ingested_all(s, commands, now, excluded, program), text),
    decreases commands.len(),
{
    if commands.len() > 0 {
        let before = commands.drop_last();
        law_excluded_text_stays_out(s, before, now, excluded, program, text);
        let mid = ingested_all(s, before, now, excluded, program);
        lemma_ingested_all_pool(s, before, now, excluded, program);
        let last = commands[commands.len() - 1];
        if accepted(last, excluded, program) {
            lemma_admitted(candidates(last), excluded);
            lemma_upserted_all_pool(
                mid,
                admitted(candidates(last), excluded),
                (now - HISTORY_INTERVAL * (commands.len() - 1)) as nat,
                now,
            );
        }
    }
}

/// An excluded text that an empty store meets in the history of a session is
/// not in the store afterwards.
pub proof fn law_bootstrap_keeps_excluded_out(
    history: Option<Seq<char>>,
    now: nat,
    excluded: Set<Seq<char>>,
    program: Option<Seq<char>>,
    text: Seq<char>,
)
    requires
        excluded.contains(text),
    ensures
        !has_text(
            bootstrapped(Seq::<CommandView>::empty(), history, now, excluded, program),
            text,
        ),
{
    let empty = Seq::<CommandView>::empty();
    crate::pool::lemma_position_of(empty, text);
    if history is Some {
        law_excluded_text_stays_out(empty, commands_of(history->0), now, excluded, program, text);
    }
}

/// The candidates of the text `chars`, whose words are `parts`.
fn candidates_of(chars: &Vec<char>, parts: &Vec<Vec<char>>) -> (r: Vec<String>)
    requires
        word_views(parts@) == tokens(chars@),
    ensures
        string_views(r@) == candidates(chars@),
{
    let ghost words = tokens(chars@);
    let mut out: Vec<String> = Vec::new();
    let mut temp: Vec<char> = Vec::new();
    let mut k: usize = 0;
    assert(words.take(0) =~= Seq::<Seq<char>>::empty());
    assert(string_views(out@) =~= prefix_candidates(words, 0));
    while k < parts.len()
        invariant
            k <= parts@.len(),
            words == word_views(parts@),
            temp@ == joined(words.take(k as int)),
            string_views(out@) == prefix_candidates(words, k as nat),
        decreases parts@.len() - k,
    {
        proof {
            let next = words.take(k + 1);
            assert(next.drop_last() =~= words.take(k as int));
            assert(next.last() == parts@[k as int]@);
            if k == 0 {
                assert(next[0] == parts@[0]@);
            }
        }
        if k > 0 {
            temp.push(' ');
        }
        let ghost spaced = temp@;
        append_chars(&mut temp, &parts[k]);
        proof {
            if k == 0 {
                assert(spaced + parts@[0]@ =~= parts@[0]@);
            }
        }
        if temp.len() > 2 {
            let ghost listed = string_views(out@);
            out.push(from_chars(&temp));
            assert(string_views(out@) =~= listed.push(temp@));
        }
        k += 1;
    }
    assert(words.take(parts@.len() as int) =~= words);
    if chars.len() > 2 && !same_chars(&temp, chars) {
        let ghost listed = string_views(out@);
        out.push(from_chars(chars));
        assert(string_views(out@) =~= listed.push(chars@));
    }
    out
}

/// The texts that `command` offers to the store: each run of its leading
/// words, joined by single spaces, and the command itself, each where it is
/// longer than two characters.
pub fn expand_prefixes(command: &str) -> (r: Vec<String>)
    ensures
        string_views(r@) == candidates(command@),
{
    let chars = to_chars(command);
    let parts = split_words(&chars);
    candidates_of(&chars, &parts)
}

/// Takes one command in: unless it is excluded, has fewer than two words or
/// no more than five characters, or starts with `program`, each of its
/// candidates that is not excluded is recorded once in `db`, dated
/// `timestamp` and scored at `now`. No excluded text is ever recorded.
pub fn insert_command_with_timestamp(
    command: &str,
    timestamp: u64,
    now: u64,
    db: &mut CommandStore,
    deleted_commands: &TombstoneSet,
    program: Option<&str>,
)
    requires
        old(db).wf(),
        deleted_commands.wf(),
    ensures
        final(db).wf(),
        final(db)@ == ingested(
            old(db)@,
            command@,
            timestamp as nat,
            now as nat,
            deleted_commands@,
            optional_text(program),
        ),
{
    let chars = to_chars(command);
    if chars.len() <= 5 || deleted_commands.contains(command) {
        return ;
    }
    let parts = split_words(&chars);
    if parts.len() <= 1 {
        return ;
    }
    if let Some(name) = program {
        let name_chars = to_chars(name);
        assert(word_views(parts@)[0] == parts@[0]@);
        if same_chars(&parts[0], &name_chars) {
            return ;
        }
    }
    let texts = candidates_of(&chars, &parts);
    let ghost start = db@;
    let ghost all = string_views(texts@);
    let mut i: usize = 0;
    assert(all.take(0) =~= Seq::<Seq<char>>::empty());
    while i < texts.len()
        invariant
            i <= texts@.len(),
            all == string_views(texts@),
            db.wf(),
            deleted_commands.wf(),
            db@ == upserted_all(
                start,
                admitted(all.take(i as int), deleted_commands@),
                timestamp as nat,
                now as nat,
            ),
        decreases texts@.len() - i,
    {
        proof {
            let next = all.take(i + 1);
            assert(next.drop_last() =~= all.take(i as int));
            assert(next.last() == texts@[i as int]@);
        }
        if !deleted_commands.contains(texts[i].as_str()) {
            let ghost taken = admitted(all.take(i as int), deleted_commands@);
            db.upsert(texts[i].as_str(), timestamp, now);
            assert(taken.push(texts@[i as int]@).drop_last() =~= taken);
        }
        i += 1;
    }
    assert(all.take(texts@.len() as int) =~= all);
}

/// Takes in the commands of a history, newest first: the first is dated
/// `now`, each following one `HISTORY_INTERVAL` seconds earlier.
pub fn ingest_commands(
    commands: &Vec<String>,
    now: u64,
    db: &mut CommandStore,
    deleted_commands: &TombstoneSet,
    program: Option<&str>,
)
    requires
        old(db).wf(),
        deleted_commands.wf(),
        commands@.len() > 0 ==> HISTORY_INTERVAL * (commands@.len() - 1) <= now,
    ensures
        final(db).wf(),
        final(db)@ == ingested_all(
            old(db)@,
            string_views(commands@),
            now as nat,
            deleted_commands@,
            optional_text(program),
        ),
{
    let ghost start = db@;
    let ghost all = string_views(commands@);
    let mut i: usize = 0;
    assert(all.take(0) =~= Seq::<Seq<char>>::empty());
    while i < commands.len()
        invariant
            i <= commands@.len(),
            all == string_views(commands@),
            commands@.len() > 0 ==> HISTORY_INTERVAL * (commands@.len() - 1) <= now,
            db.wf(),
            deleted_commands.wf(),
            db@ == ingested_all(
                start,
                all.take(i as int),
                now as nat,
                deleted_commands@,
                optional_text(program),
            ),
        decreases commands@.len() - i,
    {
        proof {
            let next = all.take(i + 1);
            assert(next.drop_last() =~= all.take(i as int));
            assert(next.last() == commands@[i as int]@);
            assert(HISTORY_INTERVAL * i <= HISTORY_INTERVAL * (commands@.len() - 1))
                by (nonlinear_arith)
                requires
                    i <= commands@.len() - 1,
            ;
        }
        let back: u64 = HISTORY_INTERVAL * (i as u64);
        let timestamp: u64 = now - back;
        insert_command_with_timestamp(
            commands[i].as_str(),
            timestamp,
            now,
            db,
            deleted_commands,
            program,
        );
        i += 1;
    }
    assert(all.take(commands@.len() as int) =~= all);
}

/// Fills an empty store from the text of the shell's history file and says
/// how many commands the file held.
///
/// Where no history file was found, `history` is `None`: nothing is taken in,
/// and the result is `Ok(0)`. A store that holds a record is left as it is,
/// with `Ok(0)`. A store is also left as it is where the history is too long
/// for the clock, so that its oldest command would be dated before zero; the
/// result then says so.
pub fn initialize_database_from_history(
    db: &mut CommandStore,
    deleted_commands: &TombstoneSet,
    history: Option<&str>,
    now: u64,
    program: Option<&str>,
) -> (r: Result<usize, IngestError>)
    requires
        old(db).wf(),
        deleted_commands.wf(),
    ensures
        final(db).wf(),
        final(db)@ == bootstrapped(
            old(db)@,
            optional_text(history),
            now as nat,
            deleted_commands@,
            optional_text(program),
        ),
        reports(r, bootstrap_report(old(db)@, optional_text(history), now as nat)),
{
    let text = match history {
        Some(text) => text,
        None => {
            return Ok(0);
        },
    };
    if !db.is_empty() {
        return Ok(0);
    }
    let commands = parse_history_file(text);
    let count = commands.len();
    if count > 0 && (count - 1) as u64 > now / HISTORY_INTERVAL {
        return Err(IngestError::HistoryOutlastsClock);
    }
    ingest_commands(&commands, now, db, deleted_commands, program);
    Ok(count)
}

} // verus!
