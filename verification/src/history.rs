//! Reading shell history: from the text of a history file to the commands in
//! it, newest first.
//!
//! Three line formats are told apart line by line: the extended format
//! `: <time>:<duration>;<command>`, the marker format `- cmd:<command>`, and
//! plain lines that hold nothing but the command.

use vstd::prelude::*;
use crate::text::{
    all_plain, all_plain_chars, copy_range, find_char, from_chars, has_prefix, index_of,
    lemma_trim, lines_of, split_lines, string_views, to_chars, trim, trimmed, word_views,
};

verus! {

/// Whether a trimmed line is a comment or a shell setting and holds no command.
pub open spec fn is_metadata(line: Seq<char>) -> bool {
    ||| "#"@.is_prefix_of(line)
    ||| "HISTTIMEFORMAT"@.is_prefix_of(line)
    ||| "HISTSIZE"@.is_prefix_of(line)
    ||| "HISTFILESIZE"@.is_prefix_of(line)
}

/// The command that a history line holds, or the empty text where it holds none.
///
/// A line that starts with `": "` and holds a `;` is an extended record: the
/// command is what follows the first `;`, trimmed, unless that is empty or
/// starts with `:`. A line that starts with `"- cmd:"` holds the command
/// behind that marker, trimmed. A line that starts with `#` holds none. Any
/// other line is the command. A command with a character that is neither
/// ASCII nor whitespace is not taken.
pub open spec fn extract_command(line: Seq<char>) -> Seq<char> {
    if ": "@.is_prefix_of(line) && index_of(line, ';') < line.len() {
        let part = trim(line.skip(index_of(line, ';') + 1));
        if part.len() > 0 && part[0] != ':' && all_plain(part) {
            part
        } else {
            Seq::empty()
        }
    } else if "- cmd:"@.is_prefix_of(line) {
        let part = trim(line.skip("- cmd:"@.len() as int));
        if all_plain(part) {
            part
        } else {
            Seq::empty()
        }
    } else if "#"@.is_prefix_of(line) {
        Seq::empty()
    } else if all_plain(line) {
        line
    } else {
        Seq::empty()
    }
}

/// The command that one line of a history file gives, if it gives one.
///
/// A line with a character that is neither ASCII nor whitespace gives none,
/// nor does an empty line or a line of metadata. Of the others the command is
/// kept where it is longer than two characters.
pub open spec fn line_command(line: Seq<char>) -> Option<Seq<char>> {
    let t = trim(line);
    if !all_plain(line) || t.len() == 0 || is_metadata(t) {
        None
    } else {
        let c = extract_command(t);
        if c.len() > 2 {
            Some(c)
        } else {
            None
        }
    }
}

/// The commands of the given lines, the last line's first.
pub open spec fn kept(lines: Seq<Seq<char>>) -> Seq<Seq<char>>
    decreases lines.len(),
{
    if lines.len() == 0 {
        Seq::empty()
    } else {
        match line_command(lines.last()) {
            Some(c) => seq![c] + kept(lines.drop_last()),
            None => kept(lines.drop_last()),
        }
    }
}

/// The commands of a history file, newest first.
pub open spec fn commands_of(content: Seq<char>) -> Seq<Seq<char>> {
    kept(split_lines(content))
}

/// The numbers of those of the given lines that are rejected for a character
/// that is neither ASCII nor whitespace. The first line has the number 1; the
/// numbers come in the order in which the lines are read, the last line's
/// first.
pub open spec fn rejected(lines: Seq<Seq<char>>) -> Seq<nat>
    decreases lines.len(),
{
    if lines.len() == 0 {
        Seq::empty()
    } else if !all_plain(lines.last()) {
        seq![lines.len()] + rejected(lines.drop_last())
    } else {
        rejected(lines.drop_last())
    }
}

/// The numbers of the rejected lines of a history file.
pub open spec fn rejected_of(content: Seq<char>) -> Seq<nat> {
    rejected(split_lines(content))
}

/// The numbers of a sequence of machine numbers.
pub open spec fn numbers(v: Seq<usize>) -> Seq<nat> {
    Seq::new(v.len(), |i: int| v[i] as nat)
}

/// What holds of every command that is read from a history: it is longer
/// than two characters, has no character that is neither ASCII nor
/// whitespace, and has no whitespace at either end.
pub open spec fn is_normalized(command: Seq<char>) -> bool {
    command.len() > 2 && all_plain(command) && trim(command) == command
}

/// The command of a line is normalized.
pub proof fn lemma_line_command_is_normalized(line: Seq<char>)
    ensures
        line_command(line) matches Some(c) ==> is_normalized(c),
{
    let t = trim(line);
    lemma_trim(line);
    if ": "@.is_prefix_of(t) && index_of(t, ';') < t.len() {
        lemma_trim(t.skip(index_of(t, ';') + 1));
    } else if "- cmd:"@.is_prefix_of(t) {
        lemma_trim(t.skip("- cmd:"@.len() as int));
    }
}

/// Every command of a history is normalized.
pub proof fn law_commands_are_normalized(content: Seq<char>)
    ensures
        forall|i: int|
            0 <= i < commands_of(content).len() ==> is_normalized(
                #[trigger] commands_of(content)[i],
            ),
{
    lemma_kept_are_normalized(split_lines(content));
}

/// Every command that is kept of the given lines is normalized.
pub proof fn lemma_kept_are_normalized(lines: Seq<Seq<char>>)
    ensures
        forall|i: int| 0 <= i < kept(lines).len() ==> is_normalized(#[trigger] kept(lines)[i]),
    decreases lines.len(),
{
    if lines.len() > 0 {
        let rest = kept(lines.drop_last());
        lemma_kept_are_normalized(lines.drop_last());
        lemma_line_command_is_normalized(lines.last());
        assert forall|i: int| 0 <= i < kept(lines).len() implies is_normalized(
            #[trigger] kept(lines)[i],
        ) by {
            match line_command(lines.last()) {
                Some(c) => {
                    if i > 0 {
                        assert(kept(lines)[i] == rest[i - 1]);
                    }
                },
                None => {},
            }
        }
    }
}

fn is_metadata_line(line: &Vec<char>) -> (r: bool)
    ensures
        r == is_metadata(line@),
{
    has_prefix(line, &to_chars("#")) || has_prefix(line, &to_chars("HISTTIMEFORMAT"))
        || has_prefix(line, &to_chars("HISTSIZE")) || has_prefix(line, &to_chars("HISTFILESIZE"))
}

fn extract_chars(line: &Vec<char>) -> (r: Vec<char>)
    ensures
        r@ == extract_command(line@),
{
    if has_prefix(line, &to_chars(": ")) {
        let semicolon = find_char(line, ';');
        if semicolon < line.len() {
            let rest = copy_range(line, semicolon + 1, line.len());
            let part = trimmed(&rest);
            if part.len() > 0 && part[0] != ':' && all_plain_chars(&part) {
                return part;
            }
            return Vec::new();
        }
    }
    let marker = to_chars("- cmd:");
    if has_prefix(line, &marker) {
        let rest = copy_range(line, marker.len(), line.len());
        let part = trimmed(&rest);
        if all_plain_chars(&part) {
            return part;
        }
        return Vec::new();
    }
    if has_prefix(line, &to_chars("#")) {
        return Vec::new();
    }
    if all_plain_chars(line) {
        copy_range(line, 0, line.len())
    } else {
        Vec::new()
    }
}

/// The command that the history line `line` holds, or the empty string where
/// it holds none.
pub fn extract_command_from_history_line(line: &str) -> (r: String)
    ensures
        r@ == extract_command(line@),
{
    let chars = to_chars(line);
    let command = extract_chars(&chars);
    from_chars(&command)
}

fn command_of_line(line: &Vec<char>) -> (r: Option<Vec<char>>)
    ensures
        match r {
            Some(c) => line_command(line@) == Some(c@),
            None => line_command(line@) is None,
        },
{
    if !all_plain_chars(line) {
        return None;
    }
    let t = trimmed(line);
    if t.len() == 0 || is_metadata_line(&t) {
        return None;
    }
    let c = extract_chars(&t);
    if c.len() > 2 {
        Some(c)
    } else {
        None
    }
}

/// The lines of a history file that are rejected because they hold a
/// character that is neither ASCII nor whitespace: their numbers, counted from
/// the first line of the file as 1, in the order in which the lines are read,
/// the last line's first. Such a line gives no command; the caller may report it.
pub fn rejected_lines(content: &str) -> (r: Vec<usize>)
    ensures
        numbers(r@) == rejected_of(content@),
{
    let chars = to_chars(content);
    let lines = lines_of(&chars);
    let ghost all = word_views(lines@);
    let mut found: Vec<usize> = Vec::new();
    let mut i: usize = lines.len();
    assert(all.take(i as int) =~= all);
    assert(numbers(found@) + rejected(all) =~= rejected(all));
    while i > 0
        invariant
            i <= lines@.len(),
            all == word_views(lines@),
            numbers(found@) + rejected(all.take(i as int)) == rejected(all),
        decreases i,
    {
        let ghost before = numbers(found@);
        let ghost upto = all.take(i as int);
        assert(upto.drop_last() =~= all.take(i - 1));
        assert(upto.last() == lines@[i - 1]@);
        if !all_plain_chars(&lines[i - 1]) {
            found.push(i);
            assert(numbers(found@) =~= before.push(i as nat));
            assert(before.push(i as nat) + rejected(all.take(i - 1)) =~= before + (seq![
                i as nat,
            ] + rejected(all.take(i - 1))));
        }
        i -= 1;
    }
    assert(rejected(all.take(0)) =~= Seq::<nat>::empty());
    assert(numbers(found@) + Seq::<nat>::empty() =~= numbers(found@));
    found
}

/// The commands of a history file, newest first: the lines are gone through
/// from the last to the first.
pub fn parse_history_file(content: &str) -> (r: Vec<String>)
    ensures
        string_views(r@) == commands_of(content@),
        forall|i: int| 0 <= i < r@.len() ==> is_normalized(#[trigger] r@[i]@),
{
    let chars = to_chars(content);
    let lines = lines_of(&chars);
    let ghost all = word_views(lines@);
    let mut commands: Vec<String> = Vec::new();
    let mut i: usize = lines.len();
    assert(all.take(i as int) =~= all);
    assert(string_views(commands@) + kept(all) =~= kept(all));
    while i > 0
        invariant
            i <= lines@.len(),
            all == word_views(lines@),
            string_views(commands@) + kept(all.take(i as int)) == kept(all),
        decreases i,
    {
        let ghost before = string_views(commands@);
        let ghost upto = all.take(i as int);
        assert(upto.drop_last() =~= all.take(i - 1));
        assert(upto.last() == lines@[i - 1]@);
        i -= 1;
        match command_of_line(&lines[i]) {
            Some(c) => {
                let command = from_chars(&c);
                commands.push(command);
                assert(string_views(commands@) =~= before.push(c@));
                assert(before.push(c@) + kept(all.take(i as int)) =~= before + (seq![c@] + kept(
                    all.take(i as int),
                )));
            },
            None => {},
        }
    }
    assert(kept(all.take(0)) =~= Seq::<Seq<char>>::empty());
    assert(string_views(commands@) + Seq::<Seq<char>>::empty() =~= string_views(commands@));
    proof {
        law_commands_are_normalized(content@);
        assert forall|i: int| 0 <= i < commands@.len() implies is_normalized(
            #[trigger] commands@[i]@,
        ) by {
            assert(string_views(commands@)[i] == commands@[i]@);
            assert(commands_of(content@)[i] == commands@[i]@);
        }
    }
    commands
}

} // verus!
