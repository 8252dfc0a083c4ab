//! A scored candidate and its mathematical model.

use vstd::prelude::*;
use crate::score::{is_possible, is_possible_score, score, spec_score, MAX_SCORE};
use crate::text::{measure, to_chars, token_count, token_length};

verus! {

/// A scored candidate for an alias.
pub struct Command {
    pub score: u64,
    pub last_access_time: u64,
    pub frequency: u64,
    pub length: u64,
    pub command_text: String,
    pub number_of_words: u64,
}

/// The model of a [`Command`].
pub struct CommandView {
    pub score: nat,
    pub last_access_time: nat,
    pub frequency: nat,
    pub length: nat,
    pub text: Seq<char>,
    pub number_of_words: nat,
}

impl View for Command {
    type V = CommandView;

    open spec fn view(&self) -> CommandView {
        CommandView {
            score: self.score as nat,
            last_access_time: self.last_access_time as nat,
            frequency: self.frequency as nat,
            length: self.length as nat,
            text: self.command_text@,
            number_of_words: self.number_of_words as nat,
        }
    }
}

impl CommandView {
    /// The derived fields agree with the text, the record was seen at least
    /// once, and the score is the one that the length and the frequency give
    /// at some age.
    pub open spec fn valid(self) -> bool {
        &&& self.length == token_length(self.text)
        &&& self.number_of_words == token_count(self.text)
        &&& 1 <= self.frequency <= u64::MAX
        &&& self.score <= MAX_SCORE
        &&& is_possible_score(self.score, self.length, self.frequency)
    }

    /// The score is the one that the other fields give at the moment `now`.
    pub open spec fn scored_at(self, now: nat) -> bool {
        self.score == spec_score(self.length, self.frequency, now - self.last_access_time)
    }
}

/// The record of `text` seen `frequency` times, last at `timestamp`, scored at `now`.
pub open spec fn record_of(text: Seq<char>, frequency: nat, timestamp: nat, now: nat) -> CommandView {
    CommandView {
        score: spec_score(token_length(text), frequency, now - timestamp),
        last_access_time: timestamp,
        frequency,
        length: token_length(text),
        text,
        number_of_words: token_count(text),
    }
}

impl Command {
    /// The record of `text` seen `frequency` times, last at `timestamp`, scored at `now`.
    pub fn new(text: &str, frequency: u64, timestamp: u64, now: u64) -> (c: Command)
        ensures
            c@ == record_of(text@, frequency as nat, timestamp as nat, now as nat),
            frequency >= 1 ==> c@.valid(),
    {
        let chars = to_chars(text);
        let (length, number_of_words) = measure(&chars);
        Command {
            score: score(length, frequency, timestamp, now),
            last_access_time: timestamp,
            frequency,
            length,
            command_text: text.to_owned(),
            number_of_words,
        }
    }

    /// A copy of the record.
    pub fn copy(&self) -> (c: Command)
        ensures
            c@ == self@,
    {
        Command {
            score: self.score,
            last_access_time: self.last_access_time,
            frequency: self.frequency,
            length: self.length,
            command_text: self.command_text.clone(),
            number_of_words: self.number_of_words,
        }
    }

    /// Whether the derived fields agree with the text, the record was seen
    /// at least once, and the score is a possible one.
    pub fn is_valid(&self) -> (r: bool)
        ensures
            r == self@.valid(),
    {
        let chars = to_chars(self.command_text.as_str());
        let (length, number_of_words) = measure(&chars);
        self.length == length && self.number_of_words == number_of_words && self.frequency >= 1
            && self.score <= MAX_SCORE && is_possible(self.score, self.length, self.frequency)
    }
}

/// The score of `command` at the moment `now`:
/// `floor(decay * length^0.6 * frequency)`, where the decay is 4 for a record
/// seen within the last hour, 2 within the last day, 0.5 within the last week
/// and 0.25 after that.
pub fn calculate_score(command: &Command, now: u64) -> (s: u64)
    ensures
        s == spec_score(
            command@.length,
            command@.frequency,
            now - command@.last_access_time,
        ),
        s <= MAX_SCORE,
{
    score(command.length, command.frequency, command.last_access_time, now)
}

/// The record of a text seen once, at `timestamp`, scored at `now`.
pub fn create_prefix_command(command_text: &str, timestamp: u64, now: u64) -> (c: Command)
    ensures
        c@ == record_of(command_text@, 1, timestamp as nat, now as nat),
        c@.valid(),
{
    Command::new(command_text, 1, timestamp, now)
}

} // verus!
