//! The command store: every candidate once, in rank order, with its totals.

use vstd::prelude::*;
use crate::index::{
    index_ascending, index_matches, indexed, indexed_score, lemma_index_insert,
    lemma_index_remove, lemma_slot_is, slot_of, EntryView,
};
use crate::pool::{
    all_valid, bumped, distinct_texts, frequency_of, has_text, insert_position, is_pool,
    law_top_is_ranked, lemma_has_text, lemma_insert_position_is, lemma_insert_position_of_key,
    lemma_placed_pool, lemma_position_of, lemma_ranks_transitive, lemma_rebuilt_pool,
    lemma_record_rank, lemma_record_valid, lemma_remove_pool, lemma_sum_bound, lemma_sum_remove,
    placed, position_of, rank_key, ranked, ranks_before, rebuilt, removed, score_of, sum_scores,
    top, upserted,
};
use crate::rank::{lemma_text_before_transitive, text_before, text_precedes};
use crate::record::{Command, CommandView};
use crate::score::MAX_SCORE;

verus! {

/// The models of a sequence of records.
pub open spec fn views(v: Seq<Command>) -> Seq<CommandView> {
    Seq::new(v.len(), |i: int| v[i]@)
}

/// Why a list of records is no store.
#[derive(Debug, Clone, Copy, PartialEq, Eq, Structural)]
pub enum StoreError {
    /// A record's length or number of words is not that of its text, its
    /// frequency is zero, or its score is none that its fields can give.
    InvalidRecord,
    /// Two records have the same text.
    DuplicateText,
}

/// An entry of the lookup index.
struct IndexEntry {
    text: String,
    score: u64,
}

/// The models of the entries of an index.
spec fn entries(v: Seq<IndexEntry>) -> Seq<EntryView> {
    Seq::new(v.len(), |i: int| EntryView { text: v[i].text@, score: v[i].score as nat })
}

/// The ranked pool of candidates. Its view is the sequence of its records in
/// rank order: by score, highest first, and among equal scores by text.
///
/// Beside the records in rank order the store keeps a lookup index, in the
/// order of the texts, that leads from a text to the rank of its record.
pub struct CommandStore {
    command_list: Vec<Command>,
    reverse_command_map: Vec<IndexEntry>,
    total_num_commands: usize,
    total_score: u128,
}

impl View for CommandStore {
    type V = Seq<CommandView>;

    closed spec fn view(&self) -> Seq<CommandView> {
        views(self.command_list@)
    }
}

/// Whether `a` ranks strictly before `b`.
pub fn precedes(a: &Command, b: &Command) -> (r: bool)
    ensures
        r == ranks_before(a@, b@),
{
    a.score > b.score || (a.score == b.score && text_precedes(
        a.command_text.as_str(),
        b.command_text.as_str(),
    ))
}

/// Whether `a` ranks strictly before a record with the given score and text.
fn precedes_key(a: &Command, score: u64, text: &str) -> (r: bool)
    ensures
        r == ranks_before(a@, rank_key(score as nat, text@)),
{
    a.score > score || (a.score == score && text_precedes(a.command_text.as_str(), text))
}

impl CommandStore {
    /// The stored number of records.
    pub closed spec fn counted(&self) -> nat {
        self.total_num_commands as nat
    }

    /// The stored sum of the scores.
    pub closed spec fn summed(&self) -> nat {
        self.total_score as nat
    }

    /// The lookup index.
    pub closed spec fn index(&self) -> Seq<EntryView> {
        entries(self.reverse_command_map@)
    }

    /// The records are in rank order, no text occurs twice, every record is
    /// valid, the keys of the lookup index are the texts of the records, and
    /// the stored totals are those of the records.
    pub open spec fn wf(&self) -> bool {
        &&& is_pool(self@)
        &&& index_matches(self.index(), self@)
        &&& self.counted() == self@.len()
        &&& self.summed() == sum_scores(self@)
    }

    /// The empty store.
    pub fn new() -> (r: CommandStore)
        ensures
            r.wf(),
            r@ == Seq::<CommandView>::empty(),
    {
        let r = CommandStore {
            command_list: Vec::new(),
            reverse_command_map: Vec::new(),
            total_num_commands: 0,
            total_score: 0,
        };
        assert(r@ =~= Seq::<CommandView>::empty());
        assert(r.index() =~= Seq::<EntryView>::empty());
        r
    }

    /// The number of records.
    pub fn total_num_commands(&self) -> (n: usize)
        ensures
            n == self.counted(),
    {
        self.total_num_commands
    }

    /// The sum of the scores of all records.
    pub fn total_score(&self) -> (t: u128)
        ensures
            t == self.summed(),
    {
        self.total_score
    }

    /// Whether the store holds no record.
    pub fn is_empty(&self) -> (r: bool)
        ensures
            r == (self@.len() == 0),
    {
        self.command_list.len() == 0
    }

    /// The slot of `text` in the lookup index, by bisection.
    fn slot(&self, text: &str) -> (q: usize)
        requires
            index_ascending(self.index()),
        ensures
            q == slot_of(self.index(), text@),
            q <= self.reverse_command_map@.len(),
    {
        let ghost ix = self.index();
        let mut low: usize = 0;
        let mut high: usize = self.reverse_command_map.len();
        while low < high
            invariant
                ix == self.index(),
                index_ascending(ix),
                low <= high <= self.reverse_command_map@.len(),
                forall|j: int| 0 <= j < low ==> text_before((#[trigger] ix[j]).text, text@),
                forall|j: int| high <= j < ix.len() ==> !text_before((#[trigger] ix[j]).text, text@),
            decreases high - low,
        {
            let mid: usize = low + (high - low) / 2;
            if text_precedes(self.reverse_command_map[mid].text.as_str(), text) {
                assert forall|j: int| 0 <= j < mid + 1 implies text_before(
                    (#[trigger] ix[j]).text,
                    text@,
                ) by {
                    if j < mid {
                        assert(text_before(ix[j].text, ix[mid as int].text));
                        lemma_text_before_transitive(ix[j].text, ix[mid as int].text, text@);
                    }
                }
                low = mid + 1;
            } else {
                assert forall|j: int| mid <= j < ix.len() implies !text_before(
                    (#[trigger] ix[j]).text,
                    text@,
                ) by {
                    if j > mid && text_before(ix[j].text, text@) {
                        assert(text_before(ix[mid as int].text, ix[j].text));
                        lemma_text_before_transitive(ix[mid as int].text, ix[j].text, text@);
                    }
                }
                high = mid;
            }
        }
        proof {
            lemma_slot_is(ix, text@, low as int);
        }
        low
    }

    /// The rank that a record with the given score and text takes, by bisection.
    fn rank_of(&self, score: u64, text: &str) -> (k: usize)
        requires
            ranked(self@),
        ensures
            k == insert_position(self@, rank_key(score as nat, text@)),
            k <= self.command_list@.len(),
    {
        let ghost s = self@;
        let ghost key = rank_key(score as nat, text@);
        let mut low: usize = 0;
        let mut high: usize = self.command_list.len();
        while low < high
            invariant
                s == self@,
                ranked(s),
                key == rank_key(score as nat, text@),
                low <= high <= self.command_list@.len(),
                forall|j: int| 0 <= j < low ==> ranks_before(#[trigger] s[j], key),
                forall|j: int| high <= j < s.len() ==> !ranks_before(#[trigger] s[j], key),
            decreases high - low,
        {
            let mid: usize = low + (high - low) / 2;
            if precedes_key(&self.command_list[mid], score, text) {
                assert forall|j: int| 0 <= j < mid + 1 implies ranks_before(
                    #[trigger] s[j],
                    key,
                ) by {
                    if j < mid {
                        assert(ranks_before(s[j], s[mid as int]));
                        lemma_ranks_transitive(s[j], s[mid as int], key);
                    }
                }
                low = mid + 1;
            } else {
                assert forall|j: int| mid <= j < s.len() implies !ranks_before(
                    #[trigger] s[j],
                    key,
                ) by {
                    if j > mid && ranks_before(s[j], key) {
                        assert(ranks_before(s[mid as int], s[j]));
                        lemma_ranks_transitive(s[mid as int], s[j], key);
                    }
                }
                high = mid;
            }
        }
        proof {
            lemma_insert_position_is(s, key, low as int);
        }
        low
    }

    /// Where the record of `text` stands: its slot in the lookup index and
    /// its rank, if the store holds one.
    fn locate(&self, text: &str) -> (r: Option<(usize, usize)>)
        requires
            self.wf(),
        ensures
            match r {
                Some((q, p)) => {
                    &&& has_text(self@, text@)
                    &&& q == slot_of(self.index(), text@)
                    &&& q < self.reverse_command_map@.len()
                    &&& p == position_of(self@, text@)
                    &&& p < self.command_list@.len()
                },
                None => !has_text(self@, text@),
            },
    {
        let q = self.slot(text);
        let key = text.to_owned();
        if q < self.reverse_command_map.len() && self.reverse_command_map[q].text == key {
            assert(self.index()[q as int].text == text@);
            assert(indexed(self.index(), text@));
            assert(indexed_score(self.index(), text@) == score_of(self@, text@));
            let p = self.rank_of(self.reverse_command_map[q].score, text);
            proof {
                lemma_record_rank(self@, text@);
                lemma_position_of(self@, text@);
            }
            Some((q, p))
        } else {
            if q < self.reverse_command_map.len() {
                assert(self.index()[q as int].text != text@);
            }
            assert(!indexed(self.index(), text@));
            None
        }
    }

    /// Whether the store holds a record of `text`.
    pub fn contains(&self, text: &str) -> (r: bool)
        requires
            self.wf(),
        ensures
            r == has_text(self@, text@),
    {
        self.locate(text).is_some()
    }

    /// A copy of the record of `text`, if the store holds one.
    pub fn get(&self, text: &str) -> (r: Option<Command>)
        requires
            self.wf(),
        ensures
            match r {
                Some(c) => has_text(self@, text@) && c@ == self@[position_of(self@, text@)],
                None => !has_text(self@, text@),
            },
    {
        match self.locate(text) {
            Some((_, p)) => Some(self.command_list[p].copy()),
            None => None,
        }
    }

    /// Takes the record at rank `p`, whose entry stands at slot `q`, out of
    /// the store.
    fn take_out(&mut self, q: usize, p: usize) -> (c: Command)
        requires
            old(self).wf(),
            p < old(self).command_list@.len(),
            q == slot_of(old(self).index(), old(self)@[p as int].text),
            q < old(self).reverse_command_map@.len(),
        ensures
            final(self).wf(),
            final(self)@ == old(self)@.remove(p as int),
            c@ == old(self)@[p as int],
    {
        let ghost s = self@;
        let ghost ix = self.index();
        let ghost gone = s[p as int].text;
        proof {
            lemma_remove_pool(s, p as int);
            lemma_sum_remove(s, p as int);
            lemma_has_text(s, gone);
            assert(has_text(s, gone));
            assert(indexed(ix, gone));
            lemma_index_remove(ix, q as int);
        }
        let old_record = self.command_list.remove(p);
        let _ = self.reverse_command_map.remove(q);
        assert(views(self.command_list@) =~= s.remove(p as int));
        assert(entries(self.reverse_command_map@) =~= ix.remove(q as int));
        self.total_score = self.total_score - old_record.score as u128;
        self.total_num_commands = self.command_list.len();
        proof {
            let s1 = s.remove(p as int);
            let ix1 = ix.remove(q as int);
            assert forall|text: Seq<char>|
                #![trigger indexed(ix1, text)]
                #![trigger has_text(s1, text)]
                indexed(ix1, text) == has_text(s1, text) && indexed_score(ix1, text) == score_of(
                    s1,
                    text,
                ) by {
                if text != gone {
                    assert(indexed(ix, text) == has_text(s, text));
                    assert(indexed_score(ix, text) == score_of(s, text));
                }
            }
        }
        old_record
    }

    /// Puts a valid record whose text the store does not hold at its rank.
    fn place(&mut self, c: Command)
        requires
            old(self).wf(),
            c@.valid(),
            !has_text(old(self)@, c@.text),
        ensures
            final(self).wf(),
            final(self)@ == placed(old(self)@, c@),
    {
        let k = self.rank_of(c.score, c.command_text.as_str());
        let q = self.slot(c.command_text.as_str());
        let points: u128 = c.score as u128;
        let entry = IndexEntry { text: c.command_text.clone(), score: c.score };
        let ghost s = self@;
        let ghost ix = self.index();
        let ghost cv = c@;
        let ghost ev = EntryView { text: cv.text, score: cv.score };
        proof {
            lemma_insert_position_of_key(s, cv);
            lemma_placed_pool(s, cv);
            lemma_sum_bound(placed(s, cv));
            let n = placed(s, cv).len();
            assert(s.len() == self.command_list@.len());
            assert(n * MAX_SCORE <= 0x1_0000_0000_0000_0000 * 0x7fff_ffff) by (nonlinear_arith)
                requires
                    n <= 0x1_0000_0000_0000_0000,
                    MAX_SCORE == 0x7fff_ffff,
            ;
            assert(indexed(ix, cv.text) == has_text(s, cv.text));
            lemma_index_insert(ix, ev);
        }
        self.command_list.insert(k, c);
        self.reverse_command_map.insert(q, entry);
        assert(views(self.command_list@) =~= s.insert(k as int, cv));
        assert(entries(self.reverse_command_map@) =~= ix.insert(q as int, ev));
        self.total_score = self.total_score + points;
        self.total_num_commands = self.command_list.len();
        proof {
            let s1 = placed(s, cv);
            let ix1 = ix.insert(q as int, ev);
            assert forall|text: Seq<char>|
                #![trigger indexed(ix1, text)]
                #![trigger has_text(s1, text)]
                indexed(ix1, text) == has_text(s1, text) && indexed_score(ix1, text) == score_of(
                    s1,
                    text,
                ) by {
                if text != cv.text {
                    assert(indexed(ix, text) == has_text(s, text));
                    assert(indexed_score(ix, text) == score_of(s, text));
                }
            }
        }
    }

    /// Records one occurrence of `text` at `timestamp`, scored at `now`.
    ///
    /// A text that the store does not hold gets a record with frequency 1. A
    /// text that it holds leaves its place in the ranking, has its frequency
    /// raised by one and its time of last access replaced, is scored anew and
    /// takes the place that the new score gives it. The lookup index and the
    /// totals follow.
    pub fn upsert(&mut self, text: &str, timestamp: u64, now: u64)
        requires
            old(self).wf(),
        ensures
            final(self).wf(),
            final(self)@ == upserted(old(self)@, text@, timestamp as nat, now as nat),
    {
        let ghost s = self@;
        let mut frequency: u64 = 1;
        proof {
            lemma_position_of(s, text@);
        }
        match self.locate(text) {
            Some((q, p)) => {
                assert(s[p as int].valid());
                let old_record = self.take_out(q, p);
                frequency =
                if old_record.frequency < u64::MAX {
                    old_record.frequency + 1
                } else {
                    old_record.frequency
                };
                proof {
                    lemma_remove_pool(s, p as int);
                }
            },
            None => {},
        }
        assert(frequency == bumped(frequency_of(s, text@)));
        assert(self@ == removed(s, text@));
        let c = Command::new(text, frequency, timestamp, now);
        proof {
            lemma_record_valid(text@, frequency as nat, timestamp as nat, now as nat);
        }
        self.place(c);
    }

    /// Deletes the record of `text`, if the store holds one, and says whether it did.
    pub fn remove(&mut self, text: &str) -> (found: bool)
        requires
            old(self).wf(),
        ensures
            final(self).wf(),
            final(self)@ == removed(old(self)@, text@),
            found == has_text(old(self)@, text@),
    {
        proof {
            lemma_position_of(self@, text@);
        }
        match self.locate(text) {
            Some((q, p)) => {
                let _ = self.take_out(q, p);
                true
            },
            None => false,
        }
    }

    /// Copies of the first `n` records of the ranking, or of all where there
    /// are fewer.
    pub fn top_n(&self, n: usize) -> (r: Vec<Command>)
        ensures
            views(r@) == top(self@, n as nat),
            r@.len() == if n <= self@.len() { n as int } else { self@.len() as int },
            self.wf() ==> ranked(views(r@)),
    {
        let count = if n <= self.command_list.len() {
            n
        } else {
            self.command_list.len()
        };
        let mut out: Vec<Command> = Vec::new();
        let mut i: usize = 0;
        assert(views(out@) =~= self@.take(0));
        while i < count
            invariant
                i <= count <= self.command_list@.len(),
                views(out@) == self@.take(i as int),
            decreases count - i,
        {
            let ghost before = views(out@);
            out.push(self.command_list[i].copy());
            assert(views(out@) =~= before.push(self@[i as int]));
            assert(self@.take(i as int).push(self@[i as int]) =~= self@.take(i + 1));
            i += 1;
        }
        proof {
            assert(self@.take(self@.len() as int) =~= self@);
            if self.wf() {
                law_top_is_ranked(self@, n as nat);
            }
        }
        out
    }

    /// The store of the given records, in whatever order they come.
    ///
    /// The records are held to the data model: a list with an invalid record
    /// is refused, and so is a list in which a text occurs twice, so that no
    /// store is ever built that breaks what a store promises. The records of
    /// a list that is taken are kept as they are; the totals and the lookup
    /// index are computed from them.
    pub fn from_records(records: &Vec<Command>) -> (r: Result<CommandStore, StoreError>)
        ensures
            !all_valid(views(records@)) ==> r == Err::<CommandStore, StoreError>(
                StoreError::InvalidRecord,
            ),
            all_valid(views(records@)) && !distinct_texts(views(records@)) ==> r == Err::<
                CommandStore,
                StoreError,
            >(StoreError::DuplicateText),
            all_valid(views(records@)) && distinct_texts(views(records@)) ==> r is Ok,
            r matches Ok(store) ==> store.wf() && store@ == rebuilt(views(records@)),
    {
        let ghost all = views(records@);
        let mut i: usize = 0;
        while i < records.len()
            invariant
                i <= records@.len(),
                all == views(records@),
                forall|j: int| 0 <= j < i ==> (#[trigger] all[j]).valid(),
            decreases records@.len() - i,
        {
            if !records[i].is_valid() {
                assert(!all[i as int].valid());
                return Err(StoreError::InvalidRecord);
            }
            i += 1;
        }
        let mut store = CommandStore::new();
        let mut k: usize = 0;
        assert(all.take(0) =~= Seq::<CommandView>::empty());
        while k < records.len()
            invariant
                k <= records@.len(),
                all == views(records@),
                all_valid(all),
                store.wf(),
                store@ == rebuilt(all.take(k as int)),
                distinct_texts(all.take(k as int)),
            decreases records@.len() - k,
        {
            let ghost done = all.take(k as int);
            let ghost next = all.take(k + 1);
            proof {
                assert(next.drop_last() =~= done);
                assert(next.last() == all[k as int]);
                assert(all_valid(done)) by {
                    assert forall|j: int| 0 <= j < done.len() implies (#[trigger] done[j]).valid() by {
                        assert(done[j] == all[j]);
                    }
                }
                lemma_rebuilt_pool(done);
                lemma_has_text(done, all[k as int].text);
            }
            if store.contains(records[k].command_text.as_str()) {
                proof {
                    let j = choose|j: int|
                        0 <= j < done.len() && (#[trigger] done[j]).text == all[k as int].text;
                    assert(all[j].text == all[k as int].text);
                }
                return Err(StoreError::DuplicateText);
            }
            store.place(records[k].copy());
            proof {
                assert forall|a: int, b: int| 0 <= a < b < next.len() implies (
                #[trigger] next[a]).text != (#[trigger] next[b]).text by {
                    if b < k {
                        assert(done[a].text != done[b].text);
                    } else {
                        assert(done[a].text == next[a].text);
                    }
                }
            }
            k += 1;
        }
        assert(all.take(records@.len() as int) =~= all);
        Ok(store)
    }

    /// Copies of all records, in rank order.
    pub fn records(&self) -> (r: Vec<Command>)
        ensures
            views(r@) == self@,
            r@.len() == self@.len(),
    {
        self.top_n(self.command_list.len())
    }
}

} // verus!
