//! The ranked pool as a mathematical sequence: the records in rank order,
//! best first, and what insertion and removal do to it.

use vstd::prelude::*;
use crate::rank::{lemma_text_before_total, lemma_text_before_transitive, text_before};
use crate::record::{record_of, CommandView};
use crate::score::{lemma_score_bound, MAX_SCORE};

verus! {

/// Whether `a` ranks strictly before `b`: by the higher score, and among
/// equal scores by the text that comes first.
pub open spec fn ranks_before(a: CommandView, b: CommandView) -> bool {
    a.score > b.score || (a.score == b.score && text_before(a.text, b.text))
}

/// Every record ranks strictly before all that follow it.
pub open spec fn ranked(s: Seq<CommandView>) -> bool {
    forall|i: int, j: int| 0 <= i < j < s.len() ==> ranks_before(#[trigger] s[i], #[trigger] s[j])
}

/// No text occurs twice.
pub open spec fn distinct_texts(s: Seq<CommandView>) -> bool {
    forall|i: int, j: int|
        0 <= i < j < s.len() ==> (#[trigger] s[i]).text != (#[trigger] s[j]).text
}

/// Every record is valid.
pub open spec fn all_valid(s: Seq<CommandView>) -> bool {
    forall|i: int| 0 <= i < s.len() ==> (#[trigger] s[i]).valid()
}

/// What holds of the records of a store at every moment.
pub open spec fn is_pool(s: Seq<CommandView>) -> bool {
    ranked(s) && distinct_texts(s) && all_valid(s)
}

/// The sum of the scores.
pub open spec fn sum_scores(s: Seq<CommandView>) -> nat
    decreases s.len(),
{
    if s.len() == 0 {
        0
    } else {
        sum_scores(s.drop_last()) + s.last().score
    }
}

/// The position of the first record with the given text, or the length of
/// `s` where there is none.
pub open spec fn position_of(s: Seq<CommandView>, text: Seq<char>) -> int
    decreases s.len(),
{
    if s.len() == 0 || s[0].text == text {
        0
    } else {
        1 + position_of(s.skip(1), text)
    }
}

/// Whether a record with the given text is in `s`.
pub open spec fn has_text(s: Seq<CommandView>, text: Seq<char>) -> bool {
    position_of(s, text) < s.len()
}

/// How often the given text was seen: the frequency of its record, or zero.
pub open spec fn frequency_of(s: Seq<CommandView>, text: Seq<char>) -> nat {
    if has_text(s, text) {
        s[position_of(s, text)].frequency
    } else {
        0
    }
}

/// The score under which the given text is ranked, or zero where it has no record.
pub open spec fn score_of(s: Seq<CommandView>, text: Seq<char>) -> nat {
    if has_text(s, text) {
        s[position_of(s, text)].score
    } else {
        0
    }
}

/// The number of leading records that rank before `c`.
pub open spec fn insert_position(s: Seq<CommandView>, c: CommandView) -> int
    decreases s.len(),
{
    if s.len() > 0 && ranks_before(s[0], c) {
        1 + insert_position(s.skip(1), c)
    } else {
        0
    }
}

/// A record with the given score and text, and nothing else: what the rank of
/// a record depends on.
pub open spec fn rank_key(score: nat, text: Seq<char>) -> CommandView {
    CommandView { score, last_access_time: 0, frequency: 0, length: 0, text, number_of_words: 0 }
}

/// `s` with `c` at its rank.
pub open spec fn placed(s: Seq<CommandView>, c: CommandView) -> Seq<CommandView> {
    s.insert(insert_position(s, c), c)
}

/// `s` without the record of the given text.
pub open spec fn removed(s: Seq<CommandView>, text: Seq<char>) -> Seq<CommandView> {
    if has_text(s, text) {
        s.remove(position_of(s, text))
    } else {
        s
    }
}

/// The frequency after one more occurrence. A count that has reached the
/// largest 64-bit number stays there.
pub open spec fn bumped(frequency: nat) -> nat {
    if frequency < u64::MAX {
        frequency + 1
    } else {
        frequency
    }
}

/// The pool after `text` was seen at `timestamp` and scored at `now`: the old
/// record of `text`, if any, leaves its place, and the new one, with the
/// frequency raised by one, takes the place that its new score gives it.
pub open spec fn upserted(s: Seq<CommandView>, text: Seq<char>, timestamp: nat, now: nat) -> Seq<
    CommandView,
> {
    placed(removed(s, text), record_of(text, bumped(frequency_of(s, text)), timestamp, now))
}

/// The first `k` records of `s`, or all of them where there are fewer.
pub open spec fn top(s: Seq<CommandView>, k: nat) -> Seq<CommandView> {
    if k <= s.len() {
        s.take(k as int)
    } else {
        s
    }
}

/// The pool that holds the given records: each is placed at its rank, in turn.
pub open spec fn rebuilt(records: Seq<CommandView>) -> Seq<CommandView>
    decreases records.len(),
{
    if records.len() == 0 {
        Seq::empty()
    } else {
        placed(rebuilt(records.drop_last()), records.last())
    }
}

/// What ranks before a record ranks before all that the record ranks before.
pub proof fn lemma_ranks_transitive(a: CommandView, b: CommandView, c: CommandView)
    requires
        ranks_before(a, b),
        ranks_before(b, c),
    ensures
        ranks_before(a, c),
{
    if a.score == b.score && b.score == c.score {
        lemma_text_before_transitive(a.text, b.text, c.text);
    }
}

/// Of two records with different texts one ranks before the other.
pub proof fn lemma_ranks_total(a: CommandView, b: CommandView)
    requires
        a.text != b.text,
    ensures
        ranks_before(a, b) || ranks_before(b, a),
{
    lemma_text_before_total(a.text, b.text);
}

/// Where `position_of` points: at the first record with the text.
pub proof fn lemma_position_of(s: Seq<CommandView>, text: Seq<char>)
    ensures
        0 <= position_of(s, text) <= s.len(),
        forall|j: int| 0 <= j < position_of(s, text) ==> (#[trigger] s[j]).text != text,
        position_of(s, text) < s.len() ==> s[position_of(s, text)].text == text,
    decreases s.len(),
{
    if s.len() > 0 && s[0].text != text {
        let t = s.skip(1);
        lemma_position_of(t, text);
        assert forall|j: int| 0 <= j < position_of(s, text) implies (#[trigger] s[j]).text
            != text by {
            if j > 0 {
                assert(s[j] == t[j - 1]);
            }
        }
    }
}

/// A position with the text, before which the text does not occur, is `position_of`.
pub proof fn lemma_position_is(s: Seq<CommandView>, text: Seq<char>, i: int)
    requires
        0 <= i <= s.len(),
        forall|j: int| 0 <= j < i ==> (#[trigger] s[j]).text != text,
        i == s.len() || s[i].text == text,
    ensures
        position_of(s, text) == i,
{
    lemma_position_of(s, text);
    let p = position_of(s, text);
    if p < i {
        assert(s[p].text != text);
    }
}

/// Where `insert_position` points: behind the leading records that rank before `c`.
pub proof fn lemma_insert_position(s: Seq<CommandView>, c: CommandView)
    ensures
        0 <= insert_position(s, c) <= s.len(),
        forall|j: int| 0 <= j < insert_position(s, c) ==> ranks_before(#[trigger] s[j], c),
        insert_position(s, c) < s.len() ==> !ranks_before(s[insert_position(s, c)], c),
    decreases s.len(),
{
    if s.len() > 0 && ranks_before(s[0], c) {
        let t = s.skip(1);
        lemma_insert_position(t, c);
        assert forall|j: int| 0 <= j < insert_position(s, c) implies ranks_before(
            #[trigger] s[j],
            c,
        ) by {
            if j > 0 {
                assert(s[j] == t[j - 1]);
            }
        }
    }
}

/// A position behind the records that rank before `c`, and before one that
/// does not, is the rank of `c`.
pub proof fn lemma_insert_position_is(s: Seq<CommandView>, c: CommandView, k: int)
    requires
        0 <= k <= s.len(),
        forall|j: int| 0 <= j < k ==> ranks_before(#[trigger] s[j], c),
        k == s.len() || !ranks_before(s[k], c),
    ensures
        insert_position(s, c) == k,
{
    lemma_insert_position(s, c);
    let p = insert_position(s, c);
    if p < k {
        assert(ranks_before(s[p], c));
    }
}

/// The rank of a record depends on its score and its text alone.
pub proof fn lemma_insert_position_of_key(s: Seq<CommandView>, c: CommandView)
    ensures
        insert_position(s, rank_key(c.score, c.text)) == insert_position(s, c),
{
    lemma_insert_position(s, c);
    lemma_insert_position_is(s, rank_key(c.score, c.text), insert_position(s, c));
}

/// In a pool every record stands at the rank of its own score and text.
pub proof fn lemma_record_rank(s: Seq<CommandView>, text: Seq<char>)
    requires
        ranked(s),
        has_text(s, text),
    ensures
        insert_position(s, rank_key(score_of(s, text), text)) == position_of(s, text),
{
    lemma_position_of(s, text);
    let r = position_of(s, text);
    let key = rank_key(score_of(s, text), text);
    assert forall|j: int| 0 <= j < r implies ranks_before(#[trigger] s[j], key) by {
        assert(ranks_before(s[j], s[r]));
    }
    if ranks_before(s[r], key) {
        crate::rank::lemma_text_before_asymmetric(text, text);
    }
    lemma_insert_position_is(s, key, r);
}

/// A record at the end adds its score to the sum.
pub proof fn lemma_sum_push(s: Seq<CommandView>, c: CommandView)
    ensures
        sum_scores(s.push(c)) == sum_scores(s) + c.score,
{
    assert(s.push(c).drop_last() =~= s);
}

/// A record put anywhere adds its score to the sum.
pub proof fn lemma_sum_insert(s: Seq<CommandView>, k: int, c: CommandView)
    requires
        0 <= k <= s.len(),
    ensures
        sum_scores(s.insert(k, c)) == sum_scores(s) + c.score,
    decreases s.len(),
{
    let t = s.insert(k, c);
    if k == s.len() {
        assert(t =~= s.push(c));
        lemma_sum_push(s, c);
    } else {
        assert(t.drop_last() =~= s.drop_last().insert(k, c));
        assert(t.last() == s.last());
        lemma_sum_insert(s.drop_last(), k, c);
    }
}

/// A record taken out takes its score from the sum.
pub proof fn lemma_sum_remove(s: Seq<CommandView>, i: int)
    requires
        0 <= i < s.len(),
    ensures
        sum_scores(s.remove(i)) + s[i].score == sum_scores(s),
    decreases s.len(),
{
    let t = s.remove(i);
    if i == s.len() - 1 {
        assert(t =~= s.drop_last());
    } else {
        assert(t.drop_last() =~= s.drop_last().remove(i));
        assert(t.last() == s.last());
        lemma_sum_remove(s.drop_last(), i);
    }
}

/// The scores of valid records sum to at most `MAX_SCORE` each.
pub proof fn lemma_sum_bound(s: Seq<CommandView>)
    requires
        all_valid(s),
    ensures
        sum_scores(s) <= s.len() * MAX_SCORE,
    decreases s.len(),
{
    if s.len() > 0 {
        let p = s.drop_last();
        assert forall|i: int| 0 <= i < p.len() implies (#[trigger] p[i]).valid() by {
            assert(p[i] == s[i]);
        }
        lemma_sum_bound(p);
        assert(s.last().valid());
        assert(p.len() * MAX_SCORE + MAX_SCORE == s.len() * MAX_SCORE) by (nonlinear_arith)
            requires
                p.len() + 1 == s.len(),
        ;
    }
}

/// Removing a record leaves a pool, without that record's text.
pub proof fn lemma_remove_pool(s: Seq<CommandView>, i: int)
    requires
        is_pool(s),
        0 <= i < s.len(),
    ensures
        is_pool(s.remove(i)),
        !has_text(s.remove(i), s[i].text),
        forall|text: Seq<char>|
            text != s[i].text ==> has_text(s.remove(i), text) == has_text(s, text)
                && frequency_of(s.remove(i), text) == frequency_of(s, text) && score_of(
                s.remove(i),
                text,
            ) == score_of(s, text),
{
    let t = s.remove(i);
    assert forall|a: int| 0 <= a < t.len() implies #[trigger] t[a] == s[if a < i {
        a
    } else {
        a + 1
    }] by {}
    assert(ranked(t)) by {
        assert forall|a: int, b: int| 0 <= a < b < t.len() implies ranks_before(
            #[trigger] t[a],
            #[trigger] t[b],
        ) by {
            let a0 = if a < i { a } else { a + 1 };
            let b0 = if b < i { b } else { b + 1 };
            assert(ranks_before(s[a0], s[b0]));
        }
    }
    assert(distinct_texts(t)) by {
        assert forall|a: int, b: int| 0 <= a < b < t.len() implies (#[trigger] t[a]).text != (
        #[trigger] t[b]).text by {
            let a0 = if a < i { a } else { a + 1 };
            let b0 = if b < i { b } else { b + 1 };
            assert(s[a0].text != s[b0].text);
        }
    }
    assert(all_valid(t)) by {
        assert forall|a: int| 0 <= a < t.len() implies (#[trigger] t[a]).valid() by {
            let a0 = if a < i { a } else { a + 1 };
            assert(s[a0].valid());
        }
    }
    lemma_position_of(t, s[i].text);
    let p = position_of(t, s[i].text);
    if p < t.len() {
        let source = if p < i { p } else { p + 1 };
        assert(t[p] == s[source]);
        if source < i {
            assert(s[source].text != s[i].text);
        } else {
            assert(s[i].text != s[source].text);
        }
    }
    assert forall|text: Seq<char>| text != s[i].text implies has_text(t, text) == has_text(
        s,
        text,
    ) && frequency_of(t, text) == frequency_of(s, text) && score_of(t, text) == score_of(
        s,
        text,
    ) by {
        lemma_position_of(s, text);
        let q = position_of(s, text);
        if q < s.len() {
            let q1 = if q < i { q } else { q - 1 };
            assert(t[q1] == s[q]);
            assert forall|j: int| 0 <= j < q1 implies (#[trigger] t[j]).text != text by {
                let j0 = if j < i { j } else { j + 1 };
                assert(t[j] == s[j0]);
                assert(s[j0].text != text);
            }
            lemma_position_is(t, text, q1);
        } else {
            assert forall|j: int| 0 <= j < t.len() implies (#[trigger] t[j]).text != text by {
                let j0 = if j < i { j } else { j + 1 };
                assert(t[j] == s[j0]);
                assert(s[j0].text != text);
            }
            lemma_position_is(t, text, t.len() as int);
        }
    }
}

/// Placing a valid record whose text is new leaves a pool that holds it.
pub proof fn lemma_placed_pool(s: Seq<CommandView>, c: CommandView)
    requires
        is_pool(s),
        c.valid(),
        !has_text(s, c.text),
    ensures
        is_pool(placed(s, c)),
        placed(s, c).len() == s.len() + 1,
        sum_scores(placed(s, c)) == sum_scores(s) + c.score,
        has_text(placed(s, c), c.text),
        placed(s, c)[position_of(placed(s, c), c.text)] == c,
        forall|text: Seq<char>|
            text != c.text ==> has_text(placed(s, c), text) == has_text(s, text) && frequency_of(
                placed(s, c),
                text,
            ) == frequency_of(s, text) && score_of(placed(s, c), text) == score_of(s, text),
{
    let k = insert_position(s, c);
    let t = placed(s, c);
    lemma_insert_position(s, c);
    lemma_sum_insert(s, k, c);
    lemma_position_of(s, c.text);
    assert(t[k] == c);
    assert forall|a: int| 0 <= a < t.len() && a != k implies #[trigger] t[a] == s[if a < k {
        a
    } else {
        a - 1
    }] by {}
    assert forall|m: int| k <= m < s.len() implies ranks_before(c, #[trigger] s[m]) by {
        assert(s[k].text != c.text);
        lemma_ranks_total(s[k], c);
        if m > k {
            lemma_ranks_transitive(c, s[k], s[m]);
        }
    }
    assert(ranked(t)) by {
        assert forall|a: int, b: int| 0 <= a < b < t.len() implies ranks_before(
            #[trigger] t[a],
            #[trigger] t[b],
        ) by {
            if a == k {
                assert(t[b] == s[b - 1]);
            } else if b == k {
                assert(t[a] == s[a]);
            } else {
                let a0 = if a < k { a } else { a - 1 };
                let b0 = if b < k { b } else { b - 1 };
                assert(ranks_before(s[a0], s[b0]));
            }
        }
    }
    assert(distinct_texts(t)) by {
        assert forall|a: int, b: int| 0 <= a < b < t.len() implies (#[trigger] t[a]).text != (
        #[trigger] t[b]).text by {
            if a == k {
                assert(s[b - 1].text != c.text);
            } else if b == k {
                assert(s[a].text != c.text);
            } else {
                let a0 = if a < k { a } else { a - 1 };
                let b0 = if b < k { b } else { b - 1 };
                assert(s[a0].text != s[b0].text);
            }
        }
    }
    assert(all_valid(t)) by {
        assert forall|a: int| 0 <= a < t.len() implies (#[trigger] t[a]).valid() by {
            if a != k {
                let a0 = if a < k { a } else { a - 1 };
                assert(s[a0].valid());
            }
        }
    }
    assert forall|j: int| 0 <= j < k implies (#[trigger] t[j]).text != c.text by {
        assert(s[j].text != c.text);
    }
    lemma_position_is(t, c.text, k);
    assert forall|text: Seq<char>| text != c.text implies has_text(t, text) == has_text(s, text)
        && frequency_of(t, text) == frequency_of(s, text) && score_of(t, text) == score_of(
        s,
        text,
    ) by {
        lemma_position_of(s, text);
        let q = position_of(s, text);
        let q1 = if q < k { q } else { q + 1 };
        assert forall|j: int| 0 <= j < q1 implies (#[trigger] t[j]).text != text by {
            if j != k {
                let j0 = if j < k { j } else { j - 1 };
                assert(t[j] == s[j0]);
                assert(s[j0].text != text);
            }
        }
        if q < s.len() {
            assert(t[q1] == s[q]);
        }
        lemma_position_is(t, text, q1);
    }
}

/// The record that an occurrence of a text leaves is valid.
pub proof fn lemma_record_valid(text: Seq<char>, frequency: nat, timestamp: nat, now: nat)
    requires
        1 <= frequency <= u64::MAX,
    ensures
        record_of(text, frequency, timestamp, now).valid(),
{
    lemma_score_bound(crate::text::token_length(text), frequency, now - timestamp);
}

/// An occurrence of a text leaves a pool in which the text has one more
/// occurrence and every other text what it had.
pub proof fn lemma_upserted_pool(s: Seq<CommandView>, text: Seq<char>, timestamp: nat, now: nat)
    requires
        is_pool(s),
    ensures
        is_pool(upserted(s, text, timestamp, now)),
        has_text(upserted(s, text, timestamp, now), text),
        upserted(s, text, timestamp, now)[position_of(upserted(s, text, timestamp, now), text)]
            == record_of(text, bumped(frequency_of(s, text)), timestamp, now),
        upserted(s, text, timestamp, now).len() == s.len() + if has_text(s, text) {
            0int
        } else {
            1
        },
        forall|other: Seq<char>|
            other != text ==> has_text(upserted(s, text, timestamp, now), other) == has_text(
                s,
                other,
            ) && frequency_of(upserted(s, text, timestamp, now), other) == frequency_of(s, other),
{
    lemma_position_of(s, text);
    let r = removed(s, text);
    let c = record_of(text, bumped(frequency_of(s, text)), timestamp, now);
    if has_text(s, text) {
        let i = position_of(s, text);
        assert(s[i].valid());
        lemma_remove_pool(s, i);
    }
    lemma_record_valid(text, bumped(frequency_of(s, text)), timestamp, now);
    lemma_placed_pool(r, c);
}

/// A pool holds a text exactly when one of its records has it.
pub proof fn lemma_has_text(s: Seq<CommandView>, text: Seq<char>)
    ensures
        has_text(s, text) <==> exists|j: int| 0 <= j < s.len() && (#[trigger] s[j]).text == text,
{
    lemma_position_of(s, text);
    if has_text(s, text) {
        assert(s[position_of(s, text)].text == text);
    }
}

/// After two occurrences of a text its frequency is two more than before, and
/// its time of last access is that of the second occurrence.
pub proof fn law_each_occurrence_counts(
    s: Seq<CommandView>,
    text: Seq<char>,
    t1: nat,
    now1: nat,
    t2: nat,
    now2: nat,
)
    requires
        is_pool(s),
        frequency_of(s, text) + 2 <= u64::MAX,
    ensures
        ({
            let once = upserted(s, text, t1, now1);
            let twice = upserted(once, text, t2, now2);
            &&& frequency_of(once, text) == frequency_of(s, text) + 1
            &&& frequency_of(twice, text) == frequency_of(s, text) + 2
            &&& has_text(twice, text)
            &&& twice[position_of(twice, text)].last_access_time == t2
            &&& twice[position_of(twice, text)].scored_at(now2)
        }),
{
    lemma_upserted_pool(s, text, t1, now1);
    lemma_upserted_pool(upserted(s, text, t1, now1), text, t2, now2);
}

/// The first `k` records of a pool are in rank order, each strictly before
/// the next, and there are `k` of them, or all where the pool holds fewer.
pub proof fn law_top_is_ranked(s: Seq<CommandView>, k: nat)
    requires
        is_pool(s),
    ensures
        ranked(top(s, k)),
        top(s, k).len() == if k <= s.len() { k } else { s.len() },
        forall|i: int| 0 <= i < top(s, k).len() ==> #[trigger] top(s, k)[i] == s[i],
{
    let top = top(s, k);
    assert forall|i: int, j: int| 0 <= i < j < top.len() implies ranks_before(
        #[trigger] top[i],
        #[trigger] top[j],
    ) by {
        assert(ranks_before(s[i], s[j]));
    }
}

/// Placing a record that ranks behind all of a pool puts it at the end.
pub proof fn lemma_placed_last(s: Seq<CommandView>, c: CommandView)
    requires
        forall|j: int| 0 <= j < s.len() ==> ranks_before(#[trigger] s[j], c),
    ensures
        placed(s, c) == s.push(c),
{
    lemma_insert_position_is(s, c, s.len() as int);
    assert(s.insert(s.len() as int, c) =~= s.push(c));
}

/// The records of a pool, placed one after the other in the order of the
/// pool, give the pool again: what is saved in rank order is restored as it was.
pub proof fn law_rebuilt_in_order(s: Seq<CommandView>)
    requires
        ranked(s),
    ensures
        rebuilt(s) == s,
    decreases s.len(),
{
    if s.len() == 0 {
        assert(s =~= Seq::<CommandView>::empty());
    } else {
        let p = s.drop_last();
        assert forall|i: int, j: int| 0 <= i < j < p.len() implies ranks_before(
            #[trigger] p[i],
            #[trigger] p[j],
        ) by {
            assert(ranks_before(s[i], s[j]));
        }
        law_rebuilt_in_order(p);
        assert forall|j: int| 0 <= j < p.len() implies ranks_before(#[trigger] p[j], s.last()) by {
            assert(ranks_before(s[j], s[s.len() - 1]));
        }
        lemma_placed_last(p, s.last());
        assert(p.push(s.last()) =~= s);
    }
}

/// Valid records with distinct texts rebuild into a pool of the same texts.
pub proof fn lemma_rebuilt_pool(records: Seq<CommandView>)
    requires
        all_valid(records),
        distinct_texts(records),
    ensures
        is_pool(rebuilt(records)),
        rebuilt(records).len() == records.len(),
        forall|text: Seq<char>|
            has_text(rebuilt(records), text) <==> has_text(records, text),
    decreases records.len(),
{
    if records.len() == 0 {
        assert forall|text: Seq<char>| !has_text(records, text) by {}
    } else {
        let p = records.drop_last();
        let c = records.last();
        assert(all_valid(p)) by {
            assert forall|i: int| 0 <= i < p.len() implies (#[trigger] p[i]).valid() by {
                assert(p[i] == records[i]);
            }
        }
        assert(distinct_texts(p)) by {
            assert forall|i: int, j: int| 0 <= i < j < p.len() implies (#[trigger] p[i]).text != (
            #[trigger] p[j]).text by {
                assert(records[i].text != records[j].text);
            }
        }
        lemma_rebuilt_pool(p);
        lemma_has_text(p, c.text);
        if has_text(p, c.text) {
            let j = choose|j: int| 0 <= j < p.len() && (#[trigger] p[j]).text == c.text;
            assert(records[j].text != records[records.len() - 1].text);
        }
        assert(c.valid());
        lemma_placed_pool(rebuilt(p), c);
        assert forall|text: Seq<char>| has_text(rebuilt(records), text) <==> has_text(
            records,
            text,
        ) by {
            lemma_has_text(records, text);
            lemma_has_text(p, text);
            if has_text(records, text) {
                let j = choose|j: int| 0 <= j < records.len() && (#[trigger] records[j]).text
                    == text;
                if j < p.len() {
                    assert(p[j].text == text);
                }
            }
            if has_text(p, text) {
                let j = choose|j: int| 0 <= j < p.len() && (#[trigger] p[j]).text == text;
                assert(records[j].text == text);
            }
            if text == c.text {
                assert(records[records.len() - 1].text == text);
            }
        }
    }
}

} // verus!
