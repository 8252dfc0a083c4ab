//! The lookup index as a mathematical sequence: one entry for each text, in
//! the order of the texts, with the score under which the text is ranked.

use vstd::prelude::*;
use crate::pool::{has_text, score_of};
use crate::rank::{lemma_text_before_total, lemma_text_before_transitive, text_before};
use crate::record::CommandView;

verus! {

/// An entry of the index: a text and the score of its record.
pub struct EntryView {
    pub text: Seq<char>,
    pub score: nat,
}

/// The texts of the entries are in strictly ascending order.
pub open spec fn index_ascending(ix: Seq<EntryView>) -> bool {
    forall|i: int, j: int|
        0 <= i < j < ix.len() ==> text_before((#[trigger] ix[i]).text, (#[trigger] ix[j]).text)
}

/// The number of leading entries whose text comes before `text`.
pub open spec fn slot_of(ix: Seq<EntryView>, text: Seq<char>) -> int
    decreases ix.len(),
{
    if ix.len() > 0 && text_before(ix[0].text, text) {
        1 + slot_of(ix.skip(1), text)
    } else {
        0
    }
}

/// Whether the index has an entry for `text`.
pub open spec fn indexed(ix: Seq<EntryView>, text: Seq<char>) -> bool {
    slot_of(ix, text) < ix.len() && ix[slot_of(ix, text)].text == text
}

/// The score that the index holds for `text`, or zero where it has no entry.
pub open spec fn indexed_score(ix: Seq<EntryView>, text: Seq<char>) -> nat {
    if indexed(ix, text) {
        ix[slot_of(ix, text)].score
    } else {
        0
    }
}

/// The keys of the index are the texts of the pool, and each entry holds the
/// score of its record.
pub open spec fn index_matches(ix: Seq<EntryView>, s: Seq<CommandView>) -> bool {
    &&& index_ascending(ix)
    &&& ix.len() == s.len()
    &&& forall|text: Seq<char>|
        #![trigger indexed(ix, text)]
        #![trigger has_text(s, text)]
        indexed(ix, text) == has_text(s, text) && indexed_score(ix, text) == score_of(s, text)
}

/// Where `slot_of` points: behind the entries whose text comes before `text`.
pub proof fn lemma_slot_of(ix: Seq<EntryView>, text: Seq<char>)
    ensures
        0 <= slot_of(ix, text) <= ix.len(),
        forall|j: int| 0 <= j < slot_of(ix, text) ==> text_before((#[trigger] ix[j]).text, text),
        slot_of(ix, text) < ix.len() ==> !text_before(ix[slot_of(ix, text)].text, text),
    decreases ix.len(),
{
    if ix.len() > 0 && text_before(ix[0].text, text) {
        let t = ix.skip(1);
        lemma_slot_of(t, text);
        assert forall|j: int| 0 <= j < slot_of(ix, text) implies text_before(
            (#[trigger] ix[j]).text,
            text,
        ) by {
            if j > 0 {
                assert(ix[j] == t[j - 1]);
            }
        }
    }
}

/// A position behind the entries that come before `text`, and before those
/// that do not, is the slot of `text`.
pub proof fn lemma_slot_is(ix: Seq<EntryView>, text: Seq<char>, k: int)
    requires
        0 <= k <= ix.len(),
        forall|j: int| 0 <= j < k ==> text_before((#[trigger] ix[j]).text, text),
        k == ix.len() || !text_before(ix[k].text, text),
    ensures
        slot_of(ix, text) == k,
{
    lemma_slot_of(ix, text);
    let p = slot_of(ix, text);
    if p < k {
        assert(text_before(ix[p].text, text));
    }
}

/// In an ascending index every entry stands at the slot of its text.
pub proof fn lemma_entry_slot(ix: Seq<EntryView>, q: int)
    requires
        index_ascending(ix),
        0 <= q < ix.len(),
    ensures
        slot_of(ix, ix[q].text) == q,
        indexed(ix, ix[q].text),
{
    assert forall|j: int| 0 <= j < q implies text_before((#[trigger] ix[j]).text, ix[q].text) by {
        assert(text_before(ix[j].text, ix[q].text));
    }
    if text_before(ix[q].text, ix[q].text) {
        crate::rank::lemma_text_before_asymmetric(ix[q].text, ix[q].text);
    }
    lemma_slot_is(ix, ix[q].text, q);
}

/// An entry put at the slot of its text, which the index does not hold yet,
/// leaves the index ascending; the other texts keep what they had.
pub proof fn lemma_index_insert(ix: Seq<EntryView>, e: EntryView)
    requires
        index_ascending(ix),
        !indexed(ix, e.text),
    ensures
        index_ascending(ix.insert(slot_of(ix, e.text), e)),
        indexed(ix.insert(slot_of(ix, e.text), e), e.text),
        indexed_score(ix.insert(slot_of(ix, e.text), e), e.text) == e.score,
        forall|text: Seq<char>|
            text != e.text ==> indexed(ix.insert(slot_of(ix, e.text), e), text) == indexed(
                ix,
                text,
            ) && indexed_score(ix.insert(slot_of(ix, e.text), e), text) == indexed_score(
                ix,
                text,
            ),
{
    let k = slot_of(ix, e.text);
    let t = ix.insert(k, e);
    lemma_slot_of(ix, e.text);
    assert(t[k] == e);
    assert forall|m: int| k <= m < ix.len() implies text_before(e.text, (#[trigger] ix[m]).text) by {
        lemma_text_before_total(ix[k].text, e.text);
        if m > k {
            assert(text_before(ix[k].text, ix[m].text));
            lemma_text_before_transitive(e.text, ix[k].text, ix[m].text);
        }
    }
    assert forall|a: int, b: int| 0 <= a < b < t.len() implies text_before(
        (#[trigger] t[a]).text,
        (#[trigger] t[b]).text,
    ) by {
        if a == k {
            assert(t[b] == ix[b - 1]);
        } else if b == k {
            assert(t[a] == ix[a]);
        } else {
            let a0 = if a < k { a } else { a - 1 };
            let b0 = if b < k { b } else { b - 1 };
            assert(t[a] == ix[a0] && t[b] == ix[b0]);
            assert(text_before(ix[a0].text, ix[b0].text));
        }
    }
    lemma_entry_slot(t, k);
    assert forall|text: Seq<char>| text != e.text implies indexed(t, text) == indexed(ix, text)
        && indexed_score(t, text) == indexed_score(ix, text) by {
        lemma_slot_of(ix, text);
        let q = slot_of(ix, text);
        // the slot of `text` moves by one where the new entry comes before it
        if text_before(e.text, text) {
            assert(k <= q) by {
                if q < k {
                    assert(text_before(ix[q].text, e.text));
                    lemma_text_before_transitive(ix[q].text, e.text, text);
                }
            }
            assert forall|j: int| 0 <= j < q + 1 implies text_before(
                (#[trigger] t[j]).text,
                text,
            ) by {
                if j < k {
                    assert(t[j] == ix[j]);
                } else if j > k {
                    assert(t[j] == ix[j - 1]);
                }
            }
            if q < ix.len() {
                assert(t[q + 1] == ix[q]);
            }
            lemma_slot_is(t, text, q + 1);
        } else {
            lemma_text_before_total(e.text, text);
            assert(q <= k) by {
                if k < q {
                    assert(text_before(ix[k].text, text));
                    lemma_text_before_total(ix[k].text, e.text);
                    lemma_text_before_transitive(e.text, ix[k].text, text);
                }
            }
            assert forall|j: int| 0 <= j < q implies text_before((#[trigger] t[j]).text, text) by {
                assert(t[j] == ix[j]);
            }
            if q < k {
                assert(t[q] == ix[q]);
            } else {
                assert(t[q] == e);
            }
            lemma_slot_is(t, text, q);
            if q == k && q < ix.len() {
                // `text` comes before the new entry and so before `ix[q]`
                assert(text_before(e.text, ix[q].text));
                lemma_text_before_transitive(text, e.text, ix[q].text);
                crate::rank::lemma_text_before_asymmetric(text, ix[q].text);
            }
        }
    }
}

/// Taking an entry out leaves the index ascending, without that text; the
/// other texts keep what they had.
pub proof fn lemma_index_remove(ix: Seq<EntryView>, q: int)
    requires
        index_ascending(ix),
        0 <= q < ix.len(),
    ensures
        index_ascending(ix.remove(q)),
        !indexed(ix.remove(q), ix[q].text),
        slot_of(ix.remove(q), ix[q].text) == q,
        forall|text: Seq<char>|
            text != ix[q].text ==> indexed(ix.remove(q), text) == indexed(ix, text)
                && indexed_score(ix.remove(q), text) == indexed_score(ix, text),
{
    let t = ix.remove(q);
    let gone = ix[q].text;
    assert forall|a: int| 0 <= a < t.len() implies (#[trigger] t[a]) == ix[if a < q {
        a
    } else {
        a + 1
    }] by {}
    assert forall|a: int, b: int| 0 <= a < b < t.len() implies text_before(
        (#[trigger] t[a]).text,
        (#[trigger] t[b]).text,
    ) by {
        let a0 = if a < q { a } else { a + 1 };
        let b0 = if b < q { b } else { b + 1 };
        assert(t[a] == ix[a0] && t[b] == ix[b0]);
        assert(text_before(ix[a0].text, ix[b0].text));
    }
    assert forall|j: int| 0 <= j < q implies text_before((#[trigger] t[j]).text, gone) by {
        assert(t[j] == ix[j]);
        assert(text_before(ix[j].text, ix[q].text));
    }
    if q < t.len() {
        assert(t[q] == ix[q + 1]);
        assert(text_before(ix[q].text, ix[q + 1].text));
        crate::rank::lemma_text_before_asymmetric(gone, t[q].text);
    }
    lemma_slot_is(t, gone, q);
    assert forall|text: Seq<char>| text != gone implies indexed(t, text) == indexed(ix, text)
        && indexed_score(t, text) == indexed_score(ix, text) by {
        lemma_slot_of(ix, text);
        let k = slot_of(ix, text);
        if q < k {
            assert forall|j: int| 0 <= j < k - 1 implies text_before(
                (#[trigger] t[j]).text,
                text,
            ) by {
                let j0 = if j < q { j } else { j + 1 };
                assert(t[j] == ix[j0]);
            }
            if k < ix.len() {
                assert(t[k - 1] == ix[k]);
            }
            lemma_slot_is(t, text, k - 1);
        } else {
            assert forall|j: int| 0 <= j < k implies text_before((#[trigger] t[j]).text, text) by {
                assert(t[j] == ix[j]);
            }
            if k < t.len() {
                if k < q {
                    assert(t[k] == ix[k]);
                } else {
                    // k == q: the entry behind the one that left takes its place
                    assert(t[k] == ix[k + 1]);
                    assert(text_before(ix[k].text, ix[k + 1].text));
                    if text_before(ix[k + 1].text, text) {
                        lemma_text_before_transitive(ix[k].text, ix[k + 1].text, text);
                    }
                    if ix[k + 1].text == text {
                        assert(text_before(ix[k].text, text));
                    }
                }
            }
            lemma_slot_is(t, text, k);
        }
    }
}

} // verus!
