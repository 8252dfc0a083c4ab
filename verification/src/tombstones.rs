//! The texts that were rejected or removed for good.

use vstd::prelude::*;
use crate::rank::{lemma_text_before_asymmetric, lemma_text_before_transitive, text_before,
    text_precedes};
use crate::text::string_views;

verus! {

/// Texts in strictly ascending order.
pub open spec fn ascending(s: Seq<Seq<char>>) -> bool {
    forall|i: int, j: int| 0 <= i < j < s.len() ==> text_before(#[trigger] s[i], #[trigger] s[j])
}

/// The texts that occur in `s`.
pub open spec fn members(s: Seq<Seq<char>>) -> Set<Seq<char>> {
    Set::new(|t: Seq<char>| exists|i: int| 0 <= i < s.len() && #[trigger] s[i] == t)
}

/// A set of texts that only grows. Its view is the set of the texts.
pub struct TombstoneSet {
    deleted_commands: Vec<String>,
}

impl View for TombstoneSet {
    type V = Set<Seq<char>>;

    closed spec fn view(&self) -> Set<Seq<char>> {
        members(string_views(self.deleted_commands@))
    }
}

impl TombstoneSet {
    /// The texts as they are kept: in ascending order.
    pub closed spec fn listed(&self) -> Seq<Seq<char>> {
        string_views(self.deleted_commands@)
    }

    /// The texts are kept in strictly ascending order, each once.
    pub open spec fn wf(&self) -> bool {
        ascending(self.listed()) && self@ == members(self.listed())
    }

    /// The empty set.
    pub fn new() -> (r: TombstoneSet)
        ensures
            r.wf(),
            r@ == Set::<Seq<char>>::empty(),
    {
        let r = TombstoneSet { deleted_commands: Vec::new() };
        assert(r@ =~= Set::<Seq<char>>::empty());
        r
    }

    /// The number of leading texts that come before `text`.
    fn slot(&self, text: &str) -> (k: usize)
        requires
            self.wf(),
        ensures
            k <= self.deleted_commands@.len(),
            forall|j: int| 0 <= j < k ==> text_before(#[trigger] self.listed()[j], text@),
            k < self.deleted_commands@.len() ==> !text_before(self.listed()[k as int], text@),
    {
        let mut k: usize = 0;
        while k < self.deleted_commands.len()
            invariant
                k <= self.deleted_commands@.len(),
                forall|j: int| 0 <= j < k ==> text_before(#[trigger] self.listed()[j], text@),
            decreases self.deleted_commands@.len() - k,
        {
            if !text_precedes(self.deleted_commands[k].as_str(), text) {
                return k;
            }
            k += 1;
        }
        k
    }

    /// Whether `text` is in the set.
    pub fn contains(&self, text: &str) -> (r: bool)
        requires
            self.wf(),
        ensures
            r == self@.contains(text@),
    {
        let k = self.slot(text);
        let key = text.to_owned();
        let ghost s = self.listed();
        if k < self.deleted_commands.len() && self.deleted_commands[k] == key {
            assert(s[k as int] == text@);
            true
        } else {
            proof {
                lemma_absent(s, text@, k as int);
            }
            false
        }
    }

    /// Puts `text` into the set.
    pub fn add(&mut self, text: &str)
        requires
            old(self).wf(),
        ensures
            final(self).wf(),
            final(self)@ == old(self)@.insert(text@),
    {
        let k = self.slot(text);
        let key = text.to_owned();
        let ghost s = self.listed();
        if k < self.deleted_commands.len() && self.deleted_commands[k] == key {
            assert(s[k as int] == text@);
            assert(self@ =~= self@.insert(text@));
        } else {
            proof {
                lemma_absent(s, text@, k as int);
                lemma_insert_ascending(s, text@, k as int);
            }
            self.deleted_commands.insert(k, key);
            assert(self.listed() =~= s.insert(k as int, text@));
        }
    }

    /// Copies of the texts, in ascending order.
    pub fn texts(&self) -> (r: Vec<String>)
        ensures
            string_views(r@) == self.listed(),
    {
        let mut out: Vec<String> = Vec::new();
        let mut i: usize = 0;
        while i < self.deleted_commands.len()
            invariant
                i <= self.deleted_commands@.len(),
                out@.len() == i,
                forall|j: int| 0 <= j < i ==> (#[trigger] out@[j])@ == self.deleted_commands@[j]@,
            decreases self.deleted_commands@.len() - i,
        {
            out.push(self.deleted_commands[i].clone());
            i += 1;
        }
        assert(string_views(out@) =~= self.listed());
        out
    }

    /// The set of the given texts.
    pub fn from_texts(texts: &Vec<String>) -> (r: TombstoneSet)
        ensures
            r.wf(),
            r@ == members(string_views(texts@)),
    {
        let mut out = TombstoneSet::new();
        let mut i: usize = 0;
        assert(out@ =~= members(string_views(texts@).take(0)));
        while i < texts.len()
            invariant
                i <= texts@.len(),
                out.wf(),
                out@ == members(string_views(texts@).take(i as int)),
            decreases texts@.len() - i,
        {
            let ghost all = string_views(texts@);
            out.add(texts[i].as_str());
            proof {
                let before = all.take(i as int);
                let after = all.take(i + 1);
                assert(after =~= before.push(all[i as int]));
                assert forall|t: Seq<char>| members(after).contains(t) <==> members(
                    before,
                ).insert(all[i as int]).contains(t) by {
                    if members(after).contains(t) {
                        let j = choose|j: int| 0 <= j < after.len() && #[trigger] after[j] == t;
                        if j < i {
                            assert(before[j] == t);
                        }
                    }
                    if members(before).contains(t) {
                        let j = choose|j: int| 0 <= j < before.len() && #[trigger] before[j] == t;
                        assert(after[j] == t);
                    }
                    if t == all[i as int] {
                        assert(after[i as int] == t);
                    }
                }
                assert(members(after) =~= members(before).insert(all[i as int]));
            }
            i += 1;
        }
        assert(string_views(texts@).take(texts@.len() as int) =~= string_views(texts@));
        out
    }
}

/// A text that is not at its slot in an ascending list is not in the list.
pub proof fn lemma_absent(s: Seq<Seq<char>>, text: Seq<char>, k: int)
    requires
        ascending(s),
        0 <= k <= s.len(),
        forall|j: int| 0 <= j < k ==> text_before(#[trigger] s[j], text),
        k < s.len() ==> !text_before(s[k], text) && s[k] != text,
    ensures
        !members(s).contains(text),
{
    if members(s).contains(text) {
        let i = choose|i: int| 0 <= i < s.len() && #[trigger] s[i] == text;
        if i < k {
            lemma_text_before_asymmetric(s[i], text);
        } else if i > k {
            assert(text_before(s[k], s[i]));
        }
    }
}

/// A text put at its slot leaves the list ascending, with one more member.
pub proof fn lemma_insert_ascending(s: Seq<Seq<char>>, text: Seq<char>, k: int)
    requires
        ascending(s),
        0 <= k <= s.len(),
        forall|j: int| 0 <= j < k ==> text_before(#[trigger] s[j], text),
        k < s.len() ==> !text_before(s[k], text) && s[k] != text,
    ensures
        ascending(s.insert(k, text)),
        members(s.insert(k, text)) == members(s).insert(text),
{
    let t = s.insert(k, text);
    assert(t[k] == text);
    assert forall|a: int| 0 <= a < t.len() && a != k implies #[trigger] t[a] == s[if a < k {
        a
    } else {
        a - 1
    }] by {}
    assert forall|m: int| k <= m < s.len() implies text_before(text, #[trigger] s[m]) by {
        crate::rank::lemma_text_before_total(s[k], text);
        if m > k {
            assert(text_before(s[k], s[m]));
            lemma_text_before_transitive(text, s[k], s[m]);
        }
    }
    assert forall|a: int, b: int| 0 <= a < b < t.len() implies text_before(
        #[trigger] t[a],
        #[trigger] t[b],
    ) by {
        if a == k {
            assert(t[b] == s[b - 1]);
        } else if b == k {
            assert(t[a] == s[a]);
        } else {
            let a0 = if a < k { a } else { a - 1 };
            let b0 = if b < k { b } else { b - 1 };
            assert(text_before(s[a0], s[b0]));
        }
    }
    assert forall|x: Seq<char>| members(t).contains(x) <==> members(s).insert(text).contains(
        x,
    ) by {
        if members(t).contains(x) {
            let j = choose|j: int| 0 <= j < t.len() && #[trigger] t[j] == x;
            if j != k {
                let j0 = if j < k { j } else { j - 1 };
                assert(s[j0] == x);
            }
        }
        if members(s).contains(x) {
            let j = choose|j: int| 0 <= j < s.len() && #[trigger] s[j] == x;
            let j1 = if j < k { j } else { j + 1 };
            assert(t[j1] == x);
        }
    }
    assert(members(t) =~= members(s).insert(text));
}

} // verus!
