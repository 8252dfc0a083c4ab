//! Character-level text operations: whitespace, trimming and word splitting.
//!
//! Every function works on sequences of Unicode scalar values. The
//! specifications are stated over `Seq<char>`, the view of `str` and `String`.

use vstd::prelude::*;

verus! {

/// `String::push` appends one character to the end of the string.
pub assume_specification[ String::push ](s: &mut String, c: char)
    ensures
        final(s)@ == old(s)@.push(c),
;

/// Whether `c` has the Unicode `White_Space` property.
pub open spec fn is_space(c: char) -> bool {
    let u = c as int;
    ||| 0x09 <= u <= 0x0D
    ||| u == 0x20
    ||| u == 0x85
    ||| u == 0xA0
    ||| u == 0x1680
    ||| 0x2000 <= u <= 0x200A
    ||| u == 0x2028
    ||| u == 0x2029
    ||| u == 0x202F
    ||| u == 0x205F
    ||| u == 0x3000
}

/// A character is plain when it is ASCII or whitespace.
pub open spec fn is_plain(c: char) -> bool {
    (c as int) < 0x80 || is_space(c)
}

/// Every character of `s` is plain.
pub open spec fn all_plain(s: Seq<char>) -> bool {
    forall|i: int| 0 <= i < s.len() ==> is_plain(#[trigger] s[i])
}

/// `s` without its leading whitespace.
pub open spec fn trim_start(s: Seq<char>) -> Seq<char>
    decreases s.len(),
{
    if s.len() > 0 && is_space(s[0]) {
        trim_start(s.skip(1))
    } else {
        s
    }
}

/// `s` without its trailing whitespace.
pub open spec fn trim_end(s: Seq<char>) -> Seq<char>
    decreases s.len(),
{
    if s.len() > 0 && is_space(s.last()) {
        trim_end(s.drop_last())
    } else {
        s
    }
}

/// `s` without leading and trailing whitespace.
pub open spec fn trim(s: Seq<char>) -> Seq<char> {
    trim_end(trim_start(s))
}

/// The maximal runs of non-whitespace characters of `s`, in order.
///
/// Defined by the last character: whitespace adds nothing, a character that
/// follows a non-whitespace character extends the last word, and any other
/// character starts a new word.
pub open spec fn tokens(s: Seq<char>) -> Seq<Seq<char>>
    decreases s.len(),
{
    if s.len() == 0 {
        Seq::empty()
    } else {
        let before = tokens(s.drop_last());
        let c = s.last();
        if is_space(c) {
            before
        } else if s.len() >= 2 && !is_space(s[s.len() - 2]) && before.len() > 0 {
            before.drop_last().push(before.last().push(c))
        } else {
            before.push(seq![c])
        }
    }
}

/// The sum of the lengths of the words in `ts`.
pub open spec fn total_len(ts: Seq<Seq<char>>) -> nat
    decreases ts.len(),
{
    if ts.len() == 0 {
        0
    } else {
        total_len(ts.drop_last()) + ts.last().len()
    }
}

/// The summed length of the words of `s`; separators are not counted.
pub open spec fn token_length(s: Seq<char>) -> nat {
    total_len(tokens(s))
}

/// The number of words of `s`.
pub open spec fn token_count(s: Seq<char>) -> nat {
    tokens(s).len()
}

/// The words of `ts` joined by single spaces.
pub open spec fn joined(ts: Seq<Seq<char>>) -> Seq<char>
    decreases ts.len(),
{
    if ts.len() == 0 {
        Seq::empty()
    } else if ts.len() == 1 {
        ts[0]
    } else {
        joined(ts.drop_last()).push(' ') + ts.last()
    }
}

/// The position of the first occurrence of `c` in `s`, or the length of `s`
/// when `c` does not occur.
pub open spec fn index_of(s: Seq<char>, c: char) -> int
    decreases s.len(),
{
    if s.len() == 0 || s[0] == c {
        0
    } else {
        1 + index_of(s.skip(1), c)
    }
}

/// The pieces of `s` between line feeds, in order. A text without a line feed
/// is one piece; a text that ends in a line feed has an empty last piece.
pub open spec fn split_lines(s: Seq<char>) -> Seq<Seq<char>>
    decreases s.len(),
{
    if s.len() == 0 {
        seq![Seq::empty()]
    } else {
        let before = split_lines(s.drop_last());
        if s.last() == '\n' {
            before.push(Seq::empty())
        } else if before.len() > 0 {
            before.drop_last().push(before.last().push(s.last()))
        } else {
            before
        }
    }
}

/// The views of a sequence of character vectors.
pub open spec fn word_views(v: Seq<Vec<char>>) -> Seq<Seq<char>> {
    Seq::new(v.len(), |i: int| v[i]@)
}

/// The views of a sequence of strings.
pub open spec fn string_views(v: Seq<String>) -> Seq<Seq<char>> {
    Seq::new(v.len(), |i: int| v[i]@)
}

/// A position that holds `c`, with no `c` before it, is `index_of`.
pub proof fn lemma_index_of(s: Seq<char>, c: char, i: int)
    requires
        0 <= i <= s.len(),
        forall|j: int| 0 <= j < i ==> s[j] != c,
        i == s.len() || s[i] == c,
    ensures
        index_of(s, c) == i,
    decreases i,
{
    if i > 0 {
        let t = s.skip(1);
        assert forall|j: int| 0 <= j < i - 1 implies t[j] != c by {
            assert(t[j] == s[j + 1]);
        }
        lemma_index_of(t, c, i - 1);
    }
}

/// Where the first `a` characters are whitespace and the next is not, the
/// text without its leading whitespace starts at `a`.
pub proof fn lemma_trim_start_skip(s: Seq<char>, a: int)
    requires
        0 <= a <= s.len(),
        forall|j: int| 0 <= j < a ==> is_space(#[trigger] s[j]),
        a == s.len() || !is_space(s[a]),
    ensures
        trim_start(s) == s.skip(a),
    decreases a,
{
    if a == 0 {
        assert(s.skip(0) =~= s);
    } else {
        let t = s.skip(1);
        assert forall|j: int| 0 <= j < a - 1 implies is_space(#[trigger] t[j]) by {
            assert(t[j] == s[j + 1]);
        }
        lemma_trim_start_skip(t, a - 1);
        assert(t.skip(a - 1) =~= s.skip(a));
    }
}

/// Where the characters from `b` on are whitespace and the one before is
/// not, the text without its trailing whitespace ends at `b`.
pub proof fn lemma_trim_end_take(s: Seq<char>, b: int)
    requires
        0 <= b <= s.len(),
        forall|j: int| b <= j < s.len() ==> is_space(#[trigger] s[j]),
        b == 0 || !is_space(s[b - 1]),
    ensures
        trim_end(s) == s.take(b),
    decreases s.len() - b,
{
    if b == s.len() {
        assert(s.take(b) =~= s);
    } else {
        let t = s.drop_last();
        lemma_trim_end_take(t, b);
        assert(t.take(b) =~= s.take(b));
    }
}

/// What is left of a text without its leading whitespace is the end of the
/// text, and does not start with whitespace.
pub proof fn lemma_trim_start(s: Seq<char>)
    ensures
        trim_start(s).len() <= s.len(),
        trim_start(s) == s.skip(s.len() - trim_start(s).len()),
        trim_start(s).len() > 0 ==> !is_space(trim_start(s)[0]),
    decreases s.len(),
{
    if s.len() > 0 && is_space(s[0]) {
        let t = s.skip(1);
        lemma_trim_start(t);
        assert(t.skip(t.len() - trim_start(t).len()) =~= s.skip(s.len() - trim_start(t).len()));
    } else {
        assert(s.skip(0) =~= s);
    }
}

/// What is left of a text without its trailing whitespace is the start of
/// the text, and does not end in whitespace.
pub proof fn lemma_trim_end(s: Seq<char>)
    ensures
        trim_end(s).len() <= s.len(),
        trim_end(s) == s.take(trim_end(s).len() as int),
        trim_end(s).len() > 0 ==> !is_space(trim_end(s).last()),
    decreases s.len(),
{
    if s.len() > 0 && is_space(s.last()) {
        let t = s.drop_last();
        lemma_trim_end(t);
        assert(t.take(trim_end(t).len() as int) =~= s.take(trim_end(t).len() as int));
    } else {
        assert(s.take(s.len() as int) =~= s);
    }
}

/// A trimmed text neither starts nor ends with whitespace, trimming it again
/// changes nothing, and it is plain where the text was.
pub proof fn lemma_trim(s: Seq<char>)
    ensures
        trim(s).len() > 0 ==> !is_space(trim(s)[0]) && !is_space(trim(s).last()),
        trim(trim(s)) == trim(s),
        all_plain(s) ==> all_plain(trim(s)),
        trim(s).len() <= s.len(),
{
    let a = trim_start(s);
    let t = trim(s);
    lemma_trim_start(s);
    lemma_trim_end(a);
    if t.len() > 0 {
        assert(t[0] == a[0]);
    }
    if all_plain(s) {
        assert forall|i: int| 0 <= i < t.len() implies is_plain(#[trigger] t[i]) by {
            assert(t[i] == a[i]);
            assert(a[i] == s[i + (s.len() - a.len())]);
        }
    }
}

/// Whether `w` is a word: it has a character, and none of its characters is
/// whitespace.
pub open spec fn is_word(w: Seq<char>) -> bool {
    w.len() > 0 && forall|j: int| 0 <= j < w.len() ==> !is_space(#[trigger] w[j])
}

/// Every element of `ws` is a word.
pub open spec fn all_words(ws: Seq<Seq<char>>) -> bool {
    forall|i: int| 0 <= i < ws.len() ==> is_word(#[trigger] ws[i])
}

/// The words of a text are words: each has a character, and none of its
/// characters is whitespace.
pub proof fn law_words_hold_no_whitespace(s: Seq<char>)
    ensures
        all_words(tokens(s)),
    decreases s.len(),
{
    if s.len() > 0 {
        let before = tokens(s.drop_last());
        let c = s.last();
        law_words_hold_no_whitespace(s.drop_last());
        if !is_space(c) {
            if s.len() >= 2 && !is_space(s[s.len() - 2]) && before.len() > 0 {
                let t = before.drop_last().push(before.last().push(c));
                assert forall|i: int| 0 <= i < t.len() implies (#[trigger] t[i]).len() > 0
                    && forall|j: int| 0 <= j < t[i].len() ==> !is_space(#[trigger] t[i][j]) by {
                    if i < t.len() - 1 {
                        assert(t[i] == before[i]);
                    } else {
                        let w = before.last();
                        assert(before[before.len() - 1] == w);
                        assert forall|j: int| 0 <= j < t[i].len() implies !is_space(
                            #[trigger] t[i][j],
                        ) by {
                            if j < w.len() {
                                assert(t[i][j] == w[j]);
                            }
                        }
                    }
                }
            } else {
                let t = before.push(seq![c]);
                assert forall|i: int| 0 <= i < t.len() implies (#[trigger] t[i]).len() > 0
                    && forall|j: int| 0 <= j < t[i].len() ==> !is_space(#[trigger] t[i][j]) by {
                    if i < t.len() - 1 {
                        assert(t[i] == before[i]);
                    }
                }
            }
        }
    }
}

/// A word behind a text that is empty or ends in whitespace is one more word
/// of the whole.
pub proof fn lemma_tokens_append_word(a: Seq<char>, w: Seq<char>)
    requires
        is_word(w),
        a.len() == 0 || is_space(a.last()),
    ensures
        tokens(a + w) == tokens(a).push(w),
    decreases w.len(),
{
    let s = a + w;
    let c = w.last();
    let shorter = w.drop_last();
    assert(s.drop_last() =~= a + shorter);
    assert(s.last() == c);
    assert(!is_space(w[w.len() - 1]));
    if shorter.len() == 0 {
        assert(a + shorter =~= a);
        assert(w =~= seq![c]);
        if a.len() > 0 {
            assert(s[s.len() - 2] == a.last());
        }
    } else {
        assert forall|j: int| 0 <= j < shorter.len() implies !is_space(#[trigger] shorter[j]) by {
            assert(shorter[j] == w[j]);
        }
        lemma_tokens_append_word(a, shorter);
        assert(s[s.len() - 2] == shorter.last());
        assert(shorter.last() == w[w.len() - 2]);
        let before = tokens(a).push(shorter);
        assert(before.drop_last() =~= tokens(a));
        assert(before.last().push(c) =~= w);
    }
}

/// The words of words joined by single spaces are those words.
pub proof fn lemma_tokens_of_joined(ws: Seq<Seq<char>>)
    requires
        all_words(ws),
    ensures
        tokens(joined(ws)) == ws,
    decreases ws.len(),
{
    if ws.len() == 0 {
        assert(ws =~= Seq::<Seq<char>>::empty());
    } else if ws.len() == 1 {
        assert(is_word(ws[0]));
        lemma_tokens_append_word(Seq::empty(), ws[0]);
        assert(Seq::<char>::empty() + ws[0] =~= ws[0]);
        assert(Seq::<Seq<char>>::empty().push(ws[0]) =~= ws);
    } else {
        let p = ws.drop_last();
        assert forall|i: int| 0 <= i < p.len() implies is_word(#[trigger] p[i]) by {
            assert(p[i] == ws[i]);
        }
        lemma_tokens_of_joined(p);
        let a = joined(p).push(' ');
        assert(a.drop_last() =~= joined(p));
        assert(is_word(ws[ws.len() - 1]));
        lemma_tokens_append_word(a, ws.last());
        assert(p.push(ws.last()) =~= ws);
    }
}

/// Joined words are longer than any shorter run of them joined.
pub proof fn lemma_joined_grows(ws: Seq<Seq<char>>, j: int, k: int)
    requires
        all_words(ws),
        0 <= j < k <= ws.len(),
    ensures
        joined(ws.take(j)).len() < joined(ws.take(k)).len(),
    decreases k - j,
{
    let upto = ws.take(k);
    assert(upto.drop_last() =~= ws.take(k - 1));
    assert(is_word(ws[k - 1]));
    assert(upto.last() == ws[k - 1]);
    if k == 1 {
        assert(ws.take(0) =~= Seq::<Seq<char>>::empty());
    } else if j < k - 1 {
        lemma_joined_grows(ws, j, k - 1);
    }
}

/// How the word length and the word count of a text follow from those of the
/// text without its last character.
pub proof fn lemma_tokens_step(s: Seq<char>)
    requires
        s.len() > 0,
    ensures
        !is_space(s.last()) ==> token_count(s) > 0,
        is_space(s.last()) ==> token_length(s) == token_length(s.drop_last()) && token_count(s)
            == token_count(s.drop_last()),
        !is_space(s.last()) ==> token_length(s) == token_length(s.drop_last()) + 1,
        !is_space(s.last()) && s.len() >= 2 && !is_space(s[s.len() - 2]) ==> token_count(s)
            == token_count(s.drop_last()),
        !is_space(s.last()) && (s.len() < 2 || is_space(s[s.len() - 2])) ==> token_count(s)
            == token_count(s.drop_last()) + 1,
    decreases s.len(),
{
    let p = s.drop_last();
    let before = tokens(p);
    let c = s.last();
    if !is_space(c) {
        if s.len() >= 2 && !is_space(s[s.len() - 2]) {
            assert(p.last() == s[s.len() - 2]);
            lemma_tokens_step(p);
            assert(before.len() > 0);
            let t = before.drop_last().push(before.last().push(c));
            assert(t.drop_last() =~= before.drop_last());
        } else {
            let t = before.push(seq![c]);
            assert(t.drop_last() =~= before);
        }
    }
}

/// Whether `c` is whitespace.
pub fn is_whitespace(c: char) -> (r: bool)
    ensures
        r == is_space(c),
{
    let u: u32 = c as u32;
    (0x09 <= u && u <= 0x0D) || u == 0x20 || u == 0x85 || u == 0xA0 || u == 0x1680 || (0x2000 <= u
        && u <= 0x200A) || u == 0x2028 || u == 0x2029 || u == 0x202F || u == 0x205F || u == 0x3000
}

/// Whether `c` is ASCII or whitespace.
pub fn is_plain_char(c: char) -> (r: bool)
    ensures
        r == is_plain(c),
{
    let u: u32 = c as u32;
    u < 0x80 || is_whitespace(c)
}

/// The characters of `s`.
pub fn to_chars(s: &str) -> (r: Vec<char>)
    ensures
        r@ == s@,
{
    let mut out: Vec<char> = Vec::new();
    for c in it: s.chars()
        invariant
            it.seq() == s@,
            out@ == s@.take(it.index()),
    {
        out.push(c);
    }
    out
}

/// The string made of the characters of `v`.
pub fn from_chars(v: &Vec<char>) -> (r: String)
    ensures
        r@ == v@,
{
    let mut out = String::new();
    let mut i: usize = 0;
    while i < v.len()
        invariant
            i <= v.len(),
            out@ == v@.take(i as int),
        decreases v.len() - i,
    {
        out.push(v[i]);
        assert(v@.take(i as int).push(v@[i as int]) =~= v@.take(i + 1));
        i += 1;
    }
    assert(v@.take(v.len() as int) =~= v@);
    out
}

/// A copy of the characters of `s` from `from` up to `to`.
pub fn copy_range(s: &Vec<char>, from: usize, to: usize) -> (r: Vec<char>)
    requires
        from <= to <= s.len(),
    ensures
        r@ == s@.subrange(from as int, to as int),
{
    let mut out: Vec<char> = Vec::new();
    let mut i: usize = from;
    while i < to
        invariant
            from <= i <= to <= s.len(),
            out@ == s@.subrange(from as int, i as int),
        decreases to - i,
    {
        out.push(s[i]);
        assert(s@.subrange(from as int, i as int).push(s@[i as int]) =~= s@.subrange(
            from as int,
            i + 1,
        ));
        i += 1;
    }
    out
}

/// Whether every character of `s` is ASCII or whitespace.
pub fn all_plain_chars(s: &Vec<char>) -> (r: bool)
    ensures
        r == all_plain(s@),
{
    let mut i: usize = 0;
    while i < s.len()
        invariant
            i <= s.len(),
            forall|j: int| 0 <= j < i ==> is_plain(#[trigger] s@[j]),
        decreases s.len() - i,
    {
        if !is_plain_char(s[i]) {
            return false;
        }
        i += 1;
    }
    true
}

/// `s` without leading and trailing whitespace.
pub fn trimmed(s: &Vec<char>) -> (r: Vec<char>)
    ensures
        r@ == trim(s@),
{
    let mut a: usize = 0;
    while a < s.len() && is_whitespace(s[a])
        invariant
            a <= s.len(),
            forall|j: int| 0 <= j < a ==> is_space(#[trigger] s@[j]),
        decreases s.len() - a,
    {
        a += 1;
    }
    let mut b: usize = s.len();
    while b > a && is_whitespace(s[b - 1])
        invariant
            a <= b <= s.len(),
            forall|j: int| b <= j < s.len() ==> is_space(#[trigger] s@[j]),
        decreases b,
    {
        b -= 1;
    }
    proof {
        lemma_trim_start_skip(s@, a as int);
        let t = s@.skip(a as int);
        assert forall|j: int| b - a <= j < t.len() implies is_space(#[trigger] t[j]) by {
            assert(t[j] == s@[j + a]);
        }
        if b > a {
            assert(t[b - a - 1] == s@[b - 1]);
        }
        lemma_trim_end_take(t, b - a);
        assert(t.take(b - a) =~= s@.subrange(a as int, b as int));
    }
    copy_range(s, a, b)
}

/// Whether `s` starts with `p`.
pub fn has_prefix(s: &Vec<char>, p: &Vec<char>) -> (r: bool)
    ensures
        r == p@.is_prefix_of(s@),
{
    if p.len() > s.len() {
        return false;
    }
    let mut i: usize = 0;
    while i < p.len()
        invariant
            i <= p.len() <= s.len(),
            forall|j: int| 0 <= j < i ==> s@[j] == p@[j],
        decreases p.len() - i,
    {
        if s[i] != p[i] {
            assert(s@.subrange(0, p@.len() as int)[i as int] != p@[i as int]);
            return false;
        }
        i += 1;
    }
    assert(s@.subrange(0, p@.len() as int) =~= p@);
    true
}

/// Whether `a` and `b` hold the same characters.
pub fn same_chars(a: &Vec<char>, b: &Vec<char>) -> (r: bool)
    ensures
        r == (a@ == b@),
{
    if a.len() != b.len() {
        return false;
    }
    let r = has_prefix(a, b);
    assert(a@.subrange(0, b@.len() as int) =~= a@);
    r
}

/// Appends the characters of `tail` to `s`.
pub fn append_chars(s: &mut Vec<char>, tail: &Vec<char>)
    ensures
        final(s)@ == old(s)@ + tail@,
{
    let ghost start = s@;
    let mut i: usize = 0;
    assert(start + tail@.take(0) =~= start);
    while i < tail.len()
        invariant
            i <= tail.len(),
            s@ == start + tail@.take(i as int),
        decreases tail.len() - i,
    {
        s.push(tail[i]);
        assert((start + tail@.take(i as int)).push(tail@[i as int]) =~= start + tail@.take(i + 1));
        i += 1;
    }
    assert(tail@.take(tail.len() as int) =~= tail@);
}

/// The position of the first `c` in `s`, or the length of `s` without one.
pub fn find_char(s: &Vec<char>, c: char) -> (r: usize)
    ensures
        r == index_of(s@, c),
        r <= s.len(),
{
    let mut i: usize = 0;
    while i < s.len()
        invariant
            i <= s.len(),
            forall|j: int| 0 <= j < i ==> s@[j] != c,
        decreases s.len() - i,
    {
        if s[i] == c {
            proof {
                lemma_index_of(s@, c, i as int);
            }
            return i;
        }
        i += 1;
    }
    proof {
        lemma_index_of(s@, c, i as int);
    }
    i
}

/// The words of `s`: its maximal runs of non-whitespace characters.
pub fn split_words(s: &Vec<char>) -> (r: Vec<Vec<char>>)
    ensures
        word_views(r@) == tokens(s@),
{
    let mut out: Vec<Vec<char>> = Vec::new();
    let mut cur: Vec<char> = Vec::new();
    let mut i: usize = 0;
    assert(word_views(out@) =~= tokens(s@.take(0)));
    while i < s.len()
        invariant
            i <= s.len(),
            cur@.len() > 0 <==> (i > 0 && !is_space(s@[i - 1])),
            tokens(s@.take(i as int)) == if cur@.len() > 0 {
                word_views(out@).push(cur@)
            } else {
                word_views(out@)
            },
        decreases s.len() - i,
    {
        let c = s[i];
        proof {
            let t = s@.take(i + 1);
            assert(t.drop_last() =~= s@.take(i as int));
            assert(t.last() == c);
            if i > 0 {
                assert(t[t.len() - 2] == s@[i - 1]);
            }
        }
        let ghost before = word_views(out@);
        let ghost old_cur = cur@;
        if is_whitespace(c) {
            if cur.len() > 0 {
                out.push(cur);
                cur = Vec::new();
                assert(word_views(out@) =~= before.push(old_cur));
            }
        } else {
            cur.push(c);
            proof {
                if old_cur.len() > 0 {
                    assert(before.push(old_cur).drop_last() =~= before);
                    assert(before.push(old_cur).last() == old_cur);
                } else {
                    assert(cur@ =~= seq![c]);
                }
            }
        }
        i += 1;
    }
    assert(s@.take(s.len() as int) =~= s@);
    if cur.len() > 0 {
        let ghost before = word_views(out@);
        out.push(cur);
        assert(word_views(out@) =~= before.push(out@.last()@));
    }
    out
}

/// The summed length of the words of `s` and their number.
pub fn measure(s: &Vec<char>) -> (r: (u64, u64))
    ensures
        r.0 == token_length(s@),
        r.1 == token_count(s@),
{
    let mut length: u64 = 0;
    let mut words: u64 = 0;
    let mut in_word: bool = false;
    let mut i: usize = 0;
    assert(s@.take(0) =~= Seq::<char>::empty());
    while i < s.len()
        invariant
            i <= s.len(),
            length == token_length(s@.take(i as int)),
            words == token_count(s@.take(i as int)),
            words <= length <= i,
            in_word <==> (i > 0 && !is_space(s@[i - 1])),
        decreases s.len() - i,
    {
        let c = s[i];
        proof {
            let t = s@.take(i + 1);
            assert(t.drop_last() =~= s@.take(i as int));
            assert(t.last() == c);
            if i > 0 {
                assert(t[t.len() - 2] == s@[i - 1]);
            }
            lemma_tokens_step(t);
        }
        if is_whitespace(c) {
            in_word = false;
        } else {
            length += 1;
            if !in_word {
                words += 1;
            }
            in_word = true;
        }
        i += 1;
    }
    assert(s@.take(s.len() as int) =~= s@);
    (length, words)
}

/// The pieces of `s` between line feeds.
pub fn lines_of(s: &Vec<char>) -> (r: Vec<Vec<char>>)
    ensures
        word_views(r@) == split_lines(s@),
{
    let mut out: Vec<Vec<char>> = Vec::new();
    let mut cur: Vec<char> = Vec::new();
    let mut i: usize = 0;
    assert(word_views(out@).push(cur@) =~= split_lines(s@.take(0)));
    while i < s.len()
        invariant
            i <= s.len(),
            split_lines(s@.take(i as int)) == word_views(out@).push(cur@),
        decreases s.len() - i,
    {
        let c = s[i];
        proof {
            let t = s@.take(i + 1);
            assert(t.drop_last() =~= s@.take(i as int));
            assert(t.last() == c);
        }
        let ghost before = word_views(out@);
        let ghost old_cur = cur@;
        assert(before.push(old_cur).drop_last() =~= before);
        if c == '\n' {
            out.push(cur);
            cur = Vec::new();
            assert(word_views(out@) =~= before.push(old_cur));
        } else {
            cur.push(c);
        }
        i += 1;
    }
    assert(s@.take(s.len() as int) =~= s@);
    let ghost before = word_views(out@);
    let ghost last = cur@;
    out.push(cur);
    assert(word_views(out@) =~= before.push(last));
    out
}

} // verus!
