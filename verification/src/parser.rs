//! Tokenizing a document into words and the offsets at which they occur.
//!
//! A document is lower-cased, every character that is neither alphabetic nor
//! a separator (space, tab, newline) is dropped, and the rest is cut into
//! words: maximal runs of non-separator characters. Each occurrence of a word
//! is recorded with an offset, counted in characters of the cleaned text: the
//! position of the separator just before the word, or 0 for a word at the very
//! start.
use vstd::prelude::*;
use vstd::hash_map::StringHashMap;
use crate::text::{alphabetic, is_alphabetic, lowercase, push_char, to_lowercase};

verus! {

/// Positions of a word inside a document.
pub type Offset = u64;

/// Characters that separate words.
pub open spec fn is_separator(c: char) -> bool {
    c == ' ' || c == '\t' || c == '\n'
}

/// Characters that survive cleaning: alphabetic characters and separators.
pub open spec fn is_kept(c: char) -> bool {
    alphabetic(c) || is_separator(c)
}

/// The text with every character that is not kept removed.
pub open spec fn clean(s: Seq<char>) -> Seq<char>
    decreases s.len(),
{
    if s.len() == 0 {
        s
    } else if is_kept(s.last()) {
        clean(s.drop_last()).push(s.last())
    } else {
        clean(s.drop_last())
    }
}

/// Start of the run of non-separator characters that ends just before `i`
/// (`i` itself when `s[i - 1]` is a separator or `i` is 0).
pub open spec fn run_start(s: Seq<char>, i: int) -> int
    decreases i,
{
    if i <= 0 || is_separator(s[i - 1]) {
        i
    } else {
        run_start(s, i - 1)
    }
}

/// The offset recorded for a word that starts at `start`: the position of
/// the separator before it, or 0 at the start of the text.
pub open spec fn offset_of_start(start: int) -> int {
    if start == 0 { 0 } else { start - 1 }
}

/// The word occurrences of `s` that a separator before position `i` ends,
/// in order, each with its offset.
pub open spec fn closed_tokens(s: Seq<char>, i: int) -> Seq<(Seq<char>, int)>
    decreases i,
{
    if i <= 0 {
        Seq::empty()
    } else {
        let prev = closed_tokens(s, i - 1);
        let st = run_start(s, i - 1);
        if is_separator(s[i - 1]) && st < i - 1 {
            prev.push((s.subrange(st, i - 1), offset_of_start(st)))
        } else {
            prev
        }
    }
}

/// All word occurrences of `s`, in order, each with its offset.
pub open spec fn tokens(s: Seq<char>) -> Seq<(Seq<char>, int)> {
    let n = s.len() as int;
    let st = run_start(s, n);
    if st < n {
        closed_tokens(s, n).push((s.subrange(st, n), offset_of_start(st)))
    } else {
        closed_tokens(s, n)
    }
}

/// Each word of a token sequence mapped to the offsets of its occurrences,
/// in order of occurrence.
pub open spec fn word_index(toks: Seq<(Seq<char>, int)>) -> Map<Seq<char>, Seq<Offset>>
    decreases toks.len(),
{
    if toks.len() == 0 {
        Map::empty()
    } else {
        let m = word_index(toks.drop_last());
        let (w, o) = toks.last();
        let before = if m.contains_key(w) { m[w] } else { Seq::empty() };
        m.insert(w, before.push(o as Offset))
    }
}

/// The word index of a document's text.
pub open spec fn parse_spec(text: Seq<char>) -> Map<Seq<char>, Seq<Offset>> {
    word_index(tokens(clean(lowercase(text))))
}

/// `entries` lists the map `m`: each key exactly once, with its value.
pub open spec fn lists_map(entries: Seq<(String, Vec<Offset>)>, m: Map<Seq<char>, Seq<Offset>>) -> bool {
    &&& forall|k: int, l: int|
        0 <= k < entries.len() && 0 <= l < entries.len() && k != l
            ==> #[trigger] entries[k].0@ != #[trigger] entries[l].0@
    &&& forall|k: int|
        0 <= k < entries.len() ==> m.contains_key(#[trigger] entries[k].0@) && entries[k].1@ == m[entries[k].0@]
    &&& forall|w: Seq<char>| #[trigger] m.contains_key(w) ==> exists|k: int| 0 <= k < entries.len() && entries[k].0@ == w
}

/// The table under construction: `entries` lists `m`, and `slots` gives the
/// position of each word in `entries`.
spec fn table_inv(entries: Seq<(String, Vec<Offset>)>, slots: Map<Seq<char>, usize>, m: Map<Seq<char>, Seq<Offset>>) -> bool {
    &&& forall|w: Seq<char>| #[trigger] slots.contains_key(w) <==> m.contains_key(w)
    &&& forall|w: Seq<char>| #[trigger] m.contains_key(w) ==> {
        &&& slots[w] < entries.len()
        &&& entries[slots[w] as int].0@ == w
        &&& entries[slots[w] as int].1@ == m[w]
    }
    &&& forall|k: int| 0 <= k < entries.len() ==> {
        &&& slots.contains_key(#[trigger] entries[k].0@)
        &&& slots[entries[k].0@] == k
    }
}

proof fn lemma_table_inv_lists(entries: Seq<(String, Vec<Offset>)>, slots: Map<Seq<char>, usize>, m: Map<Seq<char>, Seq<Offset>>)
    requires
        table_inv(entries, slots, m),
    ensures
        lists_map(entries, m),
{
    assert forall|w: Seq<char>| #[trigger] m.contains_key(w) implies exists|k: int| 0 <= k < entries.len() && entries[k].0@ == w by {
        let k = slots[w] as int;
        assert(entries[k].0@ == w);
    }
}

/// Records one occurrence of `word` at `offset` in the table.
fn record(
    entries: &mut Vec<(String, Vec<Offset>)>,
    slots: &mut StringHashMap<usize>,
    word: &String,
    offset: Offset,
    Ghost(m): Ghost<Map<Seq<char>, Seq<Offset>>>,
)
    requires
        table_inv(old(entries)@, old(slots)@, m),
    ensures
        table_inv(final(entries)@, final(slots)@, m.insert(word@, (if m.contains_key(word@) { m[word@] } else { Seq::empty() }).push(offset))),
{
    let ghost m2 = m.insert(word@, (if m.contains_key(word@) { m[word@] } else { Seq::empty() }).push(offset));
    match slots.get(word.as_str()) {
        Some(slot) => {
            let slot: usize = *slot;
            entries[slot].1.push(offset);
            proof {
                assert forall|k: int| 0 <= k < entries.len() && k != slot implies #[trigger] entries@[k] == old(entries)@[k] by {}
            }
        }
        None => {
            let slot: usize = entries.len();
            let mut ps: Vec<Offset> = Vec::new();
            ps.push(offset);
            entries.push((word.clone(), ps));
            slots.insert(word.clone(), slot);
        }
    }
    assert(table_inv(entries@, slots@, m2));
}

/// Cuts already cleaned text into words and records every occurrence of each
/// word with its offset.
pub fn tokenize(chars: &Vec<char>) -> (entries: Vec<(String, Vec<Offset>)>)
    ensures
        lists_map(entries@, word_index(tokens(chars@))),
{
    let ghost s = chars@;
    let mut entries: Vec<(String, Vec<Offset>)> = Vec::new();
    let mut slots: StringHashMap<usize> = StringHashMap::new();
    let mut intermediate: String = String::new();
    let mut beginning: Offset = 0;
    let n: usize = chars.len();
    let mut i: usize = 0;
    while i < n
        invariant
            n == s.len(),
            s == chars@,
            0 <= i <= n,
            intermediate@ == s.subrange(run_start(s, i as int), i as int),
            0 <= run_start(s, i as int) <= i,
            beginning as int == offset_of_start(run_start(s, i as int)),
            table_inv(entries@, slots@, word_index(closed_tokens(s, i as int))),
        decreases n - i,
    {
        let ch: char = chars[i];
        proof {
            assert(run_start(s, i + 1) == if is_separator(s[i as int]) { i + 1 } else { run_start(s, i as int) });
        }
        if ch != ' ' && ch != '\t' && ch != '\n' {
            push_char(&mut intermediate, ch);
            proof {
                assert(intermediate@ =~= s.subrange(run_start(s, i + 1), i + 1));
                assert(closed_tokens(s, i + 1) == closed_tokens(s, i as int));
            }
        } else {
            proof {
                assert(intermediate@.len() == i - run_start(s, i as int));
                let prev = closed_tokens(s, i as int);
                let tok = (s.subrange(run_start(s, i as int), i as int), offset_of_start(run_start(s, i as int)));
                if run_start(s, i as int) < i {
                    assert(closed_tokens(s, i + 1) == prev.push(tok));
                    assert(prev.push(tok).drop_last() =~= prev);
                } else {
                    assert(closed_tokens(s, i + 1) == prev);
                }
            }
            if !intermediate.as_str().is_empty() {
                record(&mut entries, &mut slots, &intermediate, beginning, Ghost(word_index(closed_tokens(s, i as int))));
            }
            beginning = i as Offset;
            intermediate = String::new();
            proof {
                assert(intermediate@ =~= s.subrange(run_start(s, i + 1), i + 1));
            }
        }
        i = i + 1;
    }
    if !intermediate.as_str().is_empty() {
        record(&mut entries, &mut slots, &intermediate, beginning, Ghost(word_index(closed_tokens(s, n as int))));
    }
    proof {
        let prev = closed_tokens(s, n as int);
        let tok = (s.subrange(run_start(s, n as int), n as int), offset_of_start(run_start(s, n as int)));
        assert(prev.push(tok).drop_last() =~= prev);
        lemma_table_inv_lists(entries@, slots@, word_index(tokens(s)));
    }
    entries
}

/// Removes every character that is neither alphabetic nor a separator.
pub fn clean_text(text: &str) -> (r: Vec<char>)
    ensures
        r@ == clean(text@),
{
    let mut r: Vec<char> = Vec::new();
    for c in it: text.chars()
        invariant
            it.seq() == text@,
            r@ == clean(text@.take(it.index())),
    {
        proof {
            assert(text@.take(it.index() + 1).drop_last() =~= text@.take(it.index()));
        }
        if is_alphabetic(c) || c == ' ' || c == '\n' || c == '\t' {
            r.push(c);
        }
    }
    proof {
        assert(text@.take(text@.len() as int) =~= text@);
    }
    r
}

/// The word index of a document: lower-cases the text, cleans it, cuts it
/// into words and lists each word with the offsets of its occurrences.
pub fn parse_text(text: &str) -> (entries: Vec<(String, Vec<Offset>)>)
    ensures
        lists_map(entries@, parse_spec(text@)),
{
    let lowered = to_lowercase(text);
    let cleaned = clean_text(lowered.as_str());
    tokenize(&cleaned)
}

/// Where the word reported with offset `o` starts: right after the
/// separator at `o`, or at 0 when the text starts with a word.
pub open spec fn word_start(s: Seq<char>, o: int) -> int {
    if o == 0 && s.len() > 0 && !is_separator(s[0]) { 0 } else { o + 1 }
}

/// `w`, reported with offset `o`, is a maximal run of non-separator
/// characters of `s` starting at `word_start(s, o)`.
pub open spec fn is_word_of(s: Seq<char>, w: Seq<char>, o: int) -> bool {
    let st = word_start(s, o);
    &&& w.len() > 0
    &&& 0 <= st
    &&& st + w.len() <= s.len()
    &&& s.subrange(st, st + w.len()) == w
    &&& forall|k: int| 0 <= k < w.len() ==> !is_separator(#[trigger] w[k])
    &&& st == 0 || is_separator(s[st - 1])
    &&& st + w.len() == s.len() || is_separator(s[st + w.len()])
}

proof fn lemma_run_start(s: Seq<char>, i: int)
    requires
        0 <= i <= s.len(),
    ensures
        0 <= run_start(s, i) <= i,
        forall|k: int| run_start(s, i) <= k < i ==> !is_separator(#[trigger] s[k]),
        run_start(s, i) == 0 || is_separator(s[run_start(s, i) - 1]),
    decreases i,
{
    if i > 0 && !is_separator(s[i - 1]) {
        lemma_run_start(s, i - 1);
    }
}

proof fn lemma_new_token(s: Seq<char>, i: int)
    requires
        0 <= i <= s.len(),
        run_start(s, i) < i,
        i == s.len() || is_separator(s[i]),
    ensures
        is_word_of(s, s.subrange(run_start(s, i), i), offset_of_start(run_start(s, i))),
{
    lemma_run_start(s, i);
    let st = run_start(s, i);
    let w = s.subrange(st, i);
    assert(word_start(s, offset_of_start(st)) == st);
    assert(s.subrange(st, st + w.len()) =~= w);
}

proof fn lemma_closed_tokens(s: Seq<char>, i: int)
    requires
        0 <= i <= s.len(),
    ensures
        forall|j: int| 0 <= j < closed_tokens(s, i).len() ==>
            is_word_of(s, (#[trigger] closed_tokens(s, i)[j]).0, closed_tokens(s, i)[j].1),
    decreases i,
{
    if i > 0 {
        lemma_closed_tokens(s, i - 1);
        let prev = closed_tokens(s, i - 1);
        if is_separator(s[i - 1]) && run_start(s, i - 1) < i - 1 {
            lemma_new_token(s, i - 1);
            assert forall|j: int| 0 <= j < closed_tokens(s, i).len() implies
                is_word_of(s, (#[trigger] closed_tokens(s, i)[j]).0, closed_tokens(s, i)[j].1) by {
                if j < prev.len() {
                    assert(closed_tokens(s, i)[j] == prev[j]);
                }
            }
        } else {
            assert(closed_tokens(s, i) == prev);
        }
    }
}

/// Every token of a text is a word of it: a non-empty maximal run of
/// non-separator characters, found at the position its offset gives (just
/// after the separator at the offset, or at the start of the text).
pub proof fn law_tokens_are_words(s: Seq<char>)
    ensures
        forall|j: int| 0 <= j < tokens(s).len() ==> is_word_of(s, (#[trigger] tokens(s)[j]).0, tokens(s)[j].1),
{
    lemma_closed_tokens(s, s.len() as int);
    lemma_run_start(s, s.len() as int);
    if run_start(s, s.len() as int) < s.len() {
        lemma_new_token(s, s.len() as int);
    }
}

/// The test for the characters a document keeps: alphabetic, space, tab or
/// newline.
pub open spec fn letter_or_separator() -> spec_fn(char) -> bool {
    |c: char| alphabetic(c) || c == ' ' || c == '\t' || c == '\n'
}

/// Cleaning keeps exactly the alphabetic characters, spaces, tabs and
/// newlines of the text, in order: every other character is dropped.
pub proof fn law_clean_keeps_letters_and_separators(s: Seq<char>)
    ensures
        clean(s) == s.filter(letter_or_separator()),
        forall|i: int| 0 <= i < clean(s).len() ==> {
            ||| alphabetic(#[trigger] clean(s)[i])
            ||| clean(s)[i] == ' '
            ||| clean(s)[i] == '\t'
            ||| clean(s)[i] == '\n'
        },
        clean(s).len() <= s.len(),
    decreases s.len(),
{
    let pred = letter_or_separator();
    reveal(Seq::filter);
    if s.len() > 0 {
        law_clean_keeps_letters_and_separators(s.drop_last());
        let c0 = clean(s.drop_last());
        assert(pred(s.last()) == is_kept(s.last()));
        assert(s.filter(pred) == (if pred(s.last()) {
            s.drop_last().filter(pred).push(s.last())
        } else {
            s.drop_last().filter(pred)
        }));
        if is_kept(s.last()) {
            assert forall|i: int| 0 <= i < clean(s).len() implies {
                ||| alphabetic(#[trigger] clean(s)[i])
                ||| clean(s)[i] == ' '
                ||| clean(s)[i] == '\t'
                ||| clean(s)[i] == '\n'
            } by {
                if i < c0.len() {
                    assert(clean(s)[i] == c0[i]);
                }
            }
        }
    }
    if s.len() == 0 {
        assert(clean(s) =~= s.filter(pred));
    }
}

/// A word recorded for a text is non-empty and holds alphabetic characters
/// only, never a space, tab or newline.
pub proof fn law_words_are_alphabetic(text: Seq<char>)
    ensures
        forall|w: Seq<char>| #[trigger] parse_spec(text).contains_key(w) ==> {
            &&& w.len() > 0
            &&& forall|k: int| 0 <= k < w.len() ==> alphabetic(#[trigger] w[k])
            &&& forall|k: int| 0 <= k < w.len() ==> {
                let c = #[trigger] w[k];
                c != ' ' && c != '\t' && c != '\n'
            }
        },
{
    let c = clean(lowercase(text));
    let toks = tokens(c);
    law_clean_keeps_letters_and_separators(lowercase(text));
    law_tokens_are_words(c);
    lemma_word_index_keys(toks);
    assert forall|w: Seq<char>| #[trigger] parse_spec(text).contains_key(w) implies {
        &&& w.len() > 0
        &&& forall|k: int| 0 <= k < w.len() ==> alphabetic(#[trigger] w[k])
        &&& forall|k: int| 0 <= k < w.len() ==> {
            let c = #[trigger] w[k];
            c != ' ' && c != '\t' && c != '\n'
        }
    } by {
        let j = choose|j: int| 0 <= j < toks.len() && toks[j].0 == w;
        assert(is_word_of(c, toks[j].0, toks[j].1));
        let st = word_start(c, toks[j].1);
        assert forall|k: int| 0 <= k < w.len() implies alphabetic(#[trigger] w[k]) by {
            assert(c.subrange(st, st + w.len())[k] == c[st + k]);
            assert(!is_separator(w[k]));
        }
    }
}

/// Every word of a token sequence's index is the word of some token.
proof fn lemma_word_index_keys(toks: Seq<(Seq<char>, int)>)
    ensures
        forall|w: Seq<char>| #[trigger] word_index(toks).contains_key(w) ==> exists|j: int| 0 <= j < toks.len() && toks[j].0 == w,
    decreases toks.len(),
{
    if toks.len() > 0 {
        let t0 = toks.drop_last();
        lemma_word_index_keys(t0);
        assert forall|w: Seq<char>| #[trigger] word_index(toks).contains_key(w) implies exists|j: int| 0 <= j < toks.len() && toks[j].0 == w by {
            if w == toks.last().0 {
                assert(toks[toks.len() - 1].0 == w);
            } else {
                assert(word_index(t0).contains_key(w));
                let j = choose|j: int| 0 <= j < t0.len() && t0[j].0 == w;
                assert(toks[j].0 == w);
            }
        }
    }
}

/// The offsets of the tokens closed before `i` lie before the start of the
/// run that ends at `i` (minus one: before the separator that opens it), and
/// increase from token to token.
proof fn lemma_closed_tokens_order(s: Seq<char>, i: int)
    requires
        0 <= i <= s.len(),
    ensures
        forall|j: int| 0 <= j < closed_tokens(s, i).len() ==>
            0 <= (#[trigger] closed_tokens(s, i)[j]).1 < run_start(s, i) - 1,
        forall|j: int, k: int| 0 <= j < k < closed_tokens(s, i).len() ==>
            (#[trigger] closed_tokens(s, i)[j]).1 < (#[trigger] closed_tokens(s, i)[k]).1,
    decreases i,
{
    if i > 0 {
        lemma_closed_tokens_order(s, i - 1);
        lemma_run_start(s, i - 1);
        lemma_run_start(s, i);
        let prev = closed_tokens(s, i - 1);
        let st = run_start(s, i - 1);
        if is_separator(s[i - 1]) && st < i - 1 {
            let cur = closed_tokens(s, i);
            assert(cur == prev.push((s.subrange(st, i - 1), offset_of_start(st))));
            if st == 0 {
                assert(prev.len() == 0) by {
                    if prev.len() > 0 {
                        assert(0 <= prev[0].1 < -1);
                    }
                }
            }
            assert forall|j: int| 0 <= j < cur.len() implies 0 <= (#[trigger] cur[j]).1 < run_start(s, i) - 1 by {
                if j < prev.len() {
                    assert(cur[j] == prev[j]);
                }
            }
            assert forall|j: int, k: int| 0 <= j < k < cur.len() implies (#[trigger] cur[j]).1 < (#[trigger] cur[k]).1 by {
                assert(cur[j] == prev[j]);
                if k < prev.len() {
                    assert(cur[k] == prev[k]);
                }
            }
        } else if is_separator(s[i - 1]) {
            assert(closed_tokens(s, i) == prev);
        } else {
            assert(closed_tokens(s, i) == prev);
            assert(run_start(s, i) == st);
        }
    }
}

/// The offsets of a text's tokens increase from token to token and lie
/// inside the text.
proof fn lemma_tokens_order(s: Seq<char>)
    ensures
        forall|j: int| 0 <= j < tokens(s).len() ==> 0 <= (#[trigger] tokens(s)[j]).1 < s.len(),
        forall|j: int, k: int| 0 <= j < k < tokens(s).len() ==> (#[trigger] tokens(s)[j]).1 < (#[trigger] tokens(s)[k]).1,
{
    let n = s.len() as int;
    lemma_closed_tokens_order(s, n);
    lemma_run_start(s, n);
    let prev = closed_tokens(s, n);
    let st = run_start(s, n);
    if st < n {
        let t = tokens(s);
        assert(t == prev.push((s.subrange(st, n), offset_of_start(st))));
        if st == 0 {
            assert(prev.len() == 0) by {
                if prev.len() > 0 {
                    assert(0 <= prev[0].1 < -1);
                }
            }
        }
        assert forall|j: int| 0 <= j < t.len() implies 0 <= (#[trigger] t[j]).1 < s.len() by {
            if j < prev.len() {
                assert(t[j] == prev[j]);
            }
        }
        assert forall|j: int, k: int| 0 <= j < k < t.len() implies (#[trigger] t[j]).1 < (#[trigger] t[k]).1 by {
            assert(t[j] == prev[j]);
            if k < prev.len() {
                assert(t[k] == prev[k]);
            }
        }
    }
}

/// Each offset that the index of tokens records for a word is the offset of
/// a token of that word (offsets that fit in an offset are kept as they are).
proof fn lemma_word_index_source(toks: Seq<(Seq<char>, int)>, w: Seq<char>, a: int) -> (j: int)
    requires
        forall|j: int| 0 <= j < toks.len() ==> 0 <= (#[trigger] toks[j]).1 <= u64::MAX,
        word_index(toks).contains_key(w),
        0 <= a < word_index(toks)[w].len(),
    ensures
        0 <= j < toks.len(),
        toks[j].0 == w,
        toks[j].1 == word_index(toks)[w][a] as int,
    decreases toks.len(),
{
    let t0 = toks.drop_last();
    let m0 = word_index(t0);
    let last = toks.len() - 1;
    let (w0, o) = toks.last();
    let before = if m0.contains_key(w0) { m0[w0] } else { Seq::<Offset>::empty() };
    assert(word_index(toks) == m0.insert(w0, before.push(o as Offset)));
    assert forall|k: int| 0 <= k < t0.len() implies 0 <= (#[trigger] t0[k]).1 <= u64::MAX by {
        assert(t0[k] == toks[k]);
    }
    if w == w0 && a == before.len() {
        assert(0 <= toks[last].1 <= u64::MAX);
        last
    } else {
        if w == w0 {
            assert(m0.contains_key(w0));
        }
        let k = lemma_word_index_source(t0, w, a);
        assert(t0[k] == toks[k]);
        k
    }
}

/// In the index of tokens whose offsets increase and fit in an offset, each
/// word has offsets, and they increase.
proof fn lemma_word_index_order(toks: Seq<(Seq<char>, int)>)
    requires
        forall|j: int| 0 <= j < toks.len() ==> 0 <= (#[trigger] toks[j]).1 <= u64::MAX,
        forall|j: int, k: int| 0 <= j < k < toks.len() ==> (#[trigger] toks[j]).1 < (#[trigger] toks[k]).1,
    ensures
        forall|w: Seq<char>| #[trigger] word_index(toks).contains_key(w) ==> word_index(toks)[w].len() > 0,
        forall|w: Seq<char>, a: int, b: int| #[trigger] word_index(toks).contains_key(w) && 0 <= a < b < word_index(toks)[w].len()
            ==> #[trigger] word_index(toks)[w][a] < #[trigger] word_index(toks)[w][b],
    decreases toks.len(),
{
    if toks.len() > 0 {
        let t0 = toks.drop_last();
        assert forall|j: int| 0 <= j < t0.len() implies 0 <= (#[trigger] t0[j]).1 <= u64::MAX by {
            assert(t0[j] == toks[j]);
        }
        assert forall|j: int, k: int| 0 <= j < k < t0.len() implies (#[trigger] t0[j]).1 < (#[trigger] t0[k]).1 by {
            assert(t0[j] == toks[j] && t0[k] == toks[k]);
        }
        lemma_word_index_order(t0);
        let m0 = word_index(t0);
        let m = word_index(toks);
        let (w0, o) = toks.last();
        let last = toks.len() - 1;
        assert(toks[last] == (w0, o));
        let before = if m0.contains_key(w0) { m0[w0] } else { Seq::<Offset>::empty() };
        assert(m == m0.insert(w0, before.push(o as Offset)));
        assert forall|a: int| 0 <= a < before.len() implies #[trigger] before[a] < o as Offset by {
            assert(m0.contains_key(w0));
            let j = lemma_word_index_source(t0, w0, a);
            assert(t0[j] == toks[j]);
            assert(toks[j].1 < toks[last].1);
        }
        assert forall|w: Seq<char>, a: int, b: int| #[trigger] m.contains_key(w) && 0 <= a < b < m[w].len()
            implies #[trigger] m[w][a] < #[trigger] m[w][b] by {
            if w == w0 {
                let p = before.push(o as Offset);
                assert(p[a] == before[a]);
                if b < before.len() {
                    assert(p[b] == before[b]);
                    assert(m0.contains_key(w0));
                    assert(m0[w0][a] < m0[w0][b]);
                }
            } else {
                assert(m0.contains_key(w) && m[w] == m0[w]);
                assert(m0[w][a] < m0[w][b]);
            }
        }
    }
}

/// The offsets recorded for a word of a text are the offsets of its
/// occurrences in the cleaned, lower-cased text, in increasing order: each
/// names an occurrence of the word there.
pub proof fn law_word_offsets_in_order(text: Seq<char>)
    requires
        lowercase(text).len() <= u64::MAX,
    ensures
        forall|w: Seq<char>| #[trigger] parse_spec(text).contains_key(w) ==> {
            &&& parse_spec(text)[w].len() > 0
            &&& forall|a: int, b: int| 0 <= a < b < parse_spec(text)[w].len() ==>
                #[trigger] parse_spec(text)[w][a] < #[trigger] parse_spec(text)[w][b]
            &&& forall|a: int| 0 <= a < parse_spec(text)[w].len() ==>
                is_word_of(clean(lowercase(text)), w, #[trigger] parse_spec(text)[w][a] as int)
        },
{
    let c = clean(lowercase(text));
    let toks = tokens(c);
    law_clean_keeps_letters_and_separators(lowercase(text));
    lemma_tokens_order(c);
    law_tokens_are_words(c);
    lemma_word_index_order(toks);
    let m = parse_spec(text);
    assert forall|w: Seq<char>| #[trigger] m.contains_key(w) implies {
        &&& m[w].len() > 0
        &&& forall|a: int, b: int| 0 <= a < b < m[w].len() ==> #[trigger] m[w][a] < #[trigger] m[w][b]
        &&& forall|a: int| 0 <= a < m[w].len() ==> is_word_of(c, w, #[trigger] m[w][a] as int)
    } by {
        assert forall|a: int| 0 <= a < m[w].len() implies is_word_of(c, w, #[trigger] m[w][a] as int) by {
            let j = lemma_word_index_source(toks, w, a);
            assert(is_word_of(c, toks[j].0, toks[j].1));
        }
    }
}

} // verus!
