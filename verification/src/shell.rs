//! Reading the search shell's input: each line is either the command to
//! quit or a query of words.
use vstd::prelude::*;
use crate::text::{
    all_ascii, ascii_lower, lemma_trim_is_prefix, lowercase, push_char, to_lowercase, trim_end, without_trailing_space,
};

verus! {

/// What a line of the search shell asks for.
pub enum Command {
    /// Leave the shell.
    Quit,
    /// Search for the documents that contain all of these words.
    Query(Vec<String>),
}

/// The characters that `split_ascii_whitespace` splits at: space, tab,
/// newline, form feed and carriage return.
pub open spec fn is_ascii_whitespace(c: char) -> bool {
    c == ' ' || c == '\t' || c == '\n' || c == '\x0C' || c == '\r'
}

/// Start of the run of non-whitespace characters that ends just before `i`.
pub open spec fn word_run_start(s: Seq<char>, i: int) -> int
    decreases i,
{
    if i <= 0 || is_ascii_whitespace(s[i - 1]) {
        i
    } else {
        word_run_start(s, i - 1)
    }
}

/// The words of `s` that whitespace before position `i` ends, in order.
pub open spec fn closed_words(s: Seq<char>, i: int) -> Seq<Seq<char>>
    decreases i,
{
    if i <= 0 {
        Seq::empty()
    } else {
        let prev = closed_words(s, i - 1);
        let st = word_run_start(s, i - 1);
        if is_ascii_whitespace(s[i - 1]) && st < i - 1 {
            prev.push(s.subrange(st, i - 1))
        } else {
            prev
        }
    }
}

/// The maximal runs of non-whitespace characters of `s`, in order.
pub open spec fn ascii_words(s: Seq<char>) -> Seq<Seq<char>> {
    let n = s.len() as int;
    let st = word_run_start(s, n);
    if st < n {
        closed_words(s, n).push(s.subrange(st, n))
    } else {
        closed_words(s, n)
    }
}

/// The command that quits the shell.
pub open spec fn quit_command() -> Seq<char> {
    seq!['q', 'u', 'i', 't', '(', ')']
}

/// A line with trailing whitespace removed, lower-cased.
pub open spec fn normalized_line(line: Seq<char>) -> Seq<char> {
    lowercase(without_trailing_space(line))
}

/// The characters of a string.
fn chars_of(s: &str) -> (r: Vec<char>)
    ensures
        r@ == s@,
{
    let mut r: Vec<char> = Vec::new();
    for c in it: s.chars()
        invariant
            it.seq() == s@,
            r@ == s@.take(it.index()),
    {
        r.push(c);
        proof {
            assert(r@ =~= s@.take(it.index() + 1));
        }
    }
    assert(s@.take(s@.len() as int) =~= s@);
    r
}

/// Splits characters into the maximal runs of non-whitespace characters.
pub fn split_words(chars: &Vec<char>) -> (words: Vec<String>)
    ensures
        words@.len() == ascii_words(chars@).len(),
        forall|k: int| 0 <= k < words@.len() ==> (#[trigger] words@[k])@ == ascii_words(chars@)[k],
{
    let ghost s = chars@;
    let mut words: Vec<String> = Vec::new();
    let mut current: String = String::new();
    let n: usize = chars.len();
    let mut i: usize = 0;
    while i < n
        invariant
            n == s.len(),
            s == chars@,
            i <= n,
            0 <= word_run_start(s, i as int) <= i,
            current@ == s.subrange(word_run_start(s, i as int), i as int),
            words@.len() == closed_words(s, i as int).len(),
            forall|k: int| 0 <= k < words@.len() ==> (#[trigger] words@[k])@ == closed_words(s, i as int)[k],
        decreases n - i,
    {
        let c: char = chars[i];
        proof {
            assert(word_run_start(s, i + 1) == if is_ascii_whitespace(s[i as int]) { i + 1 } else { word_run_start(s, i as int) });
        }
        if c == ' ' || c == '\t' || c == '\n' || c == '\x0C' || c == '\r' {
            proof {
                assert(current@.len() == i - word_run_start(s, i as int));
            }
            if !current.as_str().is_empty() {
                let ghost old_words = words@;
                words.push(current);
                proof {
                    let prev = closed_words(s, i as int);
                    assert(closed_words(s, i + 1) == prev.push(s.subrange(word_run_start(s, i as int), i as int)));
                    assert forall|k: int| 0 <= k < words@.len() implies (#[trigger] words@[k])@ == closed_words(s, i + 1)[k] by {
                        if k < old_words.len() {
                            assert(words@[k] == old_words[k]);
                        }
                    }
                }
            } else {
                proof {
                    assert(closed_words(s, i + 1) == closed_words(s, i as int));
                }
            }
            current = String::new();
            proof {
                assert(current@ =~= s.subrange(word_run_start(s, i + 1), i + 1));
            }
        } else {
            push_char(&mut current, c);
            proof {
                assert(current@ =~= s.subrange(word_run_start(s, i + 1), i + 1));
                assert(closed_words(s, i + 1) == closed_words(s, i as int));
            }
        }
        i = i + 1;
    }
    if !current.as_str().is_empty() {
        let ghost old_words = words@;
        words.push(current);
        proof {
            assert forall|k: int| 0 <= k < words@.len() implies (#[trigger] words@[k])@ == ascii_words(s)[k] by {
                if k < old_words.len() {
                    assert(words@[k] == old_words[k]);
                }
            }
        }
    }
    words
}

/// Reads a line of the shell: with trailing whitespace removed and
/// lower-cased, it is either the quit command or a query of the words the
/// line holds between ASCII whitespace.
pub fn parse_command(line: &str) -> (c: Command)
    ensures
        match c {
            Command::Quit => normalized_line(line@) == quit_command(),
            Command::Query(words) => {
                &&& normalized_line(line@) != quit_command()
                &&& words@.len() == ascii_words(normalized_line(line@)).len()
                &&& forall|k: int| 0 <= k < words@.len() ==> (#[trigger] words@[k])@ == ascii_words(normalized_line(line@))[k]
            },
        },
        all_ascii(line@) ==> normalized_line(line@) == without_trailing_space(line@).map_values(|c: char| ascii_lower(c)),
        match c {
            Command::Quit => lowercase(without_trailing_space(line@)) == quit_command(),
            Command::Query(words) => {
                &&& words@.len() == ascii_words(lowercase(without_trailing_space(line@))).len()
                &&& forall|k: int| 0 <= k < words@.len() ==>
                    (#[trigger] words@[k])@ == ascii_words(lowercase(without_trailing_space(line@)))[k]
            },
        },
{
    let trimmed = trim_end(line);
    proof {
        lemma_trim_is_prefix(line@);
        if all_ascii(line@) {
            assert forall|i: int| 0 <= i < trimmed@.len() implies (#[trigger] trimmed@[i] as u32) < 128 by {
                assert(trimmed@[i] == line@[i]);
            }
        }
    }
    let lowered = to_lowercase(trimmed);
    let chars = chars_of(lowered.as_str());
    if chars.len() == 6 && chars[0] == 'q' && chars[1] == 'u' && chars[2] == 'i' && chars[3] == 't' && chars[4] == '('
        && chars[5] == ')' {
        proof {
            assert(chars@ =~= quit_command());
        }
        Command::Quit
    } else {
        proof {
            if chars@ == quit_command() {
                assert(chars@[0] == 'q');
            }
        }
        Command::Query(split_words(&chars))
    }
}

proof fn lemma_word_run_start(s: Seq<char>, i: int)
    requires
        0 <= i <= s.len(),
    ensures
        0 <= word_run_start(s, i) <= i,
        forall|k: int| word_run_start(s, i) <= k < i ==> !is_ascii_whitespace(#[trigger] s[k]),
        word_run_start(s, i) == 0 || is_ascii_whitespace(s[word_run_start(s, i) - 1]),
    decreases i,
{
    if i > 0 && !is_ascii_whitespace(s[i - 1]) {
        lemma_word_run_start(s, i - 1);
    }
}

/// `w` is a maximal run of `s` somewhere.
spec fn has_run(s: Seq<char>, w: Seq<char>) -> bool {
    exists|st: int| is_run_at(s, w, st)
}

/// `w` is a maximal run of characters other than ASCII whitespace (space,
/// tab, newline, form feed, carriage return) of `s`, starting at `st`.
spec fn is_run_at(s: Seq<char>, w: Seq<char>, st: int) -> bool {
    &&& w.len() > 0
    &&& 0 <= st
    &&& st + w.len() <= s.len()
    &&& s.subrange(st, st + w.len()) == w
    &&& forall|k: int| 0 <= k < w.len() ==> {
        let c = #[trigger] w[k];
        c != ' ' && c != '\t' && c != '\n' && c != '\x0C' && c != '\r'
    }
    &&& st == 0 || {
        let c = s[st - 1];
        c == ' ' || c == '\t' || c == '\n' || c == '\x0C' || c == '\r'
    }
    &&& st + w.len() == s.len() || {
        let c = s[st + w.len()];
        c == ' ' || c == '\t' || c == '\n' || c == '\x0C' || c == '\r'
    }
}

proof fn lemma_new_run(s: Seq<char>, i: int)
    requires
        0 <= i <= s.len(),
        word_run_start(s, i) < i,
        i == s.len() || is_ascii_whitespace(s[i]),
    ensures
        is_run_at(s, s.subrange(word_run_start(s, i), i), word_run_start(s, i)),
{
    lemma_word_run_start(s, i);
    let st = word_run_start(s, i);
    let w = s.subrange(st, i);
    assert(s.subrange(st, st + w.len()) =~= w);
    assert forall|k: int| 0 <= k < w.len() implies {
        let c = #[trigger] w[k];
        c != ' ' && c != '\t' && c != '\n' && c != '\x0C' && c != '\r'
    } by {
        assert(w[k] == s[st + k]);
    }
}

proof fn lemma_closed_words(s: Seq<char>, i: int)
    requires
        0 <= i <= s.len(),
    ensures
        forall|k: int| 0 <= k < closed_words(s, i).len() ==> has_run(s, #[trigger] closed_words(s, i)[k]),
    decreases i,
{
    if i > 0 {
        lemma_closed_words(s, i - 1);
        let prev = closed_words(s, i - 1);
        let st = word_run_start(s, i - 1);
        if is_ascii_whitespace(s[i - 1]) && st < i - 1 {
            lemma_new_run(s, i - 1);
            assert(closed_words(s, i) == prev.push(s.subrange(st, i - 1)));
            assert forall|k: int| 0 <= k < closed_words(s, i).len() implies has_run(s, #[trigger] closed_words(s, i)[k]) by {
                if k < prev.len() {
                    assert(closed_words(s, i)[k] == prev[k]);
                    let st2 = choose|st2: int| is_run_at(s, prev[k], st2);
                    assert(is_run_at(s, closed_words(s, i)[k], st2));
                } else {
                    assert(closed_words(s, i)[k] == s.subrange(st, i - 1));
                    assert(is_run_at(s, closed_words(s, i)[k], st));
                }
            }
        } else {
            assert(closed_words(s, i) == prev);
            assert forall|k: int| 0 <= k < closed_words(s, i).len() implies has_run(s, #[trigger] closed_words(s, i)[k]) by {
                let st2 = choose|st2: int| is_run_at(s, prev[k], st2);
                assert(is_run_at(s, closed_words(s, i)[k], st2));
            }
        }
    }
}

/// Every word of a query line is a non-empty maximal run of characters
/// other than ASCII whitespace (space, tab, newline, form feed, carriage
/// return) found in the line.
pub proof fn law_query_words_are_runs(s: Seq<char>)
    ensures
        forall|k: int| 0 <= k < ascii_words(s).len() ==> {
            let w = #[trigger] ascii_words(s)[k];
            &&& w.len() > 0
            &&& forall|i: int| 0 <= i < w.len() ==> {
                let c = #[trigger] w[i];
                c != ' ' && c != '\t' && c != '\n' && c != '\x0C' && c != '\r'
            }
            &&& exists|st: int| {
                &&& 0 <= st
                &&& st + w.len() <= s.len()
                &&& #[trigger] s.subrange(st, st + w.len()) == w
                &&& (st == 0 || {
                    let c = s[st - 1];
                    c == ' ' || c == '\t' || c == '\n' || c == '\x0C' || c == '\r'
                })
                &&& (st + w.len() == s.len() || {
                    let c = s[st + w.len()];
                    c == ' ' || c == '\t' || c == '\n' || c == '\x0C' || c == '\r'
                })
            }
        },
{
    let n = s.len() as int;
    lemma_closed_words(s, n);
    lemma_word_run_start(s, n);
    let prev = closed_words(s, n);
    let st0 = word_run_start(s, n);
    if st0 < n {
        lemma_new_run(s, n);
    }
    assert forall|k: int| 0 <= k < ascii_words(s).len() implies has_run(s, #[trigger] ascii_words(s)[k]) by {
        if k < prev.len() {
            assert(ascii_words(s)[k] == prev[k]);
            let st2 = choose|st2: int| is_run_at(s, prev[k], st2);
            assert(is_run_at(s, ascii_words(s)[k], st2));
        } else {
            assert(is_run_at(s, ascii_words(s)[k], st0));
        }
    }
    assert forall|k: int| 0 <= k < ascii_words(s).len() implies {
        let w = #[trigger] ascii_words(s)[k];
        &&& w.len() > 0
        &&& forall|i: int| 0 <= i < w.len() ==> {
            let c = #[trigger] w[i];
            c != ' ' && c != '\t' && c != '\n' && c != '\x0C' && c != '\r'
        }
        &&& exists|st: int| {
            &&& 0 <= st
            &&& st + w.len() <= s.len()
            &&& #[trigger] s.subrange(st, st + w.len()) == w
            &&& (st == 0 || {
                let c = s[st - 1];
                c == ' ' || c == '\t' || c == '\n' || c == '\x0C' || c == '\r'
            })
            &&& (st + w.len() == s.len() || {
                let c = s[st + w.len()];
                c == ' ' || c == '\t' || c == '\n' || c == '\x0C' || c == '\r'
            })
        }
    } by {
        let w = ascii_words(s)[k];
        assert(has_run(s, w));
        let st = choose|st: int| is_run_at(s, w, st);
        assert(is_run_at(s, w, st));
    }
}

} // verus!
