//! Character- and string-level operations of the standard library that the
//! tokenizer relies on, with the facts about them that the library uses.
use vstd::prelude::*;

verus! {

/// `c` is one of the ASCII letters `A`-`Z` or `a`-`z`.
pub open spec fn is_ascii_letter(c: char) -> bool {
    (65 <= (c as u32) && (c as u32) <= 90) || (97 <= (c as u32) && (c as u32) <= 122)
}

/// The lower-case form of an ASCII character (other characters are unchanged).
pub open spec fn ascii_lower(c: char) -> char {
    if 65 <= (c as u32) && (c as u32) <= 90 {
        ((c as u32) + 32) as char
    } else {
        c
    }
}

/// Every character of `s` is ASCII.
pub open spec fn all_ascii(s: Seq<char>) -> bool {
    forall|i: int| 0 <= i < s.len() ==> (#[trigger] s[i] as u32) < 128
}

/// What `str::to_lowercase` returns for a string with the given characters.
pub uninterp spec fn lowercase(s: Seq<char>) -> Seq<char>;

/// Whether `char::is_alphabetic` holds of a character (the Unicode
/// `Alphabetic` property).
pub uninterp spec fn alphabetic(c: char) -> bool;

/// Calls `str::to_lowercase`. Its result is named `lowercase`; for a string of
/// ASCII characters the documentation fixes it: each ASCII upper-case letter is
/// replaced by its lower-case letter and nothing else changes. What it does on
/// other characters (Unicode case mapping, context-dependent final sigma) is
/// left to the name.
#[verifier::external_body]
pub fn to_lowercase(s: &str) -> (r: String)
    ensures
        r@ == lowercase(s@),
        all_ascii(s@) ==> r@ == s@.map_values(|c: char| ascii_lower(c)),
{
    s.to_lowercase()
}

/// Calls `char::is_alphabetic`. Its result is named `alphabetic`; among the
/// ASCII characters exactly the letters have the Unicode `Alphabetic`
/// property, which the second clause states.
#[verifier::external_body]
pub fn is_alphabetic(c: char) -> (r: bool)
    ensures
        r == alphabetic(c),
        (c as u32) < 128 ==> (r <==> is_ascii_letter(c)),
{
    c.is_alphabetic()
}

/// Calls `String::push`: appends one character.
#[verifier::external_body]
pub fn push_char(s: &mut String, c: char)
    ensures
        final(s)@ == old(s)@.push(c),
{
    s.push(c);
}

/// `c` has the Unicode `White_Space` property: tab, line feed, vertical
/// tab, form feed, carriage return, space, next line, no-break space, ogham
/// space mark, the spaces U+2000 to U+200A, line separator, paragraph
/// separator, narrow no-break space, medium mathematical space and
/// ideographic space.
pub open spec fn is_white_space(c: char) -> bool {
    let u = c as u32;
    ||| 9 <= u <= 13
    ||| u == 32
    ||| u == 0x85
    ||| u == 0xA0
    ||| u == 0x1680
    ||| 0x2000 <= u <= 0x200A
    ||| u == 0x2028
    ||| u == 0x2029
    ||| u == 0x202F
    ||| u == 0x205F
    ||| u == 0x3000
}

/// `s` without its trailing whitespace: the longest prefix of `s` after
/// which only whitespace follows.
pub open spec fn without_trailing_space(s: Seq<char>) -> Seq<char>
    decreases s.len(),
{
    if s.len() > 0 && is_white_space(s.last()) {
        without_trailing_space(s.drop_last())
    } else {
        s
    }
}

/// Removing trailing whitespace leaves a prefix.
pub proof fn lemma_trim_is_prefix(s: Seq<char>)
    ensures
        without_trailing_space(s).len() <= s.len(),
        without_trailing_space(s) == s.take(without_trailing_space(s).len() as int),
    decreases s.len(),
{
    if s.len() > 0 && is_white_space(s.last()) {
        lemma_trim_is_prefix(s.drop_last());
        let t = without_trailing_space(s.drop_last());
        assert(s.drop_last().take(t.len() as int) =~= s.take(t.len() as int));
    } else {
        assert(s.take(s.len() as int) =~= s);
    }
}

/// Calls `str::trim_end`, which removes the trailing characters that have
/// the `White_Space` property (`char::is_whitespace`).
#[verifier::external_body]
pub fn trim_end(s: &str) -> (r: &str)
    ensures
        r@ == without_trailing_space(s@),
{
    s.trim_end()
}

} // verus!
