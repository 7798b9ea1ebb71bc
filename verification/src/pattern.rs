//! Regular expressions, from the `regex` crate.
//!
//! A pattern is passed around as its text. Offsets are in bytes.

use regex::Regex;
use vstd::prelude::*;
use crate::text;

verus! {

/// What is wrong with a pattern, if anything.
pub uninterp spec fn regex_error(p: Seq<char>) -> Option<Seq<char>>;

/// The leftmost match of `p` in `h` that starts at byte `from` or later.
pub uninterp spec fn regex_find(p: Seq<char>, h: Seq<char>, from: int) -> Option<(int, int)>;

/// The matches of `p` in `h`, from left to right, none overlapping another.
pub uninterp spec fn regex_spans(p: Seq<char>, h: Seq<char>) -> Seq<(int, int)>;

/// Whether `p` matches anywhere in `h`.
pub uninterp spec fn regex_matches(p: Seq<char>, h: Seq<char>) -> bool;

/// `h` with the first match of `p` replaced, group references expanded.
pub uninterp spec fn regex_replaced(p: Seq<char>, h: Seq<char>, with: Seq<char>) -> Seq<char>;

/// `h` with every match of `p` replaced, group references expanded.
pub uninterp spec fn regex_replaced_all(p: Seq<char>, h: Seq<char>, with: Seq<char>) -> Seq<char>;

/// The characters that have a meaning of their own in a pattern.
pub open spec fn is_meta(c: char) -> bool {
    c == '\\' || c == '.' || c == '+' || c == '*' || c == '?' || c == '(' || c == ')' || c == '|' || c
        == '[' || c == ']' || c == '{' || c == '}' || c == '^' || c == '$' || c == '#' || c == '&' || c
        == '-' || c == '~'
}

/// A pattern that matches `s` literally: a backslash before each character
/// that has a meaning of its own.
pub open spec fn regex_escaped(s: Seq<char>) -> Seq<char>
    decreases s.len(),
{
    if s.len() == 0 {
        Seq::empty()
    } else if is_meta(s.last()) {
        regex_escaped(s.drop_last()).push('\\').push(s.last())
    } else {
        regex_escaped(s.drop_last()).push(s.last())
    }
}

/// `Regex::new`: whether a pattern compiles depends on the pattern alone, and
/// so does the message of the error.
#[verifier::external_body]
pub(crate) fn check(p: &str) -> (r: Result<(), String>)
    ensures
        (match r {
            Ok(_) => None,
            Err(e) => Some(e@),
        }) == regex_error(p@),
{
    Regex::new(p).map(|_re| ()).map_err(|e| e.to_string())
}

/// `Regex::find_at`: the match, as byte offsets into the whole haystack. It
/// panics when `from` is past the end of the haystack.
#[verifier::external_body]
pub(crate) fn find_at(p: &str, h: &str, from: usize) -> (r: Option<(usize, usize)>)
    requires
        regex_error(p@) is None,
        from <= text::blen(h@),
    ensures
        crate::textobj::range_int(r) == regex_find(p@, h@, from as int),
{
    Regex::new(p).unwrap().find_at(h, from).map(|m| (m.start(), m.end()))
}

/// `Regex::find_iter`: the byte ranges of all the matches.
#[verifier::external_body]
pub(crate) fn find_all(p: &str, h: &str) -> (r: Vec<(usize, usize)>)
    requires
        regex_error(p@) is None,
    ensures
        Seq::new(r@.len(), |i: int| (r@[i].0 as int, r@[i].1 as int)) == regex_spans(p@, h@),
{
    Regex::new(p).unwrap().find_iter(h).map(|m| (m.start(), m.end())).collect()
}

/// `Regex::is_match`.
#[verifier::external_body]
pub(crate) fn is_match(p: &str, h: &str) -> (r: bool)
    requires
        regex_error(p@) is None,
    ensures
        r == regex_matches(p@, h@),
{
    Regex::new(p).unwrap().is_match(h)
}

/// `Regex::replace`: the haystack with the first match replaced.
#[verifier::external_body]
pub(crate) fn replace_first(p: &str, h: &str, with: &str) -> (r: String)
    requires
        regex_error(p@) is None,
    ensures
        r@ == regex_replaced(p@, h@, with@),
{
    Regex::new(p).unwrap().replace(h, with).into_owned()
}

/// `Regex::replace_all`: the haystack with every match replaced.
#[verifier::external_body]
pub(crate) fn replace_all(p: &str, h: &str, with: &str) -> (r: String)
    requires
        regex_error(p@) is None,
    ensures
        r@ == regex_replaced_all(p@, h@, with@),
{
    Regex::new(p).unwrap().replace_all(h, with).into_owned()
}

/// `regex::escape`: the text with a backslash before each character that has a
/// meaning of its own in a pattern.
#[verifier::external_body]
pub(crate) fn escape(s: &str) -> (r: String)
    ensures
        r@ == regex_escaped(s@),
{
    regex::escape(s)
}

} // verus!
