//! Forward and backward search with a remembered pattern and direction, so
//! that `n` and `N` repeat it.

use vstd::prelude::*;
use vstd::string::*;
use crate::pattern;
use crate::text;
use crate::text::{byte_len, chars_of, index_at, piece};

verus! {

#[derive(Clone, Copy, Debug, PartialEq, Eq, Structural)]
pub enum Direction {
    Forward,
    Backward,
}

pub struct SearchState {
    pub pattern: String,
    /// The pattern was set and compiles.
    pub valid: bool,
    pub direction: Direction,
}

/// Model of a [`SearchState`].
#[verifier::ext_equal]
pub struct SearchV {
    pub pattern: Seq<char>,
    pub valid: bool,
    pub direction: Direction,
}

/// Nothing was searched for yet.
pub open spec fn no_search() -> SearchV {
    SearchV { pattern: Seq::empty(), valid: false, direction: Direction::Forward }
}

impl View for SearchState {
    type V = SearchV;

    open spec fn view(&self) -> SearchV {
        SearchV { pattern: self.pattern@, valid: self.valid, direction: self.direction }
    }
}

pub open spec fn spans_int(v: Seq<(usize, usize)>) -> Seq<(int, int)> {
    Seq::new(v.len(), |i: int| (v[i].0 as int, v[i].1 as int))
}

/// A match ahead of the cursor, or else the first one of the text.
pub open spec fn ahead_or_first(
    ahead: Option<(int, int)>,
    first: Option<(int, int)>,
) -> Option<(int, int)> {
    if ahead is Some {
        ahead
    } else {
        first
    }
}

/// The last match before the cursor, or else the last one of the text.
pub open spec fn last_of(before: Seq<(int, int)>, all: Seq<(int, int)>) -> Option<(int, int)> {
    if before.len() > 0 {
        Some(before.last())
    } else if all.len() > 0 {
        Some(all.last())
    } else {
        None
    }
}

impl SearchV {
    pub open spec fn set(self, p: Seq<char>, d: Direction) -> SearchV {
        SearchV { pattern: p, valid: pattern::regex_error(p) is None, direction: d }
    }

    /// The next match from byte `from` on in a direction, round the end of
    /// the text if need be.
    pub open spec fn find(self, h: Seq<char>, from: int, d: Direction) -> Option<(int, int)> {
        let p = self.pattern;
        let limit = if from <= text::blen(h) {
            from
        } else {
            text::blen(h)
        };
        if !self.valid || pattern::regex_error(p) is Some {
            None
        } else if d is Forward {
            ahead_or_first(pattern::regex_find(p, h, limit), pattern::regex_find(p, h, 0))
        } else {
            last_of(
                pattern::regex_spans(p, h.take(text::at(h, limit))),
                pattern::regex_spans(p, h),
            )
        }
    }
}

/// The match ahead, or else the first one.
pub fn forward_choice(
    ahead: Option<(usize, usize)>,
    first: Option<(usize, usize)>,
) -> (r: Option<(usize, usize)>)
    ensures
        crate::textobj::range_int(r) == ahead_or_first(
            crate::textobj::range_int(ahead),
            crate::textobj::range_int(first),
        ),
{
    match ahead {
        Some(m) => Some(m),
        None => first,
    }
}

/// The last match before the cursor, or else the last one of all.
pub fn backward_choice(
    before: &Vec<(usize, usize)>,
    all: &Vec<(usize, usize)>,
) -> (r: Option<(usize, usize)>)
    ensures
        crate::textobj::range_int(r) == last_of(spans_int(before@), spans_int(all@)),
{
    if before.len() > 0 {
        Some(before[before.len() - 1])
    } else if all.len() > 0 {
        Some(all[all.len() - 1])
    } else {
        None
    }
}

impl SearchState {
    /// No pattern yet.
    pub fn new() -> (s: SearchState)
        ensures
            s@ == no_search(),
    {
        SearchState { pattern: String::new(), valid: false, direction: Direction::Forward }
    }

    /// Remembers a pattern and a direction. A pattern that does not compile
    /// matches nothing.
    pub fn set(&mut self, pattern: &str, dir: Direction)
        ensures
            final(self)@ == old(self)@.set(pattern@, dir),
    {
        self.pattern = pattern.to_owned();
        self.valid = pattern::check(pattern).is_ok();
        self.direction = dir;
    }

    /// The next match from byte `from` on, round the end of the text.
    pub fn find(&self, haystack: &str, from: usize, dir: Direction) -> (r: Option<(usize, usize)>)
        ensures
            crate::textobj::range_int(r) == self@.find(haystack@, from as int, dir),
    {
        if !self.valid || pattern::check(&self.pattern).is_err() {
            return None;
        }
        let n: usize = byte_len(haystack);
        let limit: usize = if from <= n {
            from
        } else {
            n
        };
        match dir {
            Direction::Forward => {
                proof {
                    text::lemma_off_mono(haystack@, 0, haystack@.len() as int);
                }
                let ahead = pattern::find_at(&self.pattern, haystack, limit);
                if ahead.is_some() {
                    return ahead;
                }
                let first = pattern::find_at(&self.pattern, haystack, 0);
                forward_choice(ahead, first)
            },
            Direction::Backward => {
                let v: Vec<char> = chars_of(haystack);
                let i: usize = index_at(&v, limit);
                let prefix: String = piece(&v, 0, i);
                assert(prefix@ =~= haystack@.take(i as int));
                let before = pattern::find_all(&self.pattern, &prefix);
                let all = pattern::find_all(&self.pattern, haystack);
                backward_choice(&before, &all)
            },
        }
    }
}

/// Ahead, a match from the cursor on comes first, and only where there is none
/// does the search go on from the start of the text; it finds nothing where
/// neither does.
pub proof fn law_search_ahead(s: SearchV, h: Seq<char>, from: int)
    requires
        s.valid,
        pattern::regex_error(s.pattern) is None,
        from <= text::blen(h),
    ensures
        ({
            let near = pattern::regex_find(s.pattern, h, from);
            let top = pattern::regex_find(s.pattern, h, 0);
            let r = s.find(h, from, Direction::Forward);
            &&& near is Some ==> r == near
            &&& near is None && top is Some ==> r == top
            &&& r is None <==> near is None && top is None
        }),
{
}

/// Matches that stand one after the other.
pub open spec fn in_order(ms: Seq<(int, int)>) -> bool {
    forall|a: int, b: int|
        0 <= a < b < ms.len() ==> (#[trigger] ms[a]).1 <= (#[trigger] ms[b]).0
}

/// `r` is the one of the matches that none of the others comes after.
pub open spec fn hindmost(ms: Seq<(int, int)>, r: Option<(int, int)>) -> bool {
    match r {
        None => ms.len() == 0,
        Some(m) => ms.contains(m) && (in_order(ms) ==> forall|k: int|
            0 <= k < ms.len() ==> #[trigger] ms[k] == m || ms[k].1 <= m.0),
    }
}

/// Back, the match that is found is the nearest one: of the matches before the
/// cursor, or else of all, none comes after it.
pub proof fn law_search_back(s: SearchV, h: Seq<char>, i: int)
    requires
        s.valid,
        pattern::regex_error(s.pattern) is None,
        0 <= i <= h.len(),
    ensures
        ({
            let before = pattern::regex_spans(s.pattern, h.take(i));
            let all = pattern::regex_spans(s.pattern, h);
            let r = s.find(h, text::off(h, i), Direction::Backward);
            &&& before.len() > 0 ==> hindmost(before, r)
            &&& before.len() == 0 ==> hindmost(all, r)
        }),
{
    let before = pattern::regex_spans(s.pattern, h.take(i));
    let all = pattern::regex_spans(s.pattern, h);
    text::lemma_at_off(h, i);
    text::lemma_off_mono(h, i, h.len() as int);
    if before.len() > 0 {
        assert(before[before.len() - 1] == before.last());
    }
    if all.len() > 0 {
        assert(all[all.len() - 1] == all.last());
    }
}

/// A search remembers what was looked for and which way, and only a pattern
/// that compiles finds anything.
pub proof fn law_search_set(s: SearchV, p: Seq<char>, d: Direction, h: Seq<char>, from: int)
    ensures
        s.set(p, d).pattern == p,
        s.set(p, d).direction == d,
        pattern::regex_error(p) is Some ==> s.set(p, d).find(h, from, d) is None,
        no_search().find(h, from, d) is None,
{
}

} // verus!
