//! Folding by indentation, for HyperList and any other text in which
//! indentation shows structure.
//!
//! A fold is a line with the lines after it that are indented further. A
//! closed fold hides all of it but its first line; the text itself does not
//! change. Besides these there are explicit ranges, which hide lines
//! whatever their indentation.

use vstd::prelude::*;
use crate::buffer;
use crate::chars;
use crate::chars::is_blank;
use crate::lines;
use crate::text;
use crate::text::chars_of;

verus! {

/// Texts of a run of strings.
pub open spec fn views(v: Seq<String>) -> Seq<Seq<char>> {
    Seq::new(v.len(), |i: int| v[i]@)
}

pub open spec fn mark_fn() -> spec_fn(char) -> bool {
    |c: char| c == '\t' || c == '*'
}

/// Indent level of a line: its leading tabs and asterisks.
pub open spec fn level(s: Seq<char>) -> int {
    text::skip_fwd(s, 0, mark_fn())
}

/// Last line of a fold whose head has level `lvl`, when the lines before `i`
/// belong to it as far as `end`. Blank lines belong to it if a deeper line
/// follows.
pub open spec fn extent(ls: Seq<Seq<char>>, lvl: int, i: int, end: int) -> int
    decreases ls.len() - i,
{
    if i < 0 || i >= ls.len() {
        end
    } else if chars::blank(ls[i]) {
        extent(ls, lvl, i + 1, end)
    } else if level(ls[i]) > lvl {
        extent(ls, lvl, i + 1, i)
    } else {
        end
    }
}

/// Last line of the fold that starts at `start`.
pub open spec fn end_of(ls: Seq<Seq<char>>, start: int) -> int {
    if start >= ls.len() {
        start
    } else {
        extent(ls, level(ls[start]), start + 1, start)
    }
}

pub open spec fn foldable(ls: Seq<Seq<char>>, start: int) -> bool {
    end_of(ls, start) > start
}

/// Nearest line before `i` that is not blank and lies above level `lvl`.
pub open spec fn shallower(ls: Seq<Seq<char>>, lvl: int, i: int) -> Option<int>
    decreases i,
{
    if i <= 0 || i > ls.len() {
        None
    } else if !chars::blank(ls[i - 1]) && level(ls[i - 1]) < lvl {
        Some(i - 1)
    } else {
        shallower(ls, lvl, i - 1)
    }
}

pub open spec fn parent_of(ls: Seq<Seq<char>>, line: int) -> Option<int> {
    if line <= 0 || line >= ls.len() || level(ls[line]) == 0 {
        None
    } else {
        shallower(ls, level(ls[line]), line)
    }
}

/// Where line `s` goes when the lines `a..=b` and those up to `c` after them
/// change places.
pub open spec fn exchanged_to(s: int, a: int, b: int, c: int) -> int {
    if a <= s <= b {
        s + (c - b)
    } else if b < s <= c {
        s - (b - a + 1)
    } else {
        s
    }
}

/// First index from `i` on at which two texts differ, or one of them ends.
pub open spec fn same_front(t: Seq<char>, u: Seq<char>, i: int) -> int
    decreases t.len() - i,
{
    if 0 <= i < t.len() && i < u.len() && t[i] == u[i] {
        same_front(t, u, i + 1)
    } else {
        i
    }
}

/// Number of characters at the ends of two texts that agree, from `n` on,
/// without the first `p` of each.
pub open spec fn same_back(t: Seq<char>, u: Seq<char>, p: int, n: int) -> int
    decreases t.len() - n,
{
    if 0 <= n && 0 <= p < t.len() - n && p < u.len() - n && t[t.len() - 1 - n] == u[u.len() - 1 - n] {
        same_back(t, u, p, n + 1)
    } else {
        n
    }
}

/// The last line that keeps its place when the bytes `lo..hi` are replaced by
/// `r`: the one at which the edit starts, or, where whole lines are replaced,
/// the one before it.
pub open spec fn last_kept(t: Seq<char>, lo: int, hi: int, r: Seq<char>) -> int {
    let k = lines::line_at(t, lo);
    if lines::line_off(t, k) == lo && lines::line_off(t, lines::line_at(t, hi)) == hi && (r.len()
        == 0 || r.last() == '\n') {
        k - 1
    } else {
        k
    }
}

/// Where a line index goes when `delta` lines are added after line `at`, or
/// taken out there; `None` for a line that is taken out.
pub open spec fn moved_to(s: int, at: int, delta: int) -> Option<int> {
    if s <= at {
        Some(s)
    } else if delta < 0 {
        if s <= at - delta {
            None
        } else {
            Some(s + delta)
        }
    } else if s + delta <= usize::MAX {
        Some(s + delta)
    } else {
        Some(usize::MAX as int)
    }
}

pub open spec fn moved_range(r: (int, int), at: int, delta: int) -> Option<(int, int)> {
    match (moved_to(r.0, at, delta), moved_to(r.1, at, delta)) {
        (Some(s), Some(e)) => if e > s {
            Some((s, e))
        } else {
            None
        },
        _ => None,
    }
}

pub open spec fn moved_ranges(rs: Seq<(int, int)>, at: int, delta: int) -> Seq<(int, int)>
    decreases rs.len(),
{
    if rs.len() == 0 {
        Seq::empty()
    } else {
        match moved_range(rs.last(), at, delta) {
            Some(r) => moved_ranges(rs.drop_last(), at, delta).push(r),
            None => moved_ranges(rs.drop_last(), at, delta),
        }
    }
}

proof fn lemma_moved_sound(rs: Seq<(int, int)>, at: int, delta: int)
    ensures
        forall|i: int|
            0 <= i < moved_ranges(rs, at, delta).len() ==> (#[trigger] moved_ranges(
                rs,
                at,
                delta,
            )[i]).0 < moved_ranges(rs, at, delta)[i].1,
    decreases rs.len(),
{
    if rs.len() > 0 {
        lemma_moved_sound(rs.drop_last(), at, delta);
        let m = moved_ranges(rs.drop_last(), at, delta);
        if let Some(r) = moved_range(rs.last(), at, delta) {
            assert(moved_ranges(rs, at, delta) == m.push(r));
            assert forall|i: int| 0 <= i < m.push(r).len() implies (#[trigger] m.push(r)[i]).0
                < m.push(r)[i].1 by {
                if i < m.len() {
                    assert(m.push(r)[i] == m[i]);
                }
            }
        }
    }
}

/// Model of [`Folds`].
#[verifier::ext_equal]
pub struct FoldsV {
    /// First lines of the closed folds.
    pub closed: Set<int>,
    /// Explicit ranges: the lines after the first one are hidden.
    pub explicit: Seq<(int, int)>,
}

impl FoldsV {
    /// Each explicit range starts before it ends.
    pub open spec fn sound(self) -> bool {
        forall|i: int|
            0 <= i < self.explicit.len() ==> (#[trigger] self.explicit[i]).0
                < self.explicit[i].1
    }

    pub open spec fn covers(self, s: int, line: int, ls: Seq<Seq<char>>) -> bool {
        s < line <= end_of(ls, s)
    }

    /// Closed fold `s` hides `line`.
    pub open spec fn hides(self, s: int, line: int, ls: Seq<Seq<char>>) -> bool {
        self.closed.contains(s) && self.covers(s, line, ls)
    }

    pub open spec fn visible(self, line: int, ls: Seq<Seq<char>>) -> bool {
        &&& forall|i: int|
            0 <= i < self.explicit.len() ==> !((#[trigger] self.explicit[i]).0 < line
                <= self.explicit[i].1)
        &&& forall|s: int| !#[trigger] self.hides(s, line, ls)
    }

    /// The innermost closed fold that hides `line`.
    pub open spec fn innermost(self, line: int, ls: Seq<Seq<char>>, below: int) -> Option<int>
        decreases below,
    {
        if below <= 0 {
            None
        } else if self.hides(below - 1, line, ls) {
            Some(below - 1)
        } else {
            self.innermost(line, ls, below - 1)
        }
    }

    pub open spec fn toggle(self, line: int, ls: Seq<Seq<char>>) -> FoldsV {
        if foldable(ls, line) {
            if self.closed.contains(line) {
                self.open(line)
            } else {
                self.shut(line)
            }
        } else {
            match self.innermost(line, ls, line) {
                Some(s) => self.open(s),
                None => match parent_of(ls, line) {
                    Some(p) => self.shut(p),
                    None => self,
                },
            }
        }
    }

    /// A line without children starts no fold: nothing is closed there.
    pub open spec fn close(self, line: int, ls: Seq<Seq<char>>) -> FoldsV {
        if foldable(ls, line) {
            self.shut(line)
        } else {
            self
        }
    }

    pub open spec fn shut(self, line: int) -> FoldsV {
        FoldsV { closed: self.closed.insert(line), ..self }
    }

    pub open spec fn open(self, line: int) -> FoldsV {
        FoldsV { closed: self.closed.remove(line), ..self }
    }

    /// All the folds that start in the fold at `line` are opened, or closed.
    pub open spec fn flip_tree(self, line: int, ls: Seq<Seq<char>>) -> FoldsV {
        let end = end_of(ls, line);
        if self.closed.contains(line) {
            FoldsV { closed: self.closed.filter(|s: int| !(line <= s <= end)), ..self }
        } else {
            FoldsV {
                closed: Set::new(
                    |s: int|
                        self.closed.contains(s) || s == line || (line < s <= end && foldable(ls, s)),
                ),
                ..self
            }
        }
    }

    pub open spec fn toggle_tree(self, line: int, ls: Seq<Seq<char>>) -> FoldsV {
        if foldable(ls, line) {
            self.flip_tree(line, ls)
        } else {
            match self.innermost(line, ls, line) {
                Some(s) => self.flip_tree(s, ls),
                None => self,
            }
        }
    }

    /// Closed are exactly the folds at level `n` and deeper.
    pub open spec fn at_level(self, n: int, ls: Seq<Seq<char>>) -> FoldsV {
        FoldsV {
            closed: Set::new(
                |i: int| 0 <= i < ls.len() && foldable(ls, i) && level(ls[i]) >= n,
            ),
            ..self
        }
    }

    /// Closed are the folds that `line` neither starts nor belongs to.
    pub open spec fn only_around(self, line: int, ls: Seq<Seq<char>>) -> FoldsV {
        FoldsV {
            closed: Set::new(
                |i: int| 0 <= i < ls.len() && foldable(ls, i) && !(i <= line <= end_of(ls, i)),
            ),
            ..self
        }
    }

    pub open spec fn shifted(self, at: int, delta: int) -> FoldsV {
        if delta == 0 {
            self
        } else {
            FoldsV {
                closed: Set::new(
                    |x: int|
                        exists|s: int| #[trigger]
                            self.closed.contains(s) && moved_to(s, at, delta) == Some(x),
                ),
                explicit: moved_ranges(self.explicit, at, delta),
            }
        }
    }

    /// The folds after the bytes `lo..hi` of the text `t` are replaced by `r`:
    /// they stay with the lines that they start at.
    #[verifier::opaque]
    pub open spec fn follow(self, t: Seq<char>, lo: int, hi: int, r: Seq<char>) -> FoldsV {
        self.shifted(
            last_kept(t, lo, hi, r),
            lines::line_count(buffer::splice(t, lo, hi, r)) - lines::line_count(t),
        )
    }

    /// The folds after the text `t` has become `u`: what the two have in common
    /// at their starts and ends was not edited.
    #[verifier::opaque]
    pub open spec fn retext(self, t: Seq<char>, u: Seq<char>) -> FoldsV {
        let p = same_front(t, u, 0);
        let q = same_back(t, u, p, 0);
        self.follow(
            t,
            text::off(t, p),
            text::off(t, t.len() - q),
            u.subrange(p, u.len() - q),
        )
    }

    /// The folds after the lines `a..=b` and the lines up to `c` after them have
    /// changed places.
    pub open spec fn exchanged(self, a: int, b: int, c: int) -> FoldsV {
        FoldsV {
            closed: Set::new(
                |x: int| self.closed.contains(exchanged_to(x, a, a + (c - b) - 1, c)),
            ),
            ..self
        }
    }

    pub open spec fn close_range(self, start: int, end: int) -> FoldsV {
        if end > start {
            FoldsV { explicit: self.explicit.push((start, end)), ..self }
        } else {
            self
        }
    }

    pub open spec fn none() -> FoldsV {
        FoldsV { closed: Set::empty(), explicit: Seq::empty() }
    }
}

#[derive(Debug)]
pub struct Folds {
    /// First lines of the closed folds, ascending.
    closed: Vec<usize>,
    explicit: Vec<(usize, usize)>,
}

impl View for Folds {
    type V = FoldsV;

    closed spec fn view(&self) -> FoldsV {
        FoldsV {
            closed: Set::new(|s: int| exists|i: int| 0 <= i < self.closed@.len() && self.closed@[i] == s),
            explicit: Seq::new(
                self.explicit@.len(),
                |i: int| (self.explicit@[i].0 as int, self.explicit@[i].1 as int),
            ),
        }
    }
}

pub proof fn lemma_extent(ls: Seq<Seq<char>>, lvl: int, i: int, end: int)
    requires
        0 <= end < i,
        end < ls.len(),
    ensures
        end <= extent(ls, lvl, i, end),
        extent(ls, lvl, i, end) < ls.len(),
    decreases ls.len() - i,
{
    if i < ls.len() {
        if chars::blank(ls[i]) {
            lemma_extent(ls, lvl, i + 1, end);
        } else if level(ls[i]) > lvl {
            lemma_extent(ls, lvl, i + 1, i);
        }
    }
}

proof fn lemma_innermost(f: FoldsV, line: int, ls: Seq<Seq<char>>, below: int)
    requires
        0 <= below,
    ensures
        f.innermost(line, ls, below) matches Some(s) ==> 0 <= s < below && f.hides(s, line, ls),
        f.innermost(line, ls, below) is None ==> forall|s: int|
            0 <= s < below ==> !#[trigger] f.hides(s, line, ls),
        f.innermost(line, ls, below) matches Some(s) ==> forall|u: int|
            s < u < below ==> !#[trigger] f.hides(u, line, ls),
    decreases below,
{
    if below > 0 && !f.hides(below - 1, line, ls) {
        lemma_innermost(f, line, ls, below - 1);
    }
}

/// Indent level of a line.
pub fn fold_level(line: &str) -> (n: usize)
    ensures
        n == level(line@),
        n <= line@.len(),
{
    let v: Vec<char> = chars_of(line);
    let mut n: usize = 0;
    while n < v.len() && (v[n] == '\t' || v[n] == '*')
        invariant
            n <= v.len(),
            level(v@) == text::skip_fwd(v@, n as int, mark_fn()),
        decreases v.len() - n,
    {
        n += 1;
    }
    n
}

/// Last line of the fold that starts at `start`; `start` itself when no
/// deeper line follows.
pub fn fold_end(start: usize, lines: &[String]) -> (e: usize)
    ensures
        e == end_of(views(lines@), start as int),
        start < lines@.len() ==> start <= e < lines@.len(),
{
    if start >= lines.len() {
        return start;
    }
    let ghost ls = views(lines@);
    let lvl: usize = fold_level(&lines[start]);
    let mut end: usize = start;
    let mut i: usize = start + 1;
    while i < lines.len()
        invariant
            start <= end < i <= lines.len(),
            ls == views(lines@),
            lvl == level(ls[start as int]),
            end_of(ls, start as int) == extent(ls, lvl as int, i as int, end as int),
        decreases lines.len() - i,
    {
        assert(ls[i as int] == lines@[i as int]@);
        if !is_blank(&lines[i]) {
            if fold_level(&lines[i]) > lvl {
                end = i;
            } else {
                return end;
            }
        }
        i += 1;
    }
    end
}

/// Whether a line has lines below it that belong to it.
pub fn is_foldable(start: usize, lines: &[String]) -> (r: bool)
    ensures
        r == foldable(views(lines@), start as int),
{
    fold_end(start, lines) > start
}

/// The nearest line above that is less indented; none for a line at the top
/// level.
pub fn find_parent(line: usize, lines: &[String]) -> (r: Option<usize>)
    ensures
        buffer::int_opt(r) == parent_of(views(lines@), line as int),
        r matches Some(p) ==> p < line,
{
    if line == 0 || line >= lines.len() {
        return None;
    }
    let ghost ls = views(lines@);
    assert(ls[line as int] == lines@[line as int]@);
    let lvl: usize = fold_level(&lines[line]);
    if lvl == 0 {
        return None;
    }
    let mut i: usize = line;
    while i > 0
        invariant
            i <= line < lines.len(),
            ls == views(lines@),
            lvl == level(ls[line as int]),
            lvl > 0,
            shallower(ls, lvl as int, line as int) == shallower(ls, lvl as int, i as int),
        decreases i,
    {
        i -= 1;
        assert(ls[i as int] == lines@[i as int]@);
        if !is_blank(&lines[i]) && fold_level(&lines[i]) < lvl {
            return Some(i);
        }
    }
    None
}

impl Folds {
    /// The closed folds are listed once each, in ascending order.
    pub closed spec fn wf(&self) -> bool {
        &&& forall|i: int, j: int|
            0 <= i < j < self.closed@.len() ==> self.closed@[i] < self.closed@[j]
        &&& self@.sound()
    }

    pub fn new() -> (f: Folds)
        ensures
            f@ == FoldsV::none(),
            f.wf(),
    {
        let f = Folds { closed: Vec::new(), explicit: Vec::new() };
        assert(f@ =~= FoldsV::none());
        f
    }

    /// Opens everything, explicit ranges included.
    pub fn clear(&mut self)
        ensures
            final(self)@ == FoldsV::none(),
            final(self).wf(),
    {
        self.closed = Vec::new();
        self.explicit = Vec::new();
        assert(self@ =~= FoldsV::none());
    }

    /// Hides the lines after `start` up to `end`.
    pub fn close_range(&mut self, start: usize, end: usize)
        requires
            old(self).wf(),
        ensures
            final(self)@ == old(self)@.close_range(start as int, end as int),
            final(self).wf(),
    {
        let ghost before = self@;
        if end > start {
            self.explicit.push((start, end));
            assert(self@.closed =~= before.closed);
            assert(self@.explicit =~= before.explicit.push((start as int, end as int)));
        }
    }

    /// Number of closed folds.
    pub fn count(&self) -> (n: usize)
        requires
            self.wf(),
        ensures
            self@.closed.finite(),
            n == self@.closed.len(),
    {
        proof {
            let idx = Seq::new(self.closed@.len(), |i: int| self.closed@[i] as int);
            assert(idx.to_set() =~= self@.closed) by {
                assert forall|s: int| self@.closed.contains(s) implies idx.contains(s) by {
                    let i = choose|i: int| 0 <= i < self.closed@.len() && self.closed@[i] == s;
                    assert(idx[i] == s);
                }
                assert forall|s: int| idx.contains(s) implies self@.closed.contains(s) by {
                    let i = choose|i: int| 0 <= i < idx.len() && idx[i] == s;
                    assert(self.closed@[i] == s);
                }
            }
            assert(idx.no_duplicates());
            idx.unique_seq_to_set();
        }
        self.closed.len()
    }

    /// Whether the fold that starts at `line` is closed.
    pub fn is_closed(&self, line: usize) -> (r: bool)
        ensures
            r == self@.closed.contains(line as int),
    {
        let mut i: usize = 0;
        while i < self.closed.len()
            invariant
                i <= self.closed.len(),
                forall|k: int| 0 <= k < i ==> self.closed@[k] != line,
            decreases self.closed.len() - i,
        {
            if self.closed[i] == line {
                assert(self@.closed.contains(line as int));
                return true;
            }
            i += 1;
        }
        false
    }

    /// Closes the fold at `line`. Nothing changes when it is closed already,
    /// or when the line has no children.
    pub fn close(&mut self, line: usize, lines: &[String])
        requires
            old(self).wf(),
        ensures
            final(self)@ == old(self)@.close(line as int, views(lines@)),
            !foldable(views(lines@), line as int) ==> final(self)@ == old(self)@,
            old(self)@.closed.contains(line as int) ==> final(self)@ == old(self)@,
            final(self).wf(),
    {
        if is_foldable(line, lines) {
            self.shut(line);
            assert(old(self)@.closed.contains(line as int) ==> self@.closed
                =~= old(self)@.closed);
        }
    }

    fn shut(&mut self, line: usize)
        requires
            old(self).wf(),
        ensures
            final(self)@ == old(self)@.shut(line as int),
            final(self).wf(),
    {
        let ghost before = *self;
        let mut i: usize = 0;
        while i < self.closed.len() && self.closed[i] < line
            invariant
                i <= self.closed.len(),
                *self == before,
                forall|k: int| 0 <= k < i ==> self.closed@[k] < line,
            decreases self.closed.len() - i,
        {
            i += 1;
        }
        if i < self.closed.len() && self.closed[i] == line {
            assert(self@.closed =~= before@.closed.insert(line as int));
        } else {
            self.closed.insert(i, line);
            proof {
                let a = before.closed@;
                let b = self.closed@;
                assert(b =~= a.insert(i as int, line));
                assert forall|s: int|
                    self@.closed.contains(s) == before@.closed.insert(line as int).contains(s) by {
                    if s == line {
                        assert(b[i as int] == line);
                    }
                    if before@.closed.contains(s) {
                        let k = choose|k: int| 0 <= k < a.len() && a[k] == s;
                        assert(b[if k < i { k } else { k + 1 }] == s);
                    }
                    if self@.closed.contains(s) && s != line {
                        let k = choose|k: int| 0 <= k < b.len() && b[k] == s;
                        assert(a[if k < i { k } else { k - 1 }] == s);
                    }
                }
                assert(self@.closed =~= before@.closed.insert(line as int));
            }
        }
        assert(self@.explicit =~= before@.explicit);
    }

    /// Opens the fold at `line`.
    pub fn open(&mut self, line: usize)
        requires
            old(self).wf(),
        ensures
            final(self)@ == old(self)@.open(line as int),
            final(self).wf(),
    {
        let ghost before = *self;
        let mut i: usize = 0;
        while i < self.closed.len() && self.closed[i] != line
            invariant
                i <= self.closed.len(),
                *self == before,
                forall|k: int| 0 <= k < i ==> self.closed@[k] != line,
            decreases self.closed.len() - i,
        {
            i += 1;
        }
        if i < self.closed.len() {
            self.closed.remove(i);
            proof {
                let a = before.closed@;
                let b = self.closed@;
                assert(b =~= a.remove(i as int));
                assert forall|s: int|
                    self@.closed.contains(s) == before@.closed.remove(line as int).contains(s) by {
                    if before@.closed.contains(s) && s != line {
                        let k = choose|k: int| 0 <= k < a.len() && a[k] == s;
                        assert(b[if k < i { k } else { k - 1 }] == s);
                    }
                    if self@.closed.contains(s) {
                        let k = choose|k: int| 0 <= k < b.len() && b[k] == s;
                        assert(a[if k < i { k } else { k + 1 }] == s);
                    }
                }
            }
        }
        assert(self@.closed =~= before@.closed.remove(line as int));
        assert(self@.explicit =~= before@.explicit);
    }

    /// Whether no closed fold above `line` hides it.
    pub fn is_visible(&self, line: usize, lines: &[String]) -> (r: bool)
        ensures
            r == self@.visible(line as int, views(lines@)),
    {
        let ghost ls = views(lines@);
        let mut i: usize = 0;
        while i < self.explicit.len()
            invariant
                i <= self.explicit.len(),
                ls == views(lines@),
                forall|k: int|
                    0 <= k < i ==> !((#[trigger] self@.explicit[k]).0 < line
                        <= self@.explicit[k].1),
            decreases self.explicit.len() - i,
        {
            let (s, e) = self.explicit[i];
            assert(self@.explicit[i as int] == (s as int, e as int));
            if line > s && line <= e {
                return false;
            }
            i += 1;
        }
        let mut j: usize = 0;
        while j < self.closed.len()
            invariant
                j <= self.closed.len(),
                ls == views(lines@),
                forall|k: int|
                    0 <= k < self@.explicit.len() ==> !((#[trigger] self@.explicit[k]).0 < line
                        <= self@.explicit[k].1),
                forall|k: int|
                    0 <= k < j ==> !self@.covers(#[trigger] self.closed@[k] as int, line as int, ls),
            decreases self.closed.len() - j,
        {
            let s: usize = self.closed[j];
            if s < line && fold_end(s, lines) >= line {
                assert(self@.closed.contains(s as int));
                assert(self@.hides(s as int, line as int, ls));
                return false;
            }
            j += 1;
        }
        assert forall|s: int| !#[trigger] self@.hides(s, line as int, ls) by {
            if self@.closed.contains(s) {
                let k = choose|k: int| 0 <= k < self.closed@.len() && self.closed@[k] == s;
                assert(!self@.covers(self.closed@[k] as int, line as int, ls));
            }
        }
        true
    }

    /// The closed folds that hide `line`, innermost first.
    pub fn closed_folds_containing(&self, line: usize, lines: &[String]) -> (v: Vec<usize>)
        requires
            self.wf(),
        ensures
            forall|s: int| #[trigger]
                self@.hides(s, line as int, views(lines@)) <==> exists|i: int|
                    0 <= i < v@.len() && v@[i] == s,
            forall|i: int, j: int| 0 <= i < j < v@.len() ==> v@[i] > v@[j],
            (if v@.len() > 0 {
                Some(v@[0] as int)
            } else {
                None
            }) == self@.innermost(line as int, views(lines@), line as int),
    {
        let ghost ls = views(lines@);
        let mut v: Vec<usize> = Vec::new();
        let mut j: usize = self.closed.len();
        while j > 0
            invariant
                j <= self.closed.len(),
                self.wf(),
                ls == views(lines@),
                forall|i: int, k: int| 0 <= i < k < v@.len() ==> v@[i] > v@[k],
                forall|i: int|
                    0 <= i < v@.len() ==> self@.hides(#[trigger] v@[i] as int, line as int, ls) && (j
                        < self.closed.len() ==> v@[i] >= self.closed@[j as int]) && (j
                        == self.closed.len() ==> false),
                forall|k: int|
                    j <= k < self.closed.len() && self@.covers(
                        #[trigger] self.closed@[k] as int,
                        line as int,
                        ls,
                    ) ==> exists|i: int| 0 <= i < v@.len() && v@[i] == self.closed@[k],
            decreases j,
        {
            j -= 1;
            let s: usize = self.closed[j];
            let ghost v0 = v@;
            if s < line && fold_end(s, lines) >= line {
                assert(self@.closed.contains(s as int));
                v.push(s);
                assert(v@[v@.len() - 1] == s);
            }
            assert forall|k: int|
                j <= k < self.closed.len() && self@.covers(
                    #[trigger] self.closed@[k] as int,
                    line as int,
                    ls,
                ) implies exists|i: int| 0 <= i < v@.len() && v@[i] == self.closed@[k] by {
                if k > j {
                    let i = choose|i: int| 0 <= i < v0.len() && v0[i] == self.closed@[k];
                    assert(v@[i] == self.closed@[k]);
                }
            }
        }
        assert forall|s: int| #[trigger] self@.hides(s, line as int, ls) implies exists|i: int|
            0 <= i < v@.len() && v@[i] == s by {
            let k = choose|k: int| 0 <= k < self.closed@.len() && self.closed@[k] == s;
            assert(self@.covers(self.closed@[k] as int, line as int, ls));
        }
        proof {
            lemma_innermost(self@, line as int, ls, line as int);
            if v@.len() > 0 {
                assert(self@.hides(v@[0] as int, line as int, ls));
                let s = self@.innermost(line as int, ls, line as int)->0;
                let i = choose|i: int| 0 <= i < v@.len() && v@[i] == s;
                assert(v@[i] == s);
            } else {
                if let Some(s) = self@.innermost(line as int, ls, line as int) {
                    assert(self@.hides(s, line as int, ls));
                }
            }
        }
        v
    }

    /// Flips the fold at `line`. On a line without children it opens the
    /// innermost closed fold around it, or else closes the parent.
    pub fn toggle_at(&mut self, line: usize, lines: &[String])
        requires
            old(self).wf(),
        ensures
            final(self)@ == old(self)@.toggle(line as int, views(lines@)),
            final(self).wf(),
    {
        if !is_foldable(line, lines) {
            let around: Vec<usize> = self.closed_folds_containing(line, lines);
            if around.len() > 0 {
                self.open(around[0]);
                return;
            }
            if let Some(p) = find_parent(line, lines) {
                self.shut(p);
            }
            return;
        }
        if self.is_closed(line) {
            self.open(line);
        } else {
            self.shut(line);
        }
    }

    /// Flips the fold at `line` with every fold inside it.
    pub fn toggle_recursive_at(&mut self, line: usize, lines: &[String])
        requires
            old(self).wf(),
        ensures
            final(self)@ == old(self)@.toggle_tree(line as int, views(lines@)),
            final(self).wf(),
    {
        if !is_foldable(line, lines) {
            let around: Vec<usize> = self.closed_folds_containing(line, lines);
            if around.len() > 0 {
                self.flip_tree(around[0], lines);
            }
            return;
        }
        self.flip_tree(line, lines);
    }

    fn flip_tree(&mut self, line: usize, lines: &[String])
        requires
            old(self).wf(),
        ensures
            final(self)@ == old(self)@.flip_tree(line as int, views(lines@)),
            final(self).wf(),
    {
        let ghost before = self@;
        let ghost ls = views(lines@);
        let end: usize = fold_end(line, lines);
        if self.is_closed(line) {
            let mut i: usize = self.closed.len();
            while i > 0
                invariant
                    i <= self.closed.len(),
                    self.wf(),
                    self@.explicit == before.explicit,
                    forall|s: int| #[trigger]
                        self@.closed.contains(s) ==> before.closed.contains(s),
                    forall|s: int|
                        before.closed.contains(s) && !(line <= s <= end)
                            ==> #[trigger] self@.closed.contains(s),
                    forall|k: int|
                        i <= k < self.closed.len() ==> !(line <= #[trigger] self.closed@[k] <= end),
                decreases i,
            {
                i -= 1;
                let s: usize = self.closed[i];
                if line <= s && s <= end {
                    let ghost a = self.closed@;
                    let ghost was = self@;
                    self.closed.remove(i);
                    proof {
                        let b = self.closed@;
                        assert(b =~= a.remove(i as int));
                        assert forall|x: int|
                            was.closed.contains(x) && x != s implies #[trigger] self@.closed.contains(
                            x,
                        ) by {
                            let k = choose|k: int| 0 <= k < a.len() && a[k] == x;
                            assert(b[if k < i { k } else { k - 1 }] == x);
                        }
                        assert forall|x: int| #[trigger]
                            self@.closed.contains(x) implies was.closed.contains(x) by {
                            let k = choose|k: int| 0 <= k < b.len() && b[k] == x;
                            assert(a[if k < i { k } else { k + 1 }] == x);
                        }
                        assert(self@.explicit =~= before.explicit);
                    }
                }
            }
            proof {
                let goal = before.flip_tree(line as int, ls).closed;
                assert forall|s: int| self@.closed.contains(s) == goal.contains(s) by {
                    if self@.closed.contains(s) {
                        let k = choose|k: int| 0 <= k < self.closed@.len() && self.closed@[k] == s;
                        assert(!(line <= self.closed@[k] <= end));
                    }
                }
                assert(self@.closed =~= goal);
            }
        } else {
            self.shut(line);
            let mut i: usize = line;
            while i < end
                invariant
                    line <= i,
                    i <= end || i == line,
                    end == end_of(ls, line as int),
                    self.wf(),
                    ls == views(lines@),
                    self@.explicit == before.explicit,
                    self@.closed =~= Set::new(
                        |s: int|
                            before.closed.contains(s) || s == line || (line < s <= i && foldable(
                                ls,
                                s,
                            )),
                    ),
                decreases end - i,
            {
                i += 1;
                if is_foldable(i, lines) {
                    self.shut(i);
                }
            }
            assert(self@.closed =~= before.flip_tree(line as int, ls).closed);
        }
    }

    /// Closes every fold at indent level `level` and deeper, and opens the
    /// others: the lines down to that level stay in sight.
    pub fn set_level(&mut self, level: usize, lines: &[String])
        requires
            old(self).wf(),
        ensures
            final(self)@ == old(self)@.at_level(level as int, views(lines@)),
            final(self).wf(),
    {
        let ghost before = self@;
        let ghost ls = views(lines@);
        self.closed = Vec::new();
        assert(self@.explicit =~= before.explicit);
        let mut i: usize = 0;
        while i < lines.len()
            invariant
                i <= lines.len(),
                ls == views(lines@),
                self.wf(),
                self@.explicit == before.explicit,
                self@.closed =~= Set::new(
                    |k: int| 0 <= k < i && foldable(ls, k) && self::level(ls[k]) >= level,
                ),
            decreases lines.len() - i,
        {
            assert(ls[i as int] == lines@[i as int]@);
            if is_foldable(i, lines) && fold_level(&lines[i]) >= level {
                self.shut(i);
            }
            i += 1;
        }
        assert(self@.closed =~= before.at_level(level as int, ls).closed);
    }

    /// Closes every fold but the one that starts at `line` and those around it.
    pub fn fold_others(&mut self, line: usize, lines: &[String])
        requires
            old(self).wf(),
        ensures
            final(self)@ == old(self)@.only_around(line as int, views(lines@)),
            final(self).wf(),
    {
        let ghost before = self@;
        let ghost ls = views(lines@);
        self.closed = Vec::new();
        assert(self@.explicit =~= before.explicit);
        let mut i: usize = 0;
        while i < lines.len()
            invariant
                i <= lines.len(),
                ls == views(lines@),
                self.wf(),
                self@.explicit == before.explicit,
                self@.closed =~= Set::new(
                    |k: int| 0 <= k < i && foldable(ls, k) && !(k <= line <= end_of(ls, k)),
                ),
            decreases lines.len() - i,
        {
            if is_foldable(i, lines) && !(i <= line && line <= fold_end(i, lines)) {
                self.shut(i);
            }
            i += 1;
        }
        assert(self@.closed =~= before.only_around(line as int, ls).closed);
    }

    /// Opens every fold, explicit ranges too.
    pub fn open_all(&mut self)
        ensures
            final(self)@ == FoldsV::none(),
            final(self).wf(),
    {
        self.clear();
    }

    /// Moves the folds with their lines when `delta` lines are added after
    /// `at_line`, or taken out there. A fold whose head is taken out is
    /// dropped.
    pub fn shift_lines(&mut self, at_line: usize, delta: isize)
        requires
            old(self).wf(),
        ensures
            final(self)@ == old(self)@.shifted(at_line as int, delta as int),
            final(self).wf(),
    {
        self.shift(at_line as i128, delta as i128);
    }

    /// The same with the line before the first one, which has number -1.
    pub(crate) fn shift(&mut self, at_line: i128, delta: i128)
        requires
            old(self).wf(),
            -1 <= at_line <= usize::MAX,
            -0x1_0000_0000_0000_0000 <= delta <= 0x1_0000_0000_0000_0000,
        ensures
            final(self)@ == old(self)@.shifted(at_line as int, delta as int),
            final(self).wf(),
    {
        if delta == 0 {
            return;
        }
        let ghost before = self@;
        let ghost a = self.closed@;
        let closed: Vec<usize> = moved_all(&self.closed, at_line, delta);
        let mut explicit: Vec<(usize, usize)> = Vec::new();
        let mut j: usize = 0;
        assert(before.explicit.take(0) =~= Seq::empty());
        let ghost ev = Seq::new(
            explicit@.len(),
            |i: int| (explicit@[i].0 as int, explicit@[i].1 as int),
        );
        assert(ev =~= Seq::empty());
        while j < self.explicit.len()
            invariant
                j <= self.explicit.len(),
                -1 <= at_line <= usize::MAX,
                -0x1_0000_0000_0000_0000 <= delta <= 0x1_0000_0000_0000_0000,
                delta != 0,
                self@ == before,
                ev == Seq::new(
                    explicit@.len(),
                    |i: int| (explicit@[i].0 as int, explicit@[i].1 as int),
                ),
                ev == moved_ranges(
                    before.explicit.take(j as int),
                    at_line as int,
                    delta as int,
                ),
            decreases self.explicit.len() - j,
        {
            let (s, e) = self.explicit[j];
            assert(before.explicit[j as int] == (s as int, e as int));
            assert(before.explicit.take(j + 1).drop_last() =~= before.explicit.take(j as int));
            let ms = moved(s, at_line, delta);
            let me = moved(e, at_line, delta);
            if let Some(s2) = ms {
                if let Some(e2) = me {
                    if e2 > s2 {
                        explicit.push((s2, e2));
                        proof {
                            let ev2 = Seq::new(
                                explicit@.len(),
                                |i: int| (explicit@[i].0 as int, explicit@[i].1 as int),
                            );
                            assert(ev2 =~= ev.push((s2 as int, e2 as int)));
                            ev = ev2;
                        }
                    }
                }
            }
            j += 1;
        }
        assert(before.explicit.take(j as int) =~= before.explicit);
        self.closed = closed;
        self.explicit = explicit;
        proof {
            let goal = before.shifted(at_line as int, delta as int);
            assert forall|x: int| self@.closed.contains(x) == goal.closed.contains(x) by {
                assert(self@.closed.contains(x) == has(closed@, x));
                if hit(a, a.len() as int, at_line as int, delta as int, x) {
                    let k = choose|k: int|
                        0 <= k < a.len() && moved_to(
                            #[trigger] a[k] as int,
                            at_line as int,
                            delta as int,
                        ) == Some(x);
                    assert(before.closed.contains(a[k] as int));
                }
                if goal.closed.contains(x) {
                    let s = choose|s: int| #[trigger]
                        before.closed.contains(s) && moved_to(
                            s,
                            at_line as int,
                            delta as int,
                        ) == Some(x);
                    let k = choose|k: int| 0 <= k < a.len() && a[k] == s;
                    assert(moved_to(a[k] as int, at_line as int, delta as int) == Some(x));
                }
            }
            assert(self@.closed =~= goal.closed);
            assert(self@.explicit =~= goal.explicit);
            lemma_moved_sound(before.explicit, at_line as int, delta as int);
        }
    }
}

impl Folds {
    /// Moves the folds with their lines when the lines `a..=b` and those up to
    /// `c` after them change places.
    pub(crate) fn exchange(&mut self, a: usize, b: usize, c: usize)
        requires
            old(self).wf(),
            a <= b <= c,
        ensures
            final(self)@ == old(self)@.exchanged(a as int, b as int, c as int),
            final(self).wf(),
    {
        let ghost before = self@;
        let mut was: Vec<usize> = Vec::new();
        std::mem::swap(&mut was, &mut self.closed);
        assert(self@.explicit =~= before.explicit);
        let mut i: usize = 0;
        while i < was.len()
            invariant
                i <= was.len(),
                a <= b <= c,
                self.wf(),
                self@.explicit == before.explicit,
                forall|x: int| #[trigger]
                    self@.closed.contains(x) == landed(was@, i as int, a as int, b as int, c as int, x),
            decreases was.len() - i,
        {
            let ghost v = self@;
            let s: usize = was[i];
            let to: usize = if a <= s && s <= b {
                s + (c - b)
            } else if b < s && s <= c {
                s - (b - a) - 1
            } else {
                s
            };
            self.shut(to);
            assert forall|x: int| #[trigger]
                self@.closed.contains(x) == landed(was@, i + 1, a as int, b as int, c as int, x) by {
                assert(v.closed.contains(x) == landed(
                    was@,
                    i as int,
                    a as int,
                    b as int,
                    c as int,
                    x,
                ));
                lemma_landed_step(was@, i as int, a as int, b as int, c as int, x);
            }
            i += 1;
        }
        proof {
            let goal = before.exchanged(a as int, b as int, c as int);
            assert forall|x: int| self@.closed.contains(x) == goal.closed.contains(x) by {
                let y = exchanged_to(x, a as int, a + (c - b) - 1, c as int);
                assert(exchanged_to(y, a as int, b as int, c as int) == x);
                if before.closed.contains(y) {
                    let k = choose|k: int| 0 <= k < was@.len() && was@[k] == y;
                    assert(exchanged_to(was@[k] as int, a as int, b as int, c as int) == x);
                }
                if landed(was@, was@.len() as int, a as int, b as int, c as int, x) {
                    let k = choose|k: int|
                        0 <= k < was@.len() && exchanged_to(
                            #[trigger] was@[k] as int,
                            a as int,
                            b as int,
                            c as int,
                        ) == x;
                    assert(was@[k] == y);
                    assert(before.closed.contains(y));
                }
            }
            assert(self@.closed =~= goal.closed);
        }
    }

    /// Moves the folds with their lines when the text `t` becomes `u`.
    pub(crate) fn follow_text(&mut self, t: &Vec<char>, u: &Vec<char>)
        requires
            old(self).wf(),
        ensures
            final(self)@ == old(self)@.retext(t@, u@),
            final(self).wf(),
    {
        let mut p: usize = 0;
        while p < t.len() && p < u.len() && t[p] == u[p]
            invariant
                p <= t.len(),
                p <= u.len(),
                same_front(t@, u@, 0) == same_front(t@, u@, p as int),
                forall|i: int| 0 <= i < p ==> t@[i] == u@[i],
            decreases t.len() - p,
        {
            p += 1;
        }
        let mut q: usize = 0;
        while p < t.len() - q && p < u.len() - q && t[t.len() - 1 - q] == u[u.len() - 1 - q]
            invariant
                p + q <= t.len(),
                p + q <= u.len(),
                same_back(t@, u@, p as int, 0) == same_back(t@, u@, p as int, q as int),
                forall|i: int|
                    0 <= i < q ==> t@[t@.len() - 1 - i] == #[trigger] u@[u@.len() - 1 - i],
            decreases t.len() - q,
        {
            q += 1;
        }
        let ghost lo = text::off(t@, p as int);
        let ghost hi = text::off(t@, t@.len() - q);
        let ghost r = u@.subrange(p as int, u@.len() - q);
        let k: usize = lines::count_breaks(t, p);
        let whole: bool = lines::heads_line(t, p) && lines::heads_line(t, t.len() - q) && (p
            == u.len() - q || u[u.len() - q - 1] == '\n');
        let before: usize = lines::count_breaks(t, t.len());
        let after: usize = lines::count_breaks(u, u.len());
        proof {
            reveal(FoldsV::retext);
            reveal(FoldsV::follow);
            text::lemma_at_off(t@, p as int);
            text::lemma_at_off(t@, t@.len() - q);
            assert(buffer::splice(t@, lo, hi, r) =~= u@) by {
                assert forall|i: int| u@.len() - q <= i < u@.len() implies u@[i] == t@[i - u@.len()
                    + t@.len()] by {
                    assert(u@[u@.len() - 1 - (u@.len() - 1 - i)] == u@[i]);
                }
            }
            assert(r.len() > 0 ==> r.last() == u@[u@.len() - q - 1]);
            lines::lemma_line_start(t@, k as int);
            lines::lemma_line_of(t@, t@.len() - q);
            lines::lemma_line_start(t@, lines::line_of(t@, t@.len() - q));
            assert(lines::line_at(t@, lo) == k);
            lemma_off_same(t@, lines::line_start(t@, k as int), p as int);
            lemma_off_same(
                t@,
                lines::line_start(t@, lines::line_of(t@, t@.len() - q)),
                t@.len() - q,
            );
        }
        self.shift(
            if whole {
                k as i128 - 1
            } else {
                k as i128
            },
            after as i128 - before as i128,
        );
    }
}

/// One of the first `n` lines of `v` goes to `x`.
spec fn landed(v: Seq<usize>, n: int, a: int, b: int, c: int, x: int) -> bool {
    exists|k: int| 0 <= k < n && exchanged_to(#[trigger] v[k] as int, a, b, c) == x
}

proof fn lemma_landed_step(v: Seq<usize>, n: int, a: int, b: int, c: int, x: int)
    requires
        0 <= n < v.len(),
    ensures
        landed(v, n + 1, a, b, c, x) == (landed(v, n, a, b, c, x) || exchanged_to(
            v[n] as int,
            a,
            b,
            c,
        ) == x),
{
    if landed(v, n, a, b, c, x) {
        let k = choose|k: int| 0 <= k < n && exchanged_to(#[trigger] v[k] as int, a, b, c) == x;
        assert(exchanged_to(v[k] as int, a, b, c) == x);
    }
    if exchanged_to(v[n] as int, a, b, c) == x {
        assert(landed(v, n + 1, a, b, c, x));
    }
}

/// Lines that change places and change them again have their folds as before.
pub proof fn law_exchange_back(f: FoldsV, a: int, b: int, c: int)
    requires
        a <= b < c,
    ensures
        f.exchanged(a, b, c).exchanged(a, a + (c - b) - 1, c) == f,
{
    assert(f.exchanged(a, b, c).exchanged(a, a + (c - b) - 1, c).closed =~= f.closed);
}

/// Different characters start at different bytes.
proof fn lemma_off_same(t: Seq<char>, i: int, j: int)
    requires
        0 <= j <= t.len(),
    ensures
        i <= t.len() && 0 <= i ==> (text::off(t, i) == text::off(t, j)) == (i == j),
{
    if 0 <= i < j {
        text::lemma_off_mono(t, i, j);
    } else if j < i {
        text::lemma_off_mono(t, j, i);
    }
}

spec fn has(v: Seq<usize>, x: int) -> bool {
    exists|i: int| 0 <= i < v.len() && v[i] == x
}

/// One of the first `n` lines of `a` moves to `x`.
spec fn hit(a: Seq<usize>, n: int, at: int, delta: int, x: int) -> bool {
    exists|k: int| 0 <= k < n && moved_to(#[trigger] a[k] as int, at, delta) == Some(x)
}

proof fn lemma_hit_step(a: Seq<usize>, n: int, at: int, delta: int, x: int)
    requires
        0 <= n < a.len(),
    ensures
        hit(a, n + 1, at, delta, x) == (hit(a, n, at, delta, x) || moved_to(
            a[n] as int,
            at,
            delta,
        ) == Some(x)),
{
    if hit(a, n + 1, at, delta, x) {
        let k = choose|k: int|
            0 <= k < n + 1 && moved_to(#[trigger] a[k] as int, at, delta) == Some(x);
        if k < n {
            assert(moved_to(a[k] as int, at, delta) == Some(x));
        }
    }
    if hit(a, n, at, delta, x) {
        let k = choose|k: int|
            0 <= k < n && moved_to(#[trigger] a[k] as int, at, delta) == Some(x);
        assert(moved_to(a[k] as int, at, delta) == Some(x));
    }
}

proof fn lemma_has_push(v: Seq<usize>, y: usize, x: int)
    ensures
        has(v.push(y), x) == (has(v, x) || x == y),
{
    if has(v, x) {
        let i = choose|i: int| 0 <= i < v.len() && v[i] == x;
        assert(v.push(y)[i] == x);
    }
    assert(v.push(y)[v.len() as int] == y);
}

fn moved_all(a: &Vec<usize>, at: i128, delta: i128) -> (v: Vec<usize>)
    requires
        -1 <= at <= usize::MAX,
        -0x1_0000_0000_0000_0000 <= delta <= 0x1_0000_0000_0000_0000,
        forall|i: int, j: int| 0 <= i < j < a@.len() ==> a@[i] < a@[j],
    ensures
        forall|i: int, j: int| 0 <= i < j < v@.len() ==> v@[i] < v@[j],
        forall|x: int| #[trigger]
            has(v@, x) == hit(a@, a@.len() as int, at as int, delta as int, x),
{
    let mut v: Vec<usize> = Vec::new();
    let mut i: usize = 0;
    while i < a.len()
        invariant
            i <= a.len(),
            -1 <= at <= usize::MAX,
            -0x1_0000_0000_0000_0000 <= delta <= 0x1_0000_0000_0000_0000,
            forall|i: int, j: int| 0 <= i < j < a@.len() ==> a@[i] < a@[j],
            forall|i: int, j: int| 0 <= i < j < v@.len() ==> v@[i] < v@[j],
            forall|x: int| #[trigger]
                has(v@, x) == hit(a@, i as int, at as int, delta as int, x),
        decreases a.len() - i,
    {
        let ghost v0 = v@;
        let to: Option<usize> = moved(a[i], at, delta);
        if let Some(x) = to {
            let n: usize = v.len();
            if n > 0 {
                proof {
                    assert(has(v@, v@[n - 1] as int));
                    assert(hit(a@, i as int, at as int, delta as int, v@[n - 1] as int));
                    let k = choose|k: int|
                        0 <= k < i && moved_to(
                            #[trigger] a@[k] as int,
                            at as int,
                            delta as int,
                        ) == Some(v@[n - 1] as int);
                    assert(a@[k] < a@[i as int]);
                }
            }
            if n == 0 || v[n - 1] < x {
                v.push(x);
            }
        }
        assert forall|x: int| #[trigger]
            has(v@, x) == hit(a@, i + 1, at as int, delta as int, x) by {
            lemma_hit_step(a@, i as int, at as int, delta as int, x);
            assert(has(v0, x) == hit(a@, i as int, at as int, delta as int, x));
            if to is Some && v@.len() > v0.len() {
                lemma_has_push(v0, to->0, x);
            }
        }
        i += 1;
    }
    v
}

fn moved(s: usize, at: i128, delta: i128) -> (r: Option<usize>)
    requires
        -1 <= at <= usize::MAX,
        -0x1_0000_0000_0000_0000 <= delta <= 0x1_0000_0000_0000_0000,
    ensures
        buffer::int_opt(r) == moved_to(s as int, at as int, delta as int),
{
    let n: i128 = s as i128;
    if n <= at {
        Some(s)
    } else if delta < 0 {
        if n <= at - delta {
            None
        } else {
            Some((n + delta) as usize)
        }
    } else if n + delta <= usize::MAX as i128 {
        Some((n + delta) as usize)
    } else {
        Some(usize::MAX)
    }
}

/// A line that starts a closed fold is itself in sight unless another fold
/// hides it, and the lines of the closed fold are not.
pub proof fn law_closed_hides(f: FoldsV, s: int, line: int, ls: Seq<Seq<char>>)
    requires
        f.closed.contains(s),
        s < line <= end_of(ls, s),
    ensures
        !f.visible(line, ls),
{
    assert(f.hides(s, line, ls));
}

/// With all the other folds closed, a line is in sight unless an explicit range
/// hides it.
pub proof fn law_line_stays_in_sight(f: FoldsV, line: int, ls: Seq<Seq<char>>)
    requires
        f.explicit.len() == 0,
    ensures
        f.only_around(line, ls).visible(line, ls),
{
}

/// Two toggles on a line with children leave the folds as they were.
pub proof fn law_toggle_twice(f: FoldsV, line: int, ls: Seq<Seq<char>>)
    requires
        foldable(ls, line),
    ensures
        f.toggle(line, ls).toggle(line, ls) == f,
{
    assert(f.toggle(line, ls).toggle(line, ls).closed =~= f.closed);
}

proof fn lemma_shift_back_ranges(rs: Seq<(int, int)>, at: int, delta: int)
    requires
        delta > 0,
        forall|i: int| 0 <= i < rs.len() ==> (#[trigger] rs[i]).0 < rs[i].1 <= usize::MAX - delta,
    ensures
        moved_ranges(moved_ranges(rs, at, delta), at, -delta) == rs,
    decreases rs.len(),
{
    if rs.len() > 0 {
        let r = rs.last();
        assert(rs[rs.len() - 1] == r);
        let front = rs.drop_last();
        assert forall|i: int| 0 <= i < front.len() implies (#[trigger] front[i]).0 < front[i].1
            <= usize::MAX - delta by {
            assert(front[i] == rs[i]);
        }
        lemma_shift_back_ranges(front, at, delta);
        let m = moved_ranges(front, at, delta);
        let x = moved_range(r, at, delta)->0;
        assert(m.push(x).drop_last() =~= m);
        assert(moved_range(x, at, -delta) == Some(r));
        assert(front.push(r) =~= rs);
    }
}

/// Lines that are added and then taken out again leave the folds as they
/// were.
pub proof fn law_shift_back(f: FoldsV, at: int, delta: int)
    requires
        f.sound(),
        delta > 0,
        forall|s: int| #[trigger] f.closed.contains(s) ==> s <= usize::MAX - delta,
        forall|i: int|
            0 <= i < f.explicit.len() ==> (#[trigger] f.explicit[i]).1 <= usize::MAX - delta,
    ensures
        f.shifted(at, delta).shifted(at, -delta) == f,
{
    let g = f.shifted(at, delta);
    let h = g.shifted(at, -delta);
    assert forall|x: int| h.closed.contains(x) == f.closed.contains(x) by {
        if f.closed.contains(x) {
            let y = moved_to(x, at, delta)->0;
            assert(g.closed.contains(y));
            assert(moved_to(y, at, -delta) == Some(x));
        }
        if h.closed.contains(x) {
            let y = choose|y: int| #[trigger]
                g.closed.contains(y) && moved_to(y, at, -delta) == Some(x);
            let s = choose|s: int| #[trigger]
                f.closed.contains(s) && moved_to(s, at, delta) == Some(y);
            assert(s == x);
        }
    }
    assert(h.closed =~= f.closed);
    lemma_shift_back_ranges(f.explicit, at, delta);
}

/// The level of a line is the number of tabs and asterisks that it starts
/// with.
pub proof fn law_level(l: Seq<char>, n: int)
    requires
        0 <= n <= l.len(),
        forall|k: int| 0 <= k < n ==> (#[trigger] l[k] == '\t' || l[k] == '*'),
        n < l.len() ==> l[n] != '\t' && l[n] != '*',
    ensures
        level(l) == n,
{
    let f = mark_fn();
    text::lemma_skip_fwd(l, 0, f);
    let m = level(l);
    if m < n {
        assert(f(l[m]));
    } else if n < m {
        assert(f(l[n]));
    }
}

proof fn lemma_extent_shape(ls: Seq<Seq<char>>, lvl: int, start: int, i: int, end: int)
    requires
        0 <= start <= end < i <= ls.len(),
        forall|k: int|
            start < k <= end ==> chars::blank(#[trigger] ls[k]) || level(ls[k]) > lvl,
        end > start ==> !chars::blank(ls[end]),
        forall|k: int| end < k < i ==> chars::blank(#[trigger] ls[k]),
    ensures
        ({
            let e = extent(ls, lvl, i, end);
            &&& start <= e < ls.len()
            &&& forall|k: int|
                start < k <= e ==> chars::blank(#[trigger] ls[k]) || level(ls[k]) > lvl
            &&& e > start ==> !chars::blank(ls[e])
            &&& forall|k: int|
                #![trigger ls[k]]
                e < k < ls.len() && !chars::blank(ls[k]) && (forall|j: int|
                    e < j < k ==> chars::blank(#[trigger] ls[j])) ==> level(ls[k]) <= lvl
        }),
    decreases ls.len() - i,
{
    if i < ls.len() {
        if chars::blank(ls[i]) {
            lemma_extent_shape(ls, lvl, start, i + 1, end);
        } else if level(ls[i]) > lvl {
            lemma_extent_shape(ls, lvl, start, i + 1, i);
        } else {
            assert forall|k: int|
                #![trigger ls[k]]
                end < k < ls.len() && !chars::blank(ls[k]) && (forall|j: int|
                    end < j < k ==> chars::blank(#[trigger] ls[j])) implies level(ls[k]) <= lvl by {
                if k > i {
                    assert(chars::blank(ls[i]));
                } else if k < i {
                    assert(chars::blank(ls[k]));
                }
            }
        }
    }
}

/// A fold is a line with the lines below it that are indented further: it goes
/// on over them and over blank lines between them, ends with one of them, and
/// the next line that is not blank is no deeper than its head.
pub proof fn law_fold_extent(ls: Seq<Seq<char>>, s: int)
    requires
        0 <= s < ls.len(),
    ensures
        ({
            let e = end_of(ls, s);
            &&& s <= e < ls.len()
            &&& forall|k: int|
                s < k <= e ==> chars::blank(#[trigger] ls[k]) || level(ls[k]) > level(ls[s])
            &&& e > s ==> !chars::blank(ls[e])
            &&& forall|k: int|
                #![trigger ls[k]]
                e < k < ls.len() && !chars::blank(ls[k]) && (forall|j: int|
                    e < j < k ==> chars::blank(#[trigger] ls[j])) ==> level(ls[k]) <= level(ls[s])
        }),
{
    lemma_extent_shape(ls, level(ls[s]), s, s + 1, s);
}

/// The parent of a line is the nearest line above it that is not blank and is
/// indented less; a line without indentation has none.
pub proof fn law_parent(ls: Seq<Seq<char>>, line: int)
    requires
        0 <= line < ls.len(),
    ensures
        match parent_of(ls, line) {
            Some(p) => {
                &&& 0 <= p < line
                &&& !chars::blank(ls[p])
                &&& level(ls[p]) < level(ls[line])
                &&& forall|k: int|
                    p < k < line ==> chars::blank(#[trigger] ls[k]) || level(ls[k]) >= level(
                        ls[line],
                    )
            },
            None => forall|k: int|
                0 <= k < line ==> chars::blank(#[trigger] ls[k]) || level(ls[k]) >= level(ls[line]),
        },
{
    text::lemma_skip_fwd(ls[line], 0, mark_fn());
    if line > 0 && level(ls[line]) > 0 {
        lemma_shallower(ls, level(ls[line]), line);
    } else {
        assert forall|k: int| 0 <= k < line implies chars::blank(#[trigger] ls[k]) || level(ls[k])
            >= level(ls[line]) by {
            text::lemma_skip_fwd(ls[k], 0, mark_fn());
        }
    }
}

proof fn lemma_shallower(ls: Seq<Seq<char>>, lvl: int, i: int)
    requires
        0 <= i <= ls.len(),
    ensures
        match shallower(ls, lvl, i) {
            Some(p) => {
                &&& 0 <= p < i
                &&& !chars::blank(ls[p])
                &&& level(ls[p]) < lvl
                &&& forall|k: int|
                    p < k < i ==> chars::blank(#[trigger] ls[k]) || level(ls[k]) >= lvl
            },
            None => forall|k: int|
                0 <= k < i ==> chars::blank(#[trigger] ls[k]) || level(ls[k]) >= lvl,
        },
    decreases i,
{
    if i > 0 && (chars::blank(ls[i - 1]) || level(ls[i - 1]) >= lvl) {
        lemma_shallower(ls, lvl, i - 1);
    }
}

/// Folded to a level, a line of that level or above is in sight, and a line
/// below a head of that level or deeper is not.
pub proof fn law_folded_to_level(f: FoldsV, n: int, line: int, ls: Seq<Seq<char>>)
    requires
        f.explicit.len() == 0,
        0 <= line < ls.len(),
        !chars::blank(ls[line]),
    ensures
        level(ls[line]) <= n ==> f.at_level(n, ls).visible(line, ls),
        forall|s: int|
            0 <= s < line <= #[trigger] end_of(ls, s) && level(ls[s]) >= n ==> !f.at_level(
                n,
                ls,
            ).visible(line, ls),
{
    let g = f.at_level(n, ls);
    if level(ls[line]) <= n {
        assert forall|s: int| !#[trigger] g.hides(s, line, ls) by {
            if g.hides(s, line, ls) {
                law_fold_extent(ls, s);
                assert(level(ls[line]) > level(ls[s]));
            }
        }
    }
    assert forall|s: int| 0 <= s < line <= #[trigger] end_of(ls, s) && level(ls[s]) >= n implies !g.visible(
        line,
        ls,
    ) by {
        assert(foldable(ls, s));
        assert(g.closed.contains(s));
        assert(g.hides(s, line, ls));
    }
}

/// With all folds open every line is in sight.
pub proof fn law_unfolded(line: int, ls: Seq<Seq<char>>)
    ensures
        FoldsV::none().visible(line, ls),
{
}

/// Closing a fold hides its lines but the first, and opening it shows those
/// that nothing else hides; all other lines stay as they are.
pub proof fn law_one_fold(f: FoldsV, s: int, line: int, ls: Seq<Seq<char>>)
    ensures
        f.shut(s).visible(line, ls) == (f.visible(line, ls) && !(s < line <= end_of(ls, s))),
        !(s < line <= end_of(ls, s)) ==> f.open(s).visible(line, ls) == f.visible(line, ls),
        f.shut(s).open(s).visible(line, ls) == f.open(s).visible(line, ls),
        f.visible(line, ls) ==> f.open(s).visible(line, ls),
{
    let g = f.shut(s);
    let h = f.open(s);
    assert forall|x: int| #[trigger] g.hides(x, line, ls) == (f.hides(x, line, ls) || (x == s && s
        < line <= end_of(ls, s))) by {
    }
    assert forall|x: int| #[trigger] h.hides(x, line, ls) == (f.hides(x, line, ls) && x != s) by {
    }
    assert(g.open(s).closed =~= h.closed);
    if s < line <= end_of(ls, s) {
        assert(g.hides(s, line, ls));
    } else {
        assert(!f.hides(s, line, ls));
        if f.visible(line, ls) {
            assert forall|x: int| !#[trigger] g.hides(x, line, ls) by {
                assert(!f.hides(x, line, ls));
            }
        } else if g.visible(line, ls) {
            assert forall|x: int| !#[trigger] f.hides(x, line, ls) by {
                assert(!g.hides(x, line, ls));
            }
        }
        if h.visible(line, ls) {
            assert forall|x: int| !#[trigger] f.hides(x, line, ls) by {
                assert(!h.hides(x, line, ls));
                assert(h.hides(x, line, ls) == (f.hides(x, line, ls) && x != s));
                assert(!f.hides(s, line, ls));
            }
            assert(h.explicit == f.explicit);
            assert forall|i: int| 0 <= i < f.explicit.len() implies !((#[trigger] f.explicit[i]).0
                < line <= f.explicit[i].1) by {
                assert(h.explicit[i] == f.explicit[i]);
            }
            assert(f.visible(line, ls));
        }
    }
    if f.visible(line, ls) {
        assert forall|x: int| !#[trigger] h.hides(x, line, ls) by {
            assert(!f.hides(x, line, ls));
        }
    }
}

/// Toggling the whole tree at the head of an open fold closes that fold and
/// every fold inside it, at a closed one it opens them; the folds outside it
/// stay.
pub proof fn law_tree_toggled(f: FoldsV, line: int, ls: Seq<Seq<char>>, s: int)
    requires
        foldable(ls, line),
    ensures
        ({
            let g = f.toggle_tree(line, ls);
            &&& !(line <= s <= end_of(ls, line)) ==> g.closed.contains(s) == f.closed.contains(s)
            &&& f.closed.contains(line) && line <= s <= end_of(ls, line) ==> !g.closed.contains(s)
            &&& !f.closed.contains(line) && line <= s <= end_of(ls, line) && foldable(ls, s)
                ==> g.closed.contains(s)
            &&& g.explicit == f.explicit
        }),
{
}

} // verus!
