//! Whole lines moved about, numbers counted up and down, and the indentation
//! keys of Insert mode.

use vstd::prelude::*;
use vstd::string::*;
use crate::chars;
use crate::chars::{ascii_alnum, ascii_digit};
use crate::cols;
use crate::cols::char_at_display_col;
use crate::dates;
use crate::dates::iso_date_match;
use crate::editor::cursor;
use crate::editor::edits;
use crate::editor::state;
use crate::editor::state::{Editor, EdV, LastChange, LastChangeV};
use crate::fold;
use crate::fold::{fold_end, FoldsV};
use crate::layout;
use crate::lines;
use crate::strs;
use crate::strs::{cat3, dec_signed, digits_value, join, one, pad_zeros};
use crate::text;
use crate::text::{byte_len, chars_of, index_at, offset_of, piece};

verus! {

// ── Moving lines ────────────────────────────────────────────────────────

impl EdV {
    /// Last line of the unit that starts at `k`: a closed fold moves as one.
    pub open spec fn unit_end(self, k: int) -> int {
        if k < self.line_count() && self.folds.closed.contains(k) {
            state::min(fold::end_of(self.all_lines(), k), self.last_line())
        } else {
            k
        }
    }

    /// Outermost closed fold from `h` on that hides line `k`.
    pub open spec fn hidden_under(self, k: int, h: int) -> Option<int>
        decreases k - h,
    {
        if h >= k {
            None
        } else if self.folds.closed.contains(h) && fold::end_of(self.all_lines(), h) >= k {
            Some(h)
        } else {
            self.hidden_under(k, h + 1)
        }
    }

    /// First line of the unit that `k` belongs to: the head of the closed fold
    /// that hides it, or the line itself.
    pub open spec fn unit_start(self, k: int) -> int {
        if k >= self.line_count() || self.folds.closed.contains(k) {
            k
        } else {
            match self.hidden_under(k, 0) {
                Some(h) => h,
                None => k,
            }
        }
    }

    /// Texts of the lines `lo..=hi`.
    pub open spec fn lines_between(self, lo: int, hi: int) -> Seq<Seq<char>> {
        Seq::new(
            (if hi >= lo {
                hi - lo + 1
            } else {
                0
            }) as nat,
            |i: int| self.line_text(lo + i),
        )
    }

    /// The lines `a1..=a2` and the lines `b1..=b2` right after them change
    /// places; the cursor and the folds go with their lines.
    pub open spec fn swap(self, a1: int, a2: int, b1: int, b2: int) -> EdV {
        let a = self.lines_start(a1);
        let b = self.lines_end(b2);
        let span = self.taken(a, b);
        let r = strs::joined(self.lines_between(b1, b2), "\n"@) + "\n"@ + strs::joined(
            self.lines_between(a1, a2),
            "\n"@,
        ) + if span.len() > 0 && span.last() == '\n' {
            "\n"@
        } else {
            ""@
        };
        let k = if a1 <= self.line <= a2 {
            self.line + (b2 - b1 + 1)
        } else {
            state::minus(self.line, b1 - a1)
        };
        if b2 >= self.line_count() {
            self
        } else {
            let s = self.open_undo().edit(a, b, r).close_undo();
            EdV {
                line: state::min(k, s.last_line()),
                folds: s.folds.exchanged(a1, a2, b2),
                ..s
            }.clamp()
        }
    }

    #[verifier::opaque]
    pub open spec fn line_up(self) -> EdV {
        if self.line == 0 || self.line >= self.line_count() {
            self
        } else {
            self.swap(
                self.unit_start(self.line - 1),
                self.line - 1,
                self.line,
                self.unit_end(self.line),
            )
        }
    }

    #[verifier::opaque]
    pub open spec fn line_down(self) -> EdV {
        let end = self.unit_end(self.line);
        if end + 1 >= self.line_count() {
            self
        } else {
            self.swap(self.line, end, end + 1, self.unit_end(end + 1))
        }
    }

    pub open spec fn line_up_times(self, n: int) -> EdV
        decreases n,
    {
        if n <= 0 {
            self
        } else {
            self.line_up().line_up_times(n - 1)
        }
    }

    pub open spec fn line_down_times(self, n: int) -> EdV
        decreases n,
    {
        if n <= 0 {
            self
        } else {
            self.line_down().line_down_times(n - 1)
        }
    }
}

/// The text with line `k` and the one after it exchanged.
pub open spec fn exchanged(t: Seq<char>, k: int) -> Seq<char> {
    let p = lines::line_start(t, k);
    let e = lines::line_start(t, k + 2);
    t.take(p) + lines::line_text(t, k + 1) + seq!['\n'] + lines::line_text(t, k) + (if e > p
        && t[e - 1] == '\n' {
        seq!['\n']
    } else {
        Seq::empty()
    }) + t.skip(e)
}

/// Lines `k` and `k + 1` end in line feeds, or the second is the last one and
/// neither is empty; and no lone carriage return stands before them.
pub open spec fn paired(t: Seq<char>, k: int) -> bool {
    let p = lines::line_start(t, k);
    let q = lines::line_start(t, k + 1);
    let e = lines::line_start(t, k + 2);
    &&& 0 <= k
    &&& k + 1 < lines::line_count(t)
    &&& t[q - 1] == '\n'
    &&& p > 0 ==> t[p - 1] != '\r'
    &&& (q < e && t[e - 1] == '\n') || (k + 2 == lines::line_count(t) && q < e && p + 1 < q)
}

proof fn lemma_start_is(w: Seq<char>, k: int, p: int)
    requires
        0 <= p <= w.len(),
        lines::breaks(w, p) == k,
        p == 0 || lines::is_break(w, p - 1),
    ensures
        lines::line_start(w, k) == p,
        k < lines::line_count(w),
{
    lines::lemma_breaks_mono(w, 0, p);
    lines::lemma_breaks_mono(w, p, w.len() as int);
    lines::lemma_line_start(w, k);
    let q = lines::line_start(w, k);
    if q < p {
        lines::lemma_breaks_mono(w, q, p - 1);
    }
}

proof fn lemma_start_breaks(t: Seq<char>, k: int)
    requires
        0 < k < lines::line_count(t),
    ensures
        0 < lines::line_start(t, k),
        lines::is_break(t, lines::line_start(t, k) - 1),
{
    lines::lemma_line_start(t, k);
    let p = lines::line_start(t, k);
    assert(lines::breaks(t, p - 1) < k);
}

/// No line breaks within a line.
proof fn lemma_unbroken(t: Seq<char>, k: int, j: int)
    requires
        0 <= k < lines::line_count(t),
        lines::line_start(t, k) <= j,
        j + 1 < lines::line_start(t, k + 1) || (k + 1 == lines::line_count(t) && j < t.len()),
    ensures
        !lines::is_break(t, j),
{
    lines::lemma_line_start(t, k);
    lines::lemma_line_start(t, k + 1);
    lines::lemma_breaks_mono(t, lines::line_start(t, k), j);
    if k + 1 == lines::line_count(t) {
        lines::lemma_breaks_mono(t, j + 1, t.len() as int);
    } else {
        assert(lines::breaks(t, j + 1) < k + 1);
    }
}

proof fn lemma_same_breaks(t: Seq<char>, u: Seq<char>, i: int)
    requires
        0 <= i,
        forall|j: int| 0 <= j < i ==> #[trigger] lines::is_break(t, j) == lines::is_break(u, j),
    ensures
        lines::breaks(t, i) == lines::breaks(u, i),
    decreases i,
{
    if i > 0 {
        lemma_same_breaks(t, u, i - 1);
        assert(lines::is_break(t, i - 1) == lines::is_break(u, i - 1));
    }
}

proof fn lemma_no_breaks(u: Seq<char>, i: int, j: int)
    requires
        0 <= i <= j,
        forall|m: int| i <= m < j ==> !#[trigger] lines::is_break(u, m),
    ensures
        lines::breaks(u, j) == lines::breaks(u, i),
    decreases j - i,
{
    if i < j {
        lemma_no_breaks(u, i, j - 1);
        assert(!lines::is_break(u, j - 1));
    }
}

/// Where the lines stand and what they hold.
proof fn lemma_pair(t: Seq<char>, k: int)
    requires
        paired(t, k),
    ensures
        ({
            let p = lines::line_start(t, k);
            let q = lines::line_start(t, k + 1);
            let e = lines::line_start(t, k + 2);
            let n = if t[e - 1] == '\n' {
                e - 1
            } else {
                e
            };
            &&& 0 <= p < q < e <= t.len()
            &&& lines::line_text(t, k) == t.subrange(p, q - 1)
            &&& lines::line_text(t, k + 1) == t.subrange(q, n)
            &&& forall|j: int| p <= j < q - 1 ==> !#[trigger] lines::is_break(t, j)
            &&& forall|j: int| q <= j < n ==> !#[trigger] lines::is_break(t, j)
            &&& t[e - 1] != '\n' ==> e == t.len() && p + 1 < q
        }),
{
    let p = lines::line_start(t, k);
    let q = lines::line_start(t, k + 1);
    let e = lines::line_start(t, k + 2);
    lines::lemma_line_raw(t, k);
    lines::lemma_line_raw(t, k + 1);
    lines::lemma_line_start(t, k);
    lines::lemma_line_start(t, k + 1);
    lines::lemma_line_start(t, k + 2);
    lines::lemma_line_start_mono(t, k, k + 1);
    let ra = lines::line_raw(t, k);
    assert(ra.last() == '\n');
    assert(lines::line_text(t, k) =~= t.subrange(p, q - 1));
    let rb = lines::line_raw(t, k + 1);
    assert(rb.last() == t[e - 1]);
    let n = if t[e - 1] == '\n' {
        e - 1
    } else {
        e
    };
    assert(lines::line_text(t, k + 1) =~= t.subrange(q, n));
    assert forall|j: int| p <= j < q - 1 implies !#[trigger] lines::is_break(t, j) by {
        lemma_unbroken(t, k, j);
    }
    assert forall|j: int| q <= j < n implies !#[trigger] lines::is_break(t, j) by {
        lemma_unbroken(t, k + 1, j);
    }
}

/// What the text holds after the exchange of two lines.
proof fn lemma_layout(t: Seq<char>, k: int)
    requires
        paired(t, k),
    ensures
        ({
            let u = exchanged(t, k);
            let p = lines::line_start(t, k);
            let e = lines::line_start(t, k + 2);
            let a = lines::line_text(t, k);
            let b = lines::line_text(t, k + 1);
            let m = p + b.len() + 1;
            let lf = t[e - 1] == '\n';
            &&& u.len() == t.len()
            &&& forall|j: int| 0 <= j < p ==> u[j] == t[j]
            &&& u.subrange(p, m - 1) == b
            &&& u[m - 1] == '\n'
            &&& u.subrange(m, m + a.len()) == a
            &&& lf ==> m + a.len() == e - 1 && u[e - 1] == '\n'
            &&& !lf ==> m + a.len() == e
            &&& forall|j: int| e <= j < t.len() ==> u[j] == t[j]
        }),
{
    lemma_pair(t, k);
    let u = exchanged(t, k);
    let p = lines::line_start(t, k);
    let a = lines::line_text(t, k);
    let b = lines::line_text(t, k + 1);
    let m = p + b.len() + 1;
    assert(u.subrange(p, m - 1) =~= b);
    assert(u.subrange(m, m + a.len()) =~= a);
}

/// What the lines hold after their exchange.
proof fn lemma_moved_lines(t: Seq<char>, k: int)
    requires
        paired(t, k),
    ensures
        lines::line_text(exchanged(t, k), k) == lines::line_text(t, k + 1),
        lines::line_text(exchanged(t, k), k + 1) == lines::line_text(t, k),
{
    let p = lines::line_start(t, k);
    let q = lines::line_start(t, k + 1);
    let e = lines::line_start(t, k + 2);
    let a = lines::line_text(t, k);
    let b = lines::line_text(t, k + 1);
    let u = exchanged(t, k);
    let m = p + b.len() + 1;
    lemma_pair(t, k);
    lemma_layout(t, k);
    lemma_moved_starts(t, k);
    let ra = lines::line_raw(u, k);
    assert(ra == u.subrange(p, m));
    assert(ra.last() == '\n');
    assert(ra.drop_last() =~= u.subrange(p, m - 1));
    let rb = lines::line_raw(u, k + 1);
    assert(rb == u.subrange(m, e));
    if t[e - 1] == '\n' {
        assert(rb.last() == '\n');
        assert(rb.drop_last() =~= u.subrange(m, m + a.len()));
    } else {
        assert(a.last() == t[q - 2]);
        assert(!lines::is_break(t, q - 2));
        assert(rb == a);
    }
}

/// The text is what stands before the lines, the lines, and what follows.
proof fn lemma_parts(t: Seq<char>, k: int)
    requires
        paired(t, k),
    ensures
        ({
            let e = lines::line_start(t, k + 2);
            t == t.take(lines::line_start(t, k)) + lines::line_text(t, k) + seq!['\n']
                + lines::line_text(t, k + 1) + (if t[e - 1] == '\n' {
                seq!['\n']
            } else {
                Seq::empty()
            }) + t.skip(e)
        }),
{
    lemma_pair(t, k);
    let p = lines::line_start(t, k);
    let e = lines::line_start(t, k + 2);
    let w = t.take(p) + lines::line_text(t, k) + seq!['\n'] + lines::line_text(t, k + 1) + (if t[e
        - 1] == '\n' {
        seq!['\n']
    } else {
        Seq::empty()
    }) + t.skip(e);
    assert(t =~= w);
}

/// To exchange two lines twice gives the text back.
proof fn lemma_exchanged(t: Seq<char>, k: int)
    requires
        paired(t, k),
    ensures
        k + 1 < lines::line_count(exchanged(t, k)),
        exchanged(exchanged(t, k), k) == t,
{
    let p = lines::line_start(t, k);
    let q = lines::line_start(t, k + 1);
    let e = lines::line_start(t, k + 2);
    let a = lines::line_text(t, k);
    let u = exchanged(t, k);
    lemma_pair(t, k);
    lemma_layout(t, k);
    lemma_moved_starts(t, k);
    lemma_moved_lines(t, k);
    lemma_parts(t, k);
    assert(u.take(p) =~= t.take(p));
    assert(u.skip(e) =~= t.skip(e));
    assert((u[e - 1] == '\n') == (t[e - 1] == '\n')) by {
        if t[e - 1] != '\n' {
            let m = p + lines::line_text(t, k + 1).len() + 1;
            assert(u.subrange(m, m + a.len()).last() == u[e - 1]);
            assert(a.last() == t[q - 2]);
            assert(!lines::is_break(t, q - 2));
        }
    }
}

/// Where the lines start after their exchange.
proof fn lemma_moved_starts(t: Seq<char>, k: int)
    requires
        paired(t, k),
    ensures
        ({
            let u = exchanged(t, k);
            let p = lines::line_start(t, k);
            let m = p + lines::line_text(t, k + 1).len() + 1;
            &&& k + 1 < lines::line_count(u)
            &&& lines::line_start(u, k) == p
            &&& lines::line_start(u, k + 1) == m
            &&& lines::line_start(u, k + 2) == lines::line_start(t, k + 2)
        }),
{
    let u = exchanged(t, k);
    let p = lines::line_start(t, k);
    let q = lines::line_start(t, k + 1);
    let e = lines::line_start(t, k + 2);
    let x = lines::line_text(t, k).len() as int;
    let y = lines::line_text(t, k + 1).len() as int;
    let m = p + y + 1;
    lemma_pair(t, k);
    lemma_layout(t, k);
    lemma_before(t, u, p, k);
    lemma_middle(t, u, q, p, y);
    lemma_no_breaks(u, p, p + y);
    assert(lines::is_break(u, m - 1));
    lemma_start_is(u, k, p);
    lemma_start_is(u, k + 1, m);
    if t[e - 1] == '\n' {
        lemma_middle(t, u, p, m, x);
        lemma_no_breaks(u, m, e - 1);
        assert(lines::is_break(u, e - 1));
        lemma_start_is(u, k + 2, e);
    } else {
        lemma_inner(t, u, p, m, x);
        lemma_no_breaks(u, m, e - 1);
        if lines::is_break(u, e - 1) {
            lemma_start_is(u, k + 2, e);
        } else {
            lines::lemma_line_start(u, k + 2);
        }
    }
}

/// What stands before the lines breaks as before.
proof fn lemma_before(t: Seq<char>, u: Seq<char>, p: int, k: int)
    requires
        0 <= p <= t.len(),
        p <= u.len(),
        0 <= k < lines::line_count(t),
        p == lines::line_start(t, k),
        p > 0 ==> t[p - 1] != '\r',
        forall|j: int| 0 <= j < p ==> u[j] == t[j],
    ensures
        lines::breaks(u, p) == k,
        p == 0 || lines::is_break(u, p - 1),
{
    assert forall|j: int| 0 <= j < p implies #[trigger] lines::is_break(t, j) == lines::is_break(
        u,
        j,
    ) by {
        assert(u[j] == t[j]);
        if j + 1 < p {
            assert(u[j + 1] == t[j + 1]);
        }
    }
    lemma_same_breaks(t, u, p);
    lines::lemma_line_start(t, k);
    if p > 0 {
        lemma_start_breaks(t, k);
    }
}

/// A line that moves from `from` to `to` and is followed by a line feed there
/// has no line breaks there.
proof fn lemma_middle(t: Seq<char>, u: Seq<char>, from: int, to: int, n: int)
    requires
        0 <= from,
        0 <= to,
        0 <= n,
        from + n <= t.len(),
        to + n < u.len(),
        u[to + n] == '\n',
        u.subrange(to, to + n) == t.subrange(from, from + n),
        forall|j: int| from <= j < from + n ==> !#[trigger] lines::is_break(t, j),
    ensures
        forall|m: int| to <= m < to + n ==> !#[trigger] lines::is_break(u, m),
{
    assert forall|m: int| to <= m < to + n implies !#[trigger] lines::is_break(u, m) by {
        let j = m - to;
        assert(u.subrange(to, to + n)[j] == u[m]);
        assert(t.subrange(from, from + n)[j] == t[from + j]);
        assert(u[m] == t[from + j]);
        assert(!lines::is_break(t, from + j));
        if j + 1 < n {
            assert(u.subrange(to, to + n)[j + 1] == u[m + 1]);
            assert(t.subrange(from, from + n)[j + 1] == t[from + j + 1]);
            assert(u[m + 1] == t[from + j + 1]);
        }
    }
}

/// The same but for the last character.
proof fn lemma_inner(t: Seq<char>, u: Seq<char>, from: int, to: int, n: int)
    requires
        0 <= from,
        0 <= to,
        0 <= n,
        from + n <= t.len(),
        to + n <= u.len(),
        u.subrange(to, to + n) == t.subrange(from, from + n),
        forall|j: int| from <= j < from + n ==> !#[trigger] lines::is_break(t, j),
    ensures
        forall|m: int| to <= m < to + n - 1 ==> !#[trigger] lines::is_break(u, m),
{
    assert forall|m: int| to <= m < to + n - 1 implies !#[trigger] lines::is_break(u, m) by {
        let j = m - to;
        assert(u.subrange(to, to + n)[j] == u[m]);
        assert(t.subrange(from, from + n)[j] == t[from + j]);
        assert(u.subrange(to, to + n)[j + 1] == u[m + 1]);
        assert(t.subrange(from, from + n)[j + 1] == t[from + j + 1]);
        assert(u[m] == t[from + j] && u[m + 1] == t[from + j + 1]);
        assert(!lines::is_break(t, from + j));
    }
}

proof fn lemma_swapped(s: EdV, k: int)
    requires
        0 <= k,
        k + 1 < s.line_count(),
    ensures
        s.swap(k, k, k + 1, k + 1).buf.text == exchanged(s.buf.text, k),
        s.folds.closed == Set::<int>::empty() ==> s.swap(k, k, k + 1, k + 1).folds.closed
            == Set::<int>::empty(),
{
    reveal(FoldsV::follow);
    let t = s.buf.text;
    let p = lines::line_start(t, k);
    let e = lines::line_start(t, k + 2);
    lines::lemma_line_raw(t, k);
    lines::lemma_line_raw(t, k + 1);
    text::lemma_at_off(t, p);
    text::lemma_at_off(t, e);
    text::lemma_off_mono(t, 0, p);
    text::lemma_off_mono(t, p, e);
    let a = s.lines_start(k);
    let b = s.lines_end(k + 1);
    assert(state::legal(t, a) == a && state::legal(t, b) == b);
    assert(s.taken(a, b) =~= t.subrange(p, e));
    assert(strs::joined(s.lines_between(k, k), "\n"@) == s.line_text(k));
    assert(strs::joined(s.lines_between(k + 1, k + 1), "\n"@) == s.line_text(k + 1));
    reveal_strlit("\n");
    reveal_strlit("");
    assert("\n"@ =~= seq!['\n']);
    assert(""@ =~= Seq::empty());
    let r = s.line_text(k + 1) + "\n"@ + s.line_text(k) + (if e > p && t[e - 1] == '\n' {
        "\n"@
    } else {
        ""@
    });
    assert(t.take(p) + r + t.skip(e) =~= exchanged(t, k));
    assert(s.folds.closed == Set::<int>::empty() ==> s.swap(k, k, k + 1, k + 1).folds.closed
        =~= Set::<int>::empty());
}

proof fn lemma_none_closed(s: EdV, k: int, h: int)
    requires
        s.folds.closed == Set::<int>::empty(),
    ensures
        s.hidden_under(k, h) is None,
    decreases k - h,
{
    if h < k {
        lemma_none_closed(s, k, h + 1);
    }
}

/// A line that is moved down takes the cursor along, and to move it up again
/// gives the text back. Where the last line is empty, or other line breaks
/// than line feeds stand around the lines, the exchange alters the breaks.
pub proof fn law_line_down_and_up(s: EdV)
    requires
        paired(s.buf.text, s.line),
        s.folds.closed == Set::<int>::empty(),
    ensures
        ({
            let d = s.line_down();
            &&& d.line == s.line + 1
            &&& d.line_text(d.line) == s.line_text(s.line)
            &&& d.line_text(s.line) == s.line_text(s.line + 1)
            &&& d.line_up().buf.text == s.buf.text
            &&& d.line_up().line == s.line
        }),
{
    reveal(EdV::line_down);
    reveal(EdV::line_up);
    let k = s.line;
    lemma_swapped(s, k);
    lemma_exchanged(s.buf.text, k);
    lemma_moved_lines(s.buf.text, k);
    let d = s.line_down();
    lemma_none_closed(d, k, 0);
    lemma_swapped(d, k);
}

impl Editor {
    fn unit_end(&self, k: usize) -> (r: usize)
        ensures
            r == self@.unit_end(k as int),
            r >= k,
            k < self@.line_count() ==> r < self@.line_count(),
    {
        let n: usize = self.buf.line_count();
        if k < n && self.folds.is_closed(k) {
            let all: Vec<String> = self.all_lines();
            let e: usize = fold_end(k, &all);
            if e <= n - 1 {
                e
            } else {
                n - 1
            }
        } else {
            k
        }
    }

    fn unit_start(&self, k: usize) -> (r: usize)
        ensures
            r == self@.unit_start(k as int),
            r <= k,
    {
        if k >= self.buf.line_count() || self.folds.is_closed(k) {
            return k;
        }
        let all: Vec<String> = self.all_lines();
        let mut h: usize = 0;
        while h < k
            invariant
                h <= k,
                fold::views(all@) == self@.all_lines(),
                self@.hidden_under(k as int, 0) == self@.hidden_under(k as int, h as int),
                k < self@.line_count(),
                !self@.folds.closed.contains(k as int),
            decreases k - h,
        {
            if self.folds.is_closed(h) && fold_end(h, &all) >= k {
                return h;
            }
            h += 1;
        }
        k
    }

    /// The lines `lo..=hi` with line feeds between them.
    pub(crate) fn joined_lines(&self, lo: usize, hi: usize) -> (s: String)
        requires
            lo <= hi < usize::MAX,
        ensures
            s@ == strs::joined(self@.lines_between(lo as int, hi as int), "\n"@),
    {
        let mut v: Vec<String> = Vec::new();
        let mut i: usize = lo;
        while i <= hi
            invariant
                lo <= i <= hi + 1,
                hi < usize::MAX,
                v@.len() == i - lo,
                forall|k: int| 0 <= k < v@.len() ==> (#[trigger] v@[k])@ == self@.line_text(lo + k),
            decreases hi + 1 - i,
        {
            v.push(self.buf.line(i));
            i += 1;
        }
        assert(fold::views(v@) =~= self@.lines_between(lo as int, hi as int));
        join(&v, "\n")
    }

    /// Swaps two runs of lines that follow each other.
    pub fn swap_blocks(&mut self, a_start: usize, a_end: usize, b_start: usize, b_end: usize)
        requires
            old(self).wf(),
            a_start <= a_end,
            a_end + 1 == b_start,
            b_start <= b_end,
        ensures
            final(self)@ == old(self)@.swap(
                a_start as int,
                a_end as int,
                b_start as int,
                b_end as int,
            ),
            final(self).wf(),
    {
        let n: usize = self.buf.line_count();
        if b_end >= n {
            return;
        }
        let start: usize = self.buf.line_byte_offset(a_start);
        let end: usize = self.buf.line_byte_offset(b_end + 1);
        let span: Vec<char> = chars_of(&self.taken(start, end));
        let lf: bool = span.len() > 0 && span[span.len() - 1] == '\n';
        let upper: String = self.joined_lines(a_start, a_end);
        let lower: String = self.joined_lines(b_start, b_end);
        let both: String = cat3(&lower, "\n", &upper);
        let r: String = strs::cat2(
            &both,
            if lf {
                "\n"
            } else {
                ""
            },
        );
        let k: usize = if a_start <= self.cur_line && self.cur_line <= a_end {
            self.cur_line + (b_end - b_start + 1)
        } else if self.cur_line >= b_start - a_start {
            self.cur_line - (b_start - a_start)
        } else {
            0
        };
        self.open_undo();
        self.edit(start, end, &r);
        self.close_undo();
        self.folds.exchange(a_start, a_end, b_end);
        let last: usize = self.buf.line_count() - 1;
        self.cur_line = if k <= last {
            k
        } else {
            last
        };
        self.clamp_col_to_line();
    }

    /// Swaps the cursor's line, or closed fold, with what is above it.
    pub fn move_line_up(&mut self)
        requires
            old(self).wf(),
        ensures
            final(self)@ == old(self)@.line_up(),
            final(self).wf(),
    {
        proof {
            reveal(EdV::line_up);
        }
        let n: usize = self.buf.line_count();
        if self.cur_line == 0 || self.cur_line >= n {
            return;
        }
        let k: usize = self.cur_line;
        let end: usize = self.unit_end(k);
        let start: usize = self.unit_start(k - 1);
        self.swap_blocks(start, k - 1, k, end);
    }

    /// Swaps the cursor's line, or closed fold, with what is below it.
    pub fn move_line_down(&mut self)
        requires
            old(self).wf(),
        ensures
            final(self)@ == old(self)@.line_down(),
            final(self).wf(),
    {
        proof {
            reveal(EdV::line_down);
        }
        let n: usize = self.buf.line_count();
        let k: usize = self.cur_line;
        let end: usize = self.unit_end(k);
        if end >= n || end + 1 >= n {
            return;
        }
        let below: usize = self.unit_end(end + 1);
        self.swap_blocks(k, end, end + 1, below);
    }

    pub(crate) fn move_lines(&mut self, up: bool, count: usize)
        requires
            old(self).wf(),
        ensures
            final(self)@ == (if up {
                old(self)@.line_up_times(count as int)
            } else {
                old(self)@.line_down_times(count as int)
            }),
            final(self).wf(),
    {
        let ghost s0 = self@;
        let mut k: usize = 0;
        while k < count
            invariant
                k <= count,
                self.wf(),
                up ==> s0.line_up_times(count as int) == self@.line_up_times(count - k),
                !up ==> s0.line_down_times(count as int) == self@.line_down_times(count - k),
            decreases count - k,
        {
            if up {
                self.move_line_up();
            } else {
                self.move_line_down();
            }
            k += 1;
        }
    }
}

// ── Numbers and dates ───────────────────────────────────────────────────

/// The first date found when the byte columns `cur`, `cur - 1` and so on down
/// to `cur - back` are tried.
pub open spec fn date_back(l: Seq<char>, cur: int, delta: int, k: int, back: int) -> Option<
    (int, Seq<char>),
>
    decreases back - k + 1,
{
    if k > back {
        None
    } else {
        match dates::moved_date(l, cur - k, delta) {
            Some(s) => Some((cur - k, s)),
            None => date_back(l, cur, delta, k + 1, back),
        }
    }
}

/// The first date found at byte column `c` or later.
pub open spec fn date_fwd(l: Seq<char>, c: int, delta: int) -> Option<(int, Seq<char>)>
    decreases text::blen(l) - c,
{
    if c + 10 > text::blen(l) {
        None
    } else {
        match dates::moved_date(l, c, delta) {
            Some(s) => Some((c, s)),
            None => date_fwd(l, c + 1, delta),
        }
    }
}

/// The date at the cursor, or else after it, moved by `delta` days. A date
/// after the cursor counts when no other number comes before it.
pub open spec fn date_near(l: Seq<char>, cur: int, delta: int) -> Option<(int, Seq<char>)> {
    match date_back(l, cur, delta, 0, state::min(cur, 9)) {
        Some(h) => Some(h),
        None => match date_fwd(l, cur + 1, delta) {
            Some(h) if h.0 == text::off(l, first_digits(l, text::at(l, cur))) => Some(h),
            _ => None,
        },
    }
}

pub open spec fn digit_fn() -> spec_fn(char) -> bool {
    |c: char| chars::is_digit(c)
}

/// A number starts at index `i`: a digit, or a minus sign before a digit that
/// is not part of a word.
pub open spec fn number_starts(l: Seq<char>, i: int) -> bool {
    chars::is_digit(l[i]) || (l[i] == '-' && i + 1 < l.len() && chars::is_digit(l[i + 1]) && (i == 0
        || !chars::is_ascii_alnum(l[i - 1])))
}

/// First index at or after `i` at which a number starts.
pub open spec fn number_from(l: Seq<char>, i: int) -> int
    decreases l.len() - i,
{
    if i < 0 || i >= l.len() || number_starts(l, i) {
        i
    } else {
        number_from(l, i + 1)
    }
}

/// Start of the number whose digits start at index `i`: the minus sign before
/// them is part of it, unless it ends a word.
pub open spec fn sign_start(l: Seq<char>, i: int) -> int {
    if 0 < i < l.len() && l[i - 1] == '-' && number_starts(l, i - 1) {
        i - 1
    } else {
        i
    }
}

/// Start of the number at index `i`, or else of the first one after it, with
/// its sign.
pub open spec fn first_number(l: Seq<char>, i: int) -> int {
    number_from(l, sign_start(l, text::skip_back(l, i, digit_fn())))
}

/// Where the digits of that number start.
pub open spec fn first_digits(l: Seq<char>, i: int) -> int {
    let s = first_number(l, i);
    if s < l.len() && l[s] == '-' {
        s + 1
    } else {
        s
    }
}

pub open spec fn sat64(n: int) -> int {
    if n > i64::MAX {
        i64::MAX as int
    } else if n < i64::MIN {
        i64::MIN as int
    } else {
        n
    }
}

/// The number at index `i`, or else after it: where it starts and ends, and
/// what it becomes when `delta` is added. Leading zeros are kept.
pub open spec fn number_near(l: Seq<char>, i: int, delta: int) -> Option<(int, int, Seq<char>)> {
    let s = first_number(l, i);
    let neg = l[s] == '-';
    let d = if neg {
        s + 1
    } else {
        s
    };
    let e = text::skip_fwd(l, d, digit_fn());
    let ds = l.subrange(d, e);
    if s >= l.len() {
        None
    } else {
        match strs::number(ds, i64::MAX as int) {
            None => None,
            Some(n) => {
                let v = sat64(
                    (if neg {
                        -n
                    } else {
                        n
                    }) + delta,
                );
                let r = if !neg && ds[0] == '0' && v >= 0 {
                    strs::zero_padded(strs::dec_of(v), ds.len() as int)
                } else {
                    strs::int_of(v)
                };
                Some((s, e, r))
            },
        }
    }
}

pub open spec fn abs(n: int) -> int {
    if n < 0 {
        -n
    } else {
        n
    }
}

impl EdV {
    /// A piece of the line replaced, the cursor on the last character of what
    /// replaces it, and the step remembered for `.`.
    pub open spec fn counted(self, a: int, b: int, r: Seq<char>, delta: int) -> EdV {
        let o = lines::line_off(self.buf.text, self.line);
        let s = self.edit(o + a, o + b, r).place(
            self.line,
            a + state::minus(text::blen(r), 1),
        ).keep();
        EdV {
            last: Some(
                LastChangeV::SimpleAction {
                    key: if delta >= 0 {
                        "C-A"@
                    } else {
                        "C-X"@
                    },
                    count: cols::sat(abs(delta)),
                    register: None,
                },
            ),
            ..s
        }
    }

    /// Ctrl-A and Ctrl-X: adds to the date or number at the cursor, or to the
    /// first one after it on the line.
    #[verifier::opaque]
    pub open spec fn change_number(self, delta: int) -> EdV {
        let l = self.line_text(self.line);
        let cur = state::min(self.col, text::blen(l));
        match date_near(l, cur, delta) {
            Some((c, s)) => self.counted(c, c + 10, s, delta),
            None => match number_near(l, text::at(l, cur), delta) {
                Some((s, e, r)) => self.counted(text::off(l, s), text::off(l, e), r, delta),
                None => self,
            },
        }
    }
}

fn find_date(line: &str, cur: usize, delta: i64) -> (r: Option<(usize, String)>)
    requires
        cur <= text::blen(line@),
    ensures
        (match r {
            Some((c, s)) => Some((c as int, s@)),
            None => None,
        }) == date_near(line@, cur as int, delta as int),
        r matches Some((c, s)) ==> c + 10 <= text::blen(line@),
{
    let n: usize = byte_len(line);
    let back: usize = if cur < 9 {
        cur
    } else {
        9
    };
    let mut k: usize = 0;
    while k <= back
        invariant
            k <= back + 1,
            back <= cur <= n,
            back <= 9,
            n == text::blen(line@),
            back == state::min(cur as int, 9),
            date_back(line@, cur as int, delta as int, 0, back as int) == date_back(
                line@,
                cur as int,
                delta as int,
                k as int,
                back as int,
            ),
        decreases back + 1 - k,
    {
        if let Some(s) = iso_date_match(line, cur - k, delta) {
            proof {
                lemma_date_fits(line@, cur - k, delta as int);
            }
            return Some((cur - k, s));
        }
        k += 1;
    }
    let v: Vec<char> = chars_of(line);
    let first: usize = first_digit_col(&v, index_at(&v, cur));
    let mut c: usize = cur;
    while c < n && n - c > 10
        invariant
            cur <= c <= n,
            n == text::blen(line@),
            first == text::off(line@, first_digits(line@, text::at(line@, cur as int))),
            back == state::min(cur as int, 9),
            date_back(line@, cur as int, delta as int, 0, back as int) is None,
            date_fwd(line@, cur + 1, delta as int) == date_fwd(line@, c + 1, delta as int),
        decreases n - c,
    {
        c += 1;
        if let Some(s) = iso_date_match(line, c, delta) {
            return if c == first {
                Some((c, s))
            } else {
                None
            };
        }
    }
    None
}

/// Ten ASCII characters take ten bytes.
proof fn lemma_date_fits(l: Seq<char>, b: int, delta: int)
    requires
        dates::moved_date(l, b, delta) is Some,
    ensures
        b + 10 <= text::blen(l),
{
    let i = text::at(l, b);
    text::lemma_at(l, b);
    text::lemma_off_mono(l, i, i + 10);
    text::lemma_off_mono(l, i + 10, l.len() as int);
}

fn find_first(v: &Vec<char>, i: usize) -> (s: usize)
    requires
        i <= v.len(),
    ensures
        s == first_number(v@, i as int),
        s <= v.len(),
{
    let ghost l = v@;
    let mut a: usize = i;
    while a > 0 && ascii_digit(v[a - 1])
        invariant
            a <= i <= v.len(),
            l == v@,
            text::skip_back(l, i as int, digit_fn()) == text::skip_back(l, a as int, digit_fn()),
        decreases a,
    {
        a -= 1;
    }
    if 0 < a && a < v.len() && v[a - 1] == '-' && ascii_digit(v[a]) && (a == 1 || !ascii_alnum(
        v[a - 2],
    )) {
        a -= 1;
    }
    let mut s: usize = a;
    let mut hit: bool = false;
    while s < v.len() && !hit
        invariant
            a <= s <= v.len(),
            l == v@,
            !hit ==> number_from(l, a as int) == number_from(l, s as int),
            hit ==> number_from(l, a as int) == s && s < v.len(),
        decreases v.len() - s, (if hit { 0int } else { 1 }),
    {
        let c: char = v[s];
        if ascii_digit(c) || (c == '-' && s + 1 < v.len() && ascii_digit(v[s + 1]) && (s == 0
            || !ascii_alnum(v[s - 1]))) {
            hit = true;
        } else {
            s += 1;
        }
    }
    s
}

/// Byte column at which the digits of the first number start.
fn first_digit_col(v: &Vec<char>, i: usize) -> (c: usize)
    requires
        i <= v.len(),
        text::blen(v@) <= usize::MAX,
    ensures
        c == text::off(v@, first_digits(v@, i as int)),
{
    let s: usize = find_first(v, i);
    if s < v.len() && v[s] == '-' {
        offset_of(v, s + 1)
    } else {
        offset_of(v, s)
    }
}

fn find_number(v: &Vec<char>, i: usize, delta: i64) -> (r: Option<(usize, usize, String)>)
    requires
        i <= v.len(),
    ensures
        (match r {
            Some((s, e, t)) => Some((s as int, e as int, t@)),
            None => None,
        }) == number_near(v@, i as int, delta as int),
        r matches Some((s, e, t)) ==> s <= e <= v.len(),
{
    let ghost l = v@;
    let s: usize = find_first(v, i);
    if s >= v.len() {
        return None;
    }
    let neg: bool = v[s] == '-';
    let d: usize = if neg {
        s + 1
    } else {
        s
    };
    let mut e: usize = d;
    while e < v.len() && ascii_digit(v[e])
        invariant
            d <= e <= v.len(),
            l == v@,
            text::skip_fwd(l, d as int, digit_fn()) == text::skip_fwd(l, e as int, digit_fn()),
        decreases v.len() - e,
    {
        e += 1;
    }
    let ds: String = piece(v, d, e);
    let dv: Vec<char> = chars_of(&ds);
    assert(dv@.skip(0) =~= l.subrange(d as int, e as int));
    match digits_value(&dv, 0, i64::MAX as u64) {
        None => None,
        Some(n) => {
            let sum: i128 = (if neg {
                -(n as i128)
            } else {
                n as i128
            }) + delta as i128;
            let val: i128 = if sum > i64::MAX as i128 {
                i64::MAX as i128
            } else if sum < i64::MIN as i128 {
                i64::MIN as i128
            } else {
                sum
            };
            let t: String = if !neg && dv[0] == '0' && val >= 0 {
                pad_zeros(&strs::dec(val as u128), dv.len())
            } else {
                dec_signed(val)
            };
            Some((s, e, t))
        },
    }
}

impl Editor {
    fn counted(&mut self, a: usize, b: usize, r: &str, delta: i64)
        requires
            old(self).wf(),
            a <= b <= old(self)@.line_len(),
        ensures
            final(self)@ == old(self)@.counted(a as int, b as int, r@, delta as int),
            final(self).wf(),
    {
        let o: usize = self.buf.line_byte_offset(self.cur_line);
        let total: usize = self.buf.len_bytes();
        proof {
            lines::lemma_line_raw(self@.buf.text, self@.line);
            cursor::lemma_legal(self@.buf.text, o + a);
            cursor::lemma_legal(self@.buf.text, o + b);
            cursor::lemma_legal_mono(self@.buf.text, o + a, o + b);
            let lo = state::legal(self@.buf.text, o + a);
            let hi = state::max(lo, state::legal(self@.buf.text, o + b));
            crate::buffer::lemma_apply_wf(self@.buf, lo, hi, r@);
        }
        self.edit(o + a, o + b, r);
        let now: usize = self.buf.len_bytes();
        let n: usize = byte_len(r);
        let c: usize = if n > 0 {
            n - 1
        } else {
            0
        };
        let ghost mid = self@;
        let col: usize = a.saturating_add(c);
        proof {
            // The text would be too long to hold such a column.
            if a + c > usize::MAX {
                let lo = state::legal(old(self)@.buf.text, o + a);
                assert(mid.buf.text == crate::buffer::splice(
                    old(self)@.buf.text,
                    lo,
                    state::max(lo, state::legal(old(self)@.buf.text, o + b)),
                    r@,
                ));
                let st = lines::line_off(mid.buf.text, self@.line);
                cursor::lemma_line_off(mid.buf.text, self@.line);
                assert(st + a + c > now);
                assert(st + usize::MAX > now || st == 0);
            }
        }
        self.place(self.cur_line, col);
        self.keep();
        self.last_change = Some(
            LastChange::SimpleAction {
                key: if delta >= 0 {
                    "C-A".to_owned()
                } else {
                    "C-X".to_owned()
                },
                count: magnitude(delta),
                register: None,
            },
        );
    }

    /// Adds to the date or number at the cursor or after it.
    pub fn change_number(&mut self, delta: i64)
        requires
            old(self).wf(),
        ensures
            final(self)@ == old(self)@.change_number(delta as int),
            final(self).wf(),
    {
        proof {
            reveal(EdV::change_number);
        }
        let line: String = self.buf.line(self.cur_line);
        let n: usize = byte_len(&line);
        let cur: usize = if self.cur_col <= n {
            self.cur_col
        } else {
            n
        };
        if let Some((c, s)) = find_date(&line, cur, delta) {
            self.counted(c, c + 10, &s, delta);
            return;
        }
        let v: Vec<char> = chars_of(&line);
        let i: usize = index_at(&v, cur);
        if let Some((s, e, r)) = find_number(&v, i, delta) {
            proof {
                text::lemma_off_mono(line@, s as int, e as int);
                text::lemma_off_mono(line@, e as int, line@.len() as int);
                text::lemma_off_mono(line@, 0, s as int);
            }
            let a: usize = offset_of(&v, s);
            let b: usize = offset_of(&v, e);
            self.counted(a, b, &r, delta);
        }
    }
}

fn magnitude(delta: i64) -> (n: usize)
    ensures
        n == cols::sat(abs(delta as int)),
{
    let m: u128 = if delta < 0 {
        (-(delta as i128)) as u128
    } else {
        delta as u128
    };
    if m > usize::MAX as u128 {
        usize::MAX
    } else {
        m as usize
    }
}

// ── Insert-mode helpers ─────────────────────────────────────────────────

impl EdV {
    /// Typed text at the cursor, which goes on after it.
    #[verifier::opaque]
    pub open spec fn typed(self, s: Seq<char>) -> EdV {
        let c = self.cursor();
        self.edit(c, c, s).place(self.line, self.col + text::blen(s)).keep().capture(s)
    }

    /// Inserts what stands at the cursor's display column on the line above
    /// or below.
    #[verifier::opaque]
    pub open spec fn copy_char(self, below: bool) -> EdV {
        let k = if below {
            self.line + 1
        } else {
            self.line - 1
        };
        if k < 0 || k >= self.line_count() {
            self
        } else {
            match cols::glyph_at(
                self.line_text(k),
                self.cursor_column(),
                self.tabstop(),
                0,
            ) {
                None => self,
                Some(c) => self.typed(seq![c]),
            }
        }
    }

    /// A tab at the start of the line.
    #[verifier::opaque]
    pub open spec fn indent(self) -> EdV {
        let o = lines::line_off(self.buf.text, self.line);
        self.edit(o, o, "\t"@).place(self.line, state::plus(self.col, 1)).keep()
    }

    /// Number of leading characters that an outdent takes away: a tab, or
    /// blanks up to the tab stop.
    pub open spec fn outdent_width(self) -> int {
        let l = self.line_text(self.line);
        if l.len() > 0 && l[0] == '\t' {
            1
        } else {
            layout::min(self.tabstop(), text::skip_fwd(l, 0, layout::sp_fn()))
        }
    }

    #[verifier::opaque]
    pub open spec fn outdent(self) -> EdV {
        let n = self.outdent_width();
        let o = lines::line_off(self.buf.text, self.line);
        if n == 0 {
            self
        } else {
            self.edit(o, o + n, Seq::empty()).place(self.line, state::minus(self.col, n)).keep()
        }
    }
}

impl Editor {
    /// Inserts typed text at the cursor.
    pub fn type_text(&mut self, s: &str)
        requires
            old(self).wf(),
        ensures
            final(self)@ == old(self)@.typed(s@),
            final(self).wf(),
    {
        proof {
            reveal(EdV::typed);
        }
        let c: usize = self.cursor_byte();
        let ghost before = self@;
        self.edit(c, c, s);
        proof {
            cursor::lemma_legal(before.buf.text, c as int);
            crate::buffer::lemma_apply_wf(before.buf, c as int, c as int, s@);
        }
        let total: usize = self.buf.len_bytes();
        proof {
            cursor::lemma_line_off(before.buf.text, before.line);
        }
        self.place(self.cur_line, self.cur_col + byte_len(s));
        self.keep();
        self.capture(s);
    }

    /// Inserts the character at the same display column of the line above or
    /// below.
    pub fn copy_char_from(&mut self, below: bool)
        requires
            old(self).wf(),
        ensures
            final(self)@ == old(self)@.copy_char(below),
            final(self).wf(),
    {
        proof {
            reveal(EdV::copy_char);
        }
        let n: usize = self.buf.line_count();
        if (!below && self.cur_line == 0) || (below && self.cur_line >= n) {
            return;
        }
        let k: usize = if below {
            self.cur_line + 1
        } else {
            self.cur_line - 1
        };
        if k >= n {
            return;
        }
        let target: usize = self.cursor_column();
        let src: String = self.buf.line(k);
        if let Some(c) = char_at_display_col(&src, target, self.tabstop()) {
            self.type_text(&one(c));
        }
    }

    /// Ctrl-T: a tab at the start of the line.
    pub fn insert_indent(&mut self)
        requires
            old(self).wf(),
        ensures
            final(self)@ == old(self)@.indent(),
            final(self).wf(),
    {
        proof {
            reveal(EdV::indent);
        }
        let o: usize = self.buf.line_byte_offset(self.cur_line);
        self.edit(o, o, "\t");
        self.place(self.cur_line, self.cur_col.saturating_add(1));
        self.keep();
    }

    /// Ctrl-D: a tab, or blanks up to the tab stop, less at the start of the
    /// line.
    pub fn insert_outdent(&mut self)
        requires
            old(self).wf(),
        ensures
            final(self)@ == old(self)@.outdent(),
            final(self).wf(),
    {
        proof {
            reveal(EdV::outdent);
        }
        let v: Vec<char> = chars_of(&self.buf.line(self.cur_line));
        let n: usize = if v.len() > 0 && v[0] == '\t' {
            1
        } else {
            layout::leading_spaces(&v, self.tabstop())
        };
        if n == 0 {
            return;
        }
        let o: usize = self.buf.line_byte_offset(self.cur_line);
        let total: usize = self.buf.len_bytes();
        proof {
            lines::lemma_line_raw(self@.buf.text, self@.line);
            text::lemma_off_mono(v@, n as int, v@.len() as int);
            text::lemma_off_mono(v@, 0, n as int);
        }
        self.edit(o, o + n, &String::new());
        self.place(
            self.cur_line,
            if self.cur_col >= n {
                self.cur_col - n
            } else {
                0
            },
        );
        self.keep();
    }
}

// ── What counting does ──────────────────────────────────────────────────

proof fn lemma_number_from(l: Seq<char>, i: int)
    requires
        0 <= i <= l.len(),
    ensures
        i <= number_from(l, i) <= l.len(),
        number_from(l, i) < l.len() ==> number_starts(l, number_from(l, i)),
        forall|k: int| i <= k < number_from(l, i) ==> !#[trigger] number_starts(l, k),
    decreases l.len() - i,
{
    if i < l.len() && !number_starts(l, i) {
        lemma_number_from(l, i + 1);
    }
}

/// The number that is counted is the one at the cursor, or else the first one
/// after it: its digits `d..e` are a whole run, the cursor is on them or right
/// behind them, or none stand between them and the cursor, and the minus sign before them belongs to
/// it when no word ends there.
pub proof fn law_number_at(l: Seq<char>, i: int, delta: int)
    requires
        0 <= i <= l.len(),
    ensures
        match number_near(l, i, delta) {
            Some((s, e, r)) => {
                let neg = l[s] == '-';
                let d = if neg {
                    s + 1
                } else {
                    s
                };
                &&& 0 <= s <= d < e <= l.len()
                &&& forall|k: int| d <= k < e ==> chars::is_digit(#[trigger] l[k])
                &&& e < l.len() ==> !chars::is_digit(l[e])
                &&& d > 0 ==> !chars::is_digit(l[d - 1])
                &&& i <= e
                &&& forall|k: int| i <= k < d ==> !chars::is_digit(#[trigger] l[k])
                &&& neg && s > 0 ==> !chars::is_ascii_alnum(l[s - 1])
            },
            None => true,
        },
{
    let f = digit_fn();
    text::lemma_skip_back(l, i, f);
    let a = text::skip_back(l, i, f);
    let b = sign_start(l, a);
    lemma_number_from(l, b);
    let s = number_from(l, b);
    if s < l.len() {
        let neg = l[s] == '-';
        let d = if neg {
            s + 1
        } else {
            s
        };
        text::lemma_skip_fwd(l, d, f);
        let e = text::skip_fwd(l, d, f);
        assert(f(l[d]));
        text::lemma_skip_fwd(l, d + 1, f);
        assert forall|k: int| d <= k < e implies chars::is_digit(#[trigger] l[k]) by {
            assert(f(l[k]));
        }
        if e < l.len() {
            assert(!f(l[e]));
        }
        if a > 0 {
            assert(!f(l[a - 1]));
        }
        if d > 0 && !neg && chars::is_digit(l[d - 1]) {
            if s > b {
                assert(!number_starts(l, s - 1));
            }
        }
        assert forall|k: int| i <= k < d implies !chars::is_digit(#[trigger] l[k]) by {
            if k < s {
                assert(!number_starts(l, k));
            }
        }
        if a < i {
            assert(f(l[a]));
            assert(d == a);
            if e < i {
                assert(f(l[e]));
            }
        }
    }
}

/// Counting adds to the number: what is written in its place reads as the sum,
/// kept within 64 bits. A number that started with a zero and stays positive
/// keeps at least its width.
pub proof fn law_number_counted(l: Seq<char>, i: int, delta: int)
    requires
        0 <= i <= l.len(),
        -0x8000_0000_0000_0000 <= delta <= 0x7fff_ffff_ffff_ffff,
    ensures
        match number_near(l, i, delta) {
            Some((s, e, r)) => {
                let neg = l[s] == '-';
                let d = if neg {
                    s + 1
                } else {
                    s
                };
                let n = strs::value_of(l.subrange(d, e), e - d);
                let v = sat64(
                    delta + if neg {
                        -n
                    } else {
                        n
                    },
                );
                &&& v < 0 ==> r.len() > 1 && r[0] == '-' && strs::all_digits(r.skip(1))
                    && strs::value_of(r.skip(1), r.len() - 1) == -v
                &&& v >= 0 ==> strs::all_digits(r) && strs::value_of(r, r.len() as int) == v
                &&& v >= 0 && !neg && l[d] == '0' ==> r.len() >= e - d
            },
            None => true,
        },
{
    law_number_at(l, i, delta);
    if let Some((s, e, r)) = number_near(l, i, delta) {
        let neg = l[s] == '-';
        let d = if neg {
            s + 1
        } else {
            s
        };
        let ds = l.subrange(d, e);
        let n = strs::value_of(ds, e - d);
        let v = sat64(
            (if neg {
                -n
            } else {
                n
            }) + delta,
        );
        assert(ds[0] == l[d]);
        if v < 0 {
            strs::lemma_dec_value(-v);
            assert(r.skip(1) =~= strs::dec_of(-v));
        } else {
            strs::lemma_dec_value(v);
            if !neg && ds[0] == '0' {
                strs::lemma_zero_value(strs::dec_of(v), ds.len() as int);
            }
        }
    }
}

/// Counting replaces the number, or the date, and nothing else in the text: on
/// the line the characters `a..b` give way to `r`.
pub proof fn law_only_number_changes(s: EdV, i: int, delta: int)
    requires
        0 <= s.line < s.line_count(),
        0 <= i <= s.line_text(s.line).len(),
        s.col == text::off(s.line_text(s.line), i),
        date_near(s.line_text(s.line), s.col, delta) is None,
    ensures
        ({
            let t = s.buf.text;
            let l = s.line_text(s.line);
            let st = lines::line_start(t, s.line);
            match number_near(l, i, delta) {
                Some((a, b, r)) => s.change_number(delta).buf.text == t.take(st + a) + r + t.skip(
                    st + b,
                ),
                None => s.change_number(delta) == s,
            }
        }),
{
    reveal(EdV::change_number);
    let t = s.buf.text;
    let l = s.line_text(s.line);
    let st = lines::line_start(t, s.line);
    lines::lemma_line_raw(t, s.line);
    text::lemma_at_off(l, i);
    text::lemma_off_mono(l, i, l.len() as int);
    law_number_at(l, i, delta);
    if let Some((a, b, r)) = number_near(l, i, delta) {
        assert(text::off(l, a) == text::off(t, st + a) - lines::line_off(t, s.line));
        assert(text::off(l, b) == text::off(t, st + b) - lines::line_off(t, s.line));
        edits::law_edit(s, st + a, st + b, r);
    }
}

proof fn lemma_glyph_at(l: Seq<char>, i: int, ts: int, n: int)
    requires
        ts > 0,
        0 <= n <= i < l.len(),
        cols::col_after(l, i, ts) < usize::MAX,
    ensures
        cols::glyph_at(l, cols::col_after(l, i, ts), ts, n) == Some(l[i]),
    decreases i - n,
{
    let c = cols::col_after(l, i, ts);
    cols::lemma_col_mono(l, n, i, ts);
    if n < i {
        cols::lemma_col_mono(l, n + 1, i, ts);
        lemma_glyph_at(l, i, ts, n + 1);
    }
}

/// Ctrl-Y types the character that stands right above the cursor, and Ctrl-E
/// the one right below, `i` being its index on that line.
pub proof fn law_copied_char(s: EdV, below: bool, i: int)
    requires
        ({
            let k = if below {
                s.line + 1
            } else {
                s.line - 1
            };
            let l = s.line_text(k);
            &&& 0 <= k < s.line_count()
            &&& 0 <= i < l.len()
            &&& cols::col_after(l, i, s.tabstop()) == s.cursor_column()
            &&& s.cursor_column() < usize::MAX
            &&& s.tabstop() > 0
        }),
    ensures
        ({
            let k = if below {
                s.line + 1
            } else {
                s.line - 1
            };
            s.copy_char(below) == s.typed(seq![s.line_text(k)[i]])
        }),
{
    reveal(EdV::copy_char);
    let k = if below {
        s.line + 1
    } else {
        s.line - 1
    };
    lemma_glyph_at(s.line_text(k), i, s.tabstop(), 0);
}

} // verus!
