//! Items of a HyperList: checkboxes, numbers, templates, sorting, filters and
//! presentation.

use vstd::prelude::*;
use vstd::string::*;
use crate::chars;
use crate::chars::{ascii_alnum, is_blank};
use crate::editor::cursor;
use crate::editor::edits;
use crate::editor::state;
use crate::editor::state::{Editor, EdV};
use crate::fold;
use crate::fold::{fold_level, Folds, FoldsV};
use crate::lines;
use crate::mode;
use crate::motion;
use crate::number;
use crate::number::{format_number, parse_number_prefix, strip_number_prefix, NumberV};
use crate::pattern;
use crate::strs;
use crate::strs::{cat2, cat3, dec, digits_value, has_sub, starts_with, strip_back, trim_end};
use crate::text;
use crate::text::{byte_len, chars_of, index_at, offset_of, piece};

verus! {

// ── Checkboxes ──────────────────────────────────────────────────────────

pub open spec fn lead_fn() -> spec_fn(char) -> bool {
    |c: char| c == '\t' || c == ' ' || c == '*'
}

/// Number of characters before an item's text.
pub open spec fn lead(l: Seq<char>) -> int {
    text::skip_fwd(l, 0, lead_fn())
}

/// Byte column of an item's text; 0 when there is none.
pub open spec fn item_col(l: Seq<char>) -> int {
    if lead(l) < l.len() {
        text::off(l, lead(l))
    } else {
        0
    }
}

/// Length in bytes of a ticked box with the time stamp after it, if there is
/// one: ` YYYY-MM-DD HH.MM:`.
pub open spec fn ticked_len(body: Seq<char>) -> int {
    let rest = body.skip(4);
    if body.len() > 3 && body[3] == ' ' && text::byte_is(rest, 4, '-') && text::byte_is(rest, 7, '-')
        && text::byte_is(rest, 10, ' ') && text::byte_is(rest, 13, '.') && text::byte_is(
        rest,
        16,
        ':',
    ) {
        21
    } else {
        3
    }
}

/// A ticked box, with the time stamp after it when there is one.
pub open spec fn tick(now: Option<Seq<char>>) -> Seq<char> {
    match now {
        Some(t) => "[x] "@ + t + ":"@,
        None => "[x]"@,
    }
}

impl EdV {
    /// Byte offset of the text of the cursor's item.
    pub open spec fn item_start(self) -> int {
        let l = self.line_text(self.line);
        lines::line_off(self.buf.text, self.line) + text::off(l, lead(l))
    }

    /// Flips the item's checkbox: none to `[_]`, `[_]` and `[O]` to `[x]`,
    /// `[x]` to `[_]`. With `now`, ticking adds that time stamp.
    #[verifier::opaque]
    pub open spec fn checkbox(self, now: Option<Seq<char>>) -> EdV {
        let l = self.line_text(self.line);
        let body = l.skip(lead(l));
        let a = self.item_start();
        if strs::prefixed(body, "[O]"@) || strs::prefixed(body, "[_]"@) {
            self.edit(a, a + 3, tick(now)).settle()
        } else if strs::prefixed(body, "[x]"@) {
            self.edit(a, a + ticked_len(body), "[_]"@).settle()
        } else {
            self.edit(a, a, "[_] "@).place(self.line, state::plus(self.col, 4)).keep()
        }
    }

    /// Marks the item as in progress, or takes the mark back.
    #[verifier::opaque]
    pub open spec fn in_progress(self) -> EdV {
        let l = self.line_text(self.line);
        let body = l.skip(lead(l));
        let a = self.item_start();
        if strs::prefixed(body, "[O]"@) {
            self.edit(a, a + 3, "[_]"@).settle()
        } else if strs::prefixed(body, "[_]"@) || strs::prefixed(body, "[x]"@) {
            self.edit(a, a + 3, "[O]"@).settle()
        } else {
            self.edit(a, a, "[O] "@).place(self.line, state::plus(self.col, 4)).keep()
        }
    }
}

/// Number of characters before an item's text.
pub(crate) fn lead_len(v: &Vec<char>) -> (n: usize)
    ensures
        n == lead(v@),
        n <= v.len(),
{
    let mut n: usize = 0;
    while n < v.len() && (v[n] == '\t' || v[n] == ' ' || v[n] == '*')
        invariant
            n <= v.len(),
            lead(v@) == text::skip_fwd(v@, n as int, lead_fn()),
        decreases v.len() - n,
    {
        n += 1;
    }
    n
}

/// Byte column of an item's text; 0 when there is none.
pub(crate) fn item_column(line: &str) -> (c: usize)
    ensures
        c == item_col(line@),
        c <= text::blen(line@),
{
    let v: Vec<char> = chars_of(line);
    let n: usize = lead_len(&v);
    proof {
        text::lemma_off_mono(v@, 0, n as int);
        text::lemma_off_mono(v@, n as int, v@.len() as int);
    }
    if n < v.len() {
        offset_of(&v, n)
    } else {
        0
    }
}

fn ticked(body: &str) -> (n: usize)
    ensures
        n == ticked_len(body@),
{
    let v: Vec<char> = chars_of(body);
    if v.len() > 3 && v[3] == ' ' {
        let rest: String = piece(&v, 4, v.len());
        assert(rest@ =~= body@.skip(4));
        let r: Vec<char> = chars_of(&rest);
        if text::byte_holds(&r, 4, '-') && text::byte_holds(&r, 7, '-') && text::byte_holds(
            &r,
            10,
            ' ',
        ) && text::byte_holds(&r, 13, '.') && text::byte_holds(&r, 16, ':') {
            return 21;
        }
    }
    3
}

impl Editor {
    /// Byte offset of the item's text, and the text.
    fn item_body(&self) -> (r: (usize, String))
        ensures
            r.0 == self@.item_start(),
            r.1@ == self@.line_text(self@.line).skip(lead(self@.line_text(self@.line))),
            r.0 <= text::blen(self@.buf.text) <= usize::MAX,
    {
        let line: String = self.buf.line(self.cur_line);
        let v: Vec<char> = chars_of(&line);
        let n: usize = lead_len(&v);
        let total: usize = self.buf.len_bytes();
        proof {
            lines::lemma_line_raw(self@.buf.text, self@.line);
            text::lemma_off_mono(line@, n as int, line@.len() as int);
        }
        let a: usize = self.buf.line_byte_offset(self.cur_line) + offset_of(&v, n);
        let body: String = piece(&v, n, v.len());
        assert(body@ =~= line@.skip(n as int));
        (a, body)
    }

    /// Flips the item's checkbox.
    pub fn toggle_checkbox(&mut self, now: Option<&str>)
        requires
            old(self).wf(),
        ensures
            final(self)@ == old(self)@.checkbox(
                match now {
                    Some(t) => Some(t@),
                    None => None,
                },
            ),
            final(self).wf(),
    {
        proof {
            reveal(EdV::checkbox);
        }
        let (a, body) = self.item_body();
        if starts_with(&body, "[O]") || starts_with(&body, "[_]") {
            let r: String = match now {
                Some(t) => cat3("[x] ", t, ":"),
                None => "[x]".to_owned(),
            };
            self.edit(a, a.saturating_add(3), &r);
            proof {
                lemma_sat_edit(old(self)@, a as int, 3, r@);
            }
            self.settle();
        } else if starts_with(&body, "[x]") {
            let n: usize = ticked(&body);
            self.edit(a, a.saturating_add(n), "[_]");
            proof {
                lemma_sat_edit(old(self)@, a as int, n as int, "[_]"@);
            }
            self.settle();
        } else {
            self.edit(a, a, "[_] ");
            self.place(self.cur_line, self.cur_col.saturating_add(4));
            self.keep();
        }
    }

    /// Marks the item as in progress.
    pub fn mark_in_progress(&mut self)
        requires
            old(self).wf(),
        ensures
            final(self)@ == old(self)@.in_progress(),
            final(self).wf(),
    {
        proof {
            reveal(EdV::in_progress);
        }
        let (a, body) = self.item_body();
        if starts_with(&body, "[O]") {
            self.edit(a, a.saturating_add(3), "[_]");
            proof {
                lemma_sat_edit(old(self)@, a as int, 3, "[_]"@);
            }
            self.settle();
        } else if starts_with(&body, "[_]") || starts_with(&body, "[x]") {
            self.edit(a, a.saturating_add(3), "[O]");
            proof {
                lemma_sat_edit(old(self)@, a as int, 3, "[O]"@);
            }
            self.settle();
        } else {
            self.edit(a, a, "[O] ");
            self.place(self.cur_line, self.cur_col.saturating_add(4));
            self.keep();
        }
    }
}

/// An end past the largest offset is past the end of the text all the same.
pub(crate) proof fn lemma_sat_edit(s: EdV, a: int, n: int, r: Seq<char>)
    requires
        text::blen(s.buf.text) <= usize::MAX,
    ensures
        s.edit(a, crate::cols::sat(a + n), r) == s.edit(a, a + n, r),
{
    if a + n > usize::MAX {
        assert(state::legal(s.buf.text, a + n) == state::legal(s.buf.text, usize::MAX as int));
    }
}

// ── Numbers ─────────────────────────────────────────────────────────────

/// The indentation of a line: its tabs and asterisks.
pub open spec fn marks_of(l: Seq<char>) -> Seq<char> {
    l.take(fold::level(l))
}

pub open spec fn body_of(l: Seq<char>) -> Seq<char> {
    l.skip(fold::level(l))
}

impl EdV {
    /// Enter with automatic numbers: a new item below with the next number,
    /// or just the indentation.
    #[verifier::opaque]
    pub open spec fn numbered_newline(self) -> EdV {
        let l = self.line_text(self.line);
        let m = marks_of(l);
        let at = lines::line_off(self.buf.text, self.line) + text::blen(l);
        match number::item_number(body_of(l)) {
            Some(n) => {
                let t = number::number_text(NumberV { index: n.index + 1, ..n });
                self.edit(at, at, "\n"@ + m + t + " "@).place(
                    state::plus(self.line, 1),
                    text::blen(m) + text::blen(t) + 1,
                ).keep()
            },
            None => self.edit(at, at, "\n"@ + m).place(
                state::plus(self.line, 1),
                text::blen(m),
            ).keep(),
        }
    }

    /// Ctrl-T with automatic numbers: one level in, as the first child of the
    /// item before.
    #[verifier::opaque]
    pub open spec fn number_in(self) -> EdV {
        let l = self.line_text(self.line);
        let m = text::blen(marks_of(l));
        let o = lines::line_off(self.buf.text, self.line);
        let s = self.open_undo().edit(o, o, "\t"@);
        match number::item_number(body_of(l)) {
            Some(n) => {
                let was = number::number_text(n);
                let now = n.path + strs::dec_of(state::max(n.index - 1, 1)) + ".1"@ + if n.dot {
                    "."@
                } else {
                    ""@
                };
                let a = o + 1 + m;
                s.edit(a, a + text::blen(was), now).close_undo().place(
                    self.line,
                    m + 1 + text::blen(now) + 1,
                ).keep()
            },
            None => s.close_undo().place(self.line, state::plus(self.col, 1)).keep(),
        }
    }

    /// Ctrl-D with automatic numbers: one level out, as the item after the
    /// parent.
    #[verifier::opaque]
    pub open spec fn number_out(self) -> EdV {
        let l = self.line_text(self.line);
        let m = text::blen(marks_of(l));
        let o = lines::line_off(self.buf.text, self.line);
        let s = self.open_undo().edit(o, o + 1, Seq::empty());
        if fold::level(l) == 0 {
            self
        } else {
            match number::item_number(body_of(l)) {
                Some(n) => {
                    let (path, index) = parent_number(n.path);
                    let now = number::number_text(NumberV { path, index: index + 1, dot: n.dot });
                    let a = o + m - 1;
                    s.edit(
                        a,
                        a + state::minus(number::number_width(body_of(l)), 1),
                        now,
                    ).close_undo().place(self.line, m - 1 + text::blen(now) + 1).keep()
                },
                None => s.close_undo().place(self.line, state::minus(self.col, 1)).keep(),
            }
        }
    }

    /// The lines `k..=l2` renumbered from `n` on, those that are indented by
    /// just `marks`.
    pub open spec fn renumber_from(self, k: int, l2: int, marks: Seq<char>, n: NumberV) -> EdV
        decreases l2 - k + 1,
    {
        let l = self.line_text(k);
        if k > l2 {
            self
        } else if strs::prefixed(l, marks) && fold::level(l) == marks.len() {
            let a = lines::line_off(self.buf.text, k) + text::blen(marks);
            self.edit(
                a,
                a + number::number_width(l.skip(marks.len() as int)),
                number::number_text(n) + " "@,
            ).renumber_from(k + 1, l2, marks, NumberV { index: n.index + 1, ..n })
        } else {
            self.renumber_from(k + 1, l2, marks, n)
        }
    }

    /// Renumbers the selected items from the first one's number on.
    #[verifier::opaque]
    pub open spec fn renumber(self) -> EdV {
        let l1 = self.top_line();
        let l2 = self.bottom_line();
        let first = self.line_text(l1);
        let marks = if fold::level(first) < first.len() {
            marks_of(first)
        } else {
            Seq::empty()
        };
        let n = match number::item_number(first.skip(marks.len() as int)) {
            Some(x) => x,
            None => NumberV { path: Seq::empty(), index: 1, dot: false },
        };
        if !mode::visual(self.mode) {
            self
        } else {
            self.open_undo().renumber_from(l1, l2, marks, n).close_undo().settle().say(
                " renumbered "@ + strs::dec_of(l1 + 1) + ".."@ + strs::dec_of(l2 + 1),
                46,
            )
        }
    }
}

/// The path and index of the item above, from an item's path.
pub open spec fn parent_number(path: Seq<char>) -> (Seq<char>, int) {
    let p = strs::without_back(path, '.');
    let cut = match motion::find_back(p, p.len() as int, '.') {
        Some(d) => d + 1,
        None => 0,
    };
    (
        p.take(cut),
        match strs::number(p.skip(cut), u64::MAX as int) {
            Some(n) => n,
            None => 0,
        },
    )
}

fn parent_of(path: &str) -> (r: (String, u64))
    ensures
        (r.0@, r.1 as int) == parent_number(path@),
{
    let p: String = strip_back(path, '.');
    let v: Vec<char> = chars_of(&p);
    let mut d: usize = v.len();
    while d > 0 && v[d - 1] != '.'
        invariant
            d <= v.len(),
            v@ == p@,
            motion::find_back(p@, p@.len() as int, '.') == motion::find_back(p@, d as int, '.'),
        decreases d,
    {
        d -= 1;
    }
    let head: String = piece(&v, 0, d);
    assert(head@ =~= p@.take(d as int));
    let tail: Vec<char> = chars_of(&piece(&v, d, v.len()));
    assert(tail@.skip(0) =~= p@.skip(d as int));
    let i: u64 = match digits_value(&tail, 0, u64::MAX) {
        Some(i) => i,
        None => 0,
    };
    (head, i)
}

/// A line cut into its indentation and the rest.
fn split_marks(line: &str) -> (r: (String, String))
    ensures
        r.0@ == marks_of(line@),
        r.1@ == body_of(line@),
        r.0@.len() == fold::level(line@),
{
    let n: usize = fold_level(line);
    let v: Vec<char> = chars_of(line);
    let a: String = piece(&v, 0, n);
    let b: String = piece(&v, n, v.len());
    assert(a@ =~= marks_of(line@));
    assert(b@ =~= body_of(line@));
    (a, b)
}

impl Editor {
    /// Puts the cursor at a line and a column given as a sum that may be too
    /// large to hold.
    pub(crate) fn place_wide(&mut self, line: usize, col: u128)
        requires
            old(self).ok(),
            old(self)@.buf.calm(),
        ensures
            final(self)@ == old(self)@.place(line as int, col as int),
            final(self).wf(),
    {
        let total: usize = self.buf.len_bytes();
        let c: usize = if col > usize::MAX as u128 {
            usize::MAX
        } else {
            col as usize
        };
        proof {
            cursor::lemma_line_off(self@.buf.text, line as int);
            if col > usize::MAX {
                let st = lines::line_off(self@.buf.text, line as int);
                assert(state::legal(self@.buf.text, st + col) == state::legal(
                    self@.buf.text,
                    st + usize::MAX,
                ));
            }
        }
        self.place(line, c);
    }

    /// Enter with automatic numbers.
    pub fn autonum_newline(&mut self)
        requires
            old(self).wf(),
        ensures
            final(self)@ == old(self)@.numbered_newline(),
            final(self).wf(),
    {
        proof {
            reveal(EdV::numbered_newline);
        }
        let l: String = self.buf.line(self.cur_line);
        let (m, body) = split_marks(&l);
        let total: usize = self.buf.len_bytes();
        proof {
            lines::lemma_line_raw(self@.buf.text, self@.line);
        }
        let at: usize = self.buf.line_byte_offset(self.cur_line) + byte_len(&l);
        let next: usize = self.cur_line.saturating_add(1);
        match parse_number_prefix(&body) {
            Some(n) => {
                let t: String = format_number(&n.path, n.index as u128 + 1, n.dot);
                let head: String = cat3("\n", &m, &t);
                self.edit(at, at, &cat2(&head, " "));
                self.place_wide(next, byte_len(&m) as u128 + byte_len(&t) as u128 + 1);
                self.keep();
            },
            None => {
                self.edit(at, at, &cat2("\n", &m));
                self.place(next, byte_len(&m));
                self.keep();
            },
        }
    }

    /// Ctrl-T with automatic numbers.
    pub fn autonum_indent_in(&mut self)
        requires
            old(self).wf(),
        ensures
            final(self)@ == old(self)@.number_in(),
            final(self).wf(),
    {
        proof {
            reveal(EdV::number_in);
        }
        let l: String = self.buf.line(self.cur_line);
        let (marks, body) = split_marks(&l);
        let m: usize = byte_len(&marks);
        let o: usize = self.buf.line_byte_offset(self.cur_line);
        self.open_undo();
        self.edit(o, o, "\t");
        match parse_number_prefix(&body) {
            Some(n) => {
                let was: String = format_number(&n.path, n.index as u128, n.dot);
                let i: u64 = if n.index > 1 {
                    n.index - 1
                } else {
                    1
                };
                let head: String = cat3(&n.path, &dec(i as u128), ".1");
                let now: String = cat2(
                    &head,
                    if n.dot {
                        "."
                    } else {
                        ""
                    },
                );
                let a: u128 = o as u128 + 1 + m as u128;
                self.edit_wide(a, a + byte_len(&was) as u128, &now);
                self.close_undo();
                self.place_wide(self.cur_line, m as u128 + byte_len(&now) as u128 + 2);
                self.keep();
            },
            None => {
                self.close_undo();
                self.place(self.cur_line, self.cur_col.saturating_add(1));
                self.keep();
            },
        }
    }

    /// Replaces a range of bytes given by sums that may be too large to hold.
    pub(crate) fn edit_wide(&mut self, a: u128, b: u128, r: &str)
        requires
            old(self).ok(),
        ensures
            final(self)@ == old(self)@.edit(a as int, b as int, r@),
            final(self).ok(),
            final(self)@.buf.depth == old(self)@.buf.depth,
    {
        let total: usize = self.buf.len_bytes();
        let x: usize = if a > usize::MAX as u128 {
            usize::MAX
        } else {
            a as usize
        };
        let y: usize = if b > usize::MAX as u128 {
            usize::MAX
        } else {
            b as usize
        };
        assert(state::legal(self@.buf.text, x as int) == state::legal(self@.buf.text, a as int));
        assert(state::legal(self@.buf.text, y as int) == state::legal(self@.buf.text, b as int));
        self.edit(x, y, r);
    }

    /// Ctrl-D with automatic numbers.
    #[verifier::rlimit(60)]
    pub fn autonum_indent_out(&mut self)
        requires
            old(self).wf(),
        ensures
            final(self)@ == old(self)@.number_out(),
            final(self).wf(),
    {
        proof {
            reveal(EdV::number_out);
        }
        let l: String = self.buf.line(self.cur_line);
        if fold_level(&l) == 0 {
            return;
        }
        let (marks, body) = split_marks(&l);
        let m: usize = byte_len(&marks);
        proof {
            text::lemma_off_mono(marks@, 0, marks@.len() as int);
        }
        let o: usize = self.buf.line_byte_offset(self.cur_line);
        self.open_undo();
        self.edit_wide(o as u128, o as u128 + 1, &String::new());
        match parse_number_prefix(&body) {
            Some(n) => {
                let (path, index) = parent_of(&n.path);
                let now: String = format_number(&path, index as u128 + 1, n.dot);
                let w: usize = strip_number_prefix(&body);
                let a: u128 = o as u128 + m as u128 - 1;
                let b: u128 = a + if w > 0 {
                    w as u128 - 1
                } else {
                    0
                };
                self.edit_wide(a, b, &now);
                self.close_undo();
                self.place_wide(self.cur_line, m as u128 + byte_len(&now) as u128);
                self.keep();
            },
            None => {
                self.close_undo();
                self.place(
                    self.cur_line,
                    if self.cur_col > 0 {
                        self.cur_col - 1
                    } else {
                        0
                    },
                );
                self.keep();
            },
        }
    }

    /// Renumbers the selected items.
    pub fn renumber_visual(&mut self)
        requires
            old(self).wf(),
        ensures
            final(self)@ == old(self)@.renumber(),
            final(self).wf(),
    {
        proof {
            reveal(EdV::renumber);
        }
        if !self.mode.is_visual() {
            return;
        }
        let (l1, l2) = self.visual_lines();
        let first: String = self.buf.line(l1);
        let v: Vec<char> = chars_of(&first);
        let n: usize = fold_level(&first);
        let k: usize = if n < v.len() {
            n
        } else {
            0
        };
        let marks: String = piece(&v, 0, k);
        let body: String = piece(&v, k, v.len());
        let ghost mv = if fold::level(first@) < first@.len() {
            marks_of(first@)
        } else {
            Seq::empty()
        };
        assert(marks@ =~= mv);
        assert(body@ =~= first@.skip(marks@.len() as int));
        let (path, start, dot) = match parse_number_prefix(&body) {
            Some(x) => (x.path, x.index as u128, x.dot),
            None => (String::new(), 1u128, false),
        };
        self.open_undo();
        let ghost s0 = self@;
        let ghost n0 = NumberV { path: path@, index: start as int, dot };
        let mut i: usize = l1;
        let mut index: u128 = start;
        let mut done: bool = false;
        let w: usize = byte_len(&marks);
        while !done
            invariant
                l1 <= i <= l2,
                self.ok(),
                self@.buf.depth == 1,
                self@ == (EdV { buf: self@.buf, folds: self@.folds, ..s0 }),
                w == text::blen(marks@),
                marks@.len() == k,
                start <= u64::MAX,
                index <= start + (i - l1) + if done {
                    1int
                } else {
                    0
                },
                !done ==> self@.renumber_from(
                    i as int,
                    l2 as int,
                    marks@,
                    NumberV { path: path@, index: index as int, dot },
                ) == s0.renumber_from(l1 as int, l2 as int, marks@, n0),
                done ==> self@ == s0.renumber_from(l1 as int, l2 as int, marks@, n0),
            decreases l2 - i, (if done { 0int } else { 1 }),
        {
            let l: String = self.buf.line(i);
            if starts_with(&l, &marks) && fold_level(&l) == k {
                let lv: Vec<char> = chars_of(&l);
                let rest: String = piece(&lv, k, lv.len());
                assert(rest@ =~= l@.skip(k as int));
                let num: String = format_number(&path, index, dot);
                let a: u128 = self.buf.line_byte_offset(i) as u128 + w as u128;
                let b: u128 = a + strip_number_prefix(&rest) as u128;
                self.edit_wide(a, b, &cat2(&num, " "));
                index = index + 1;
            }
            if i == l2 {
                proof {
                    let nn = NumberV { path: path@, index: index as int, dot };
                    assert(self@.renumber_from(i + 1, l2 as int, marks@, nn) == self@);
                }
                done = true;
            } else {
                i += 1;
            }
        }
        self.close_undo();
        self.settle();
        let a: String = cat3(" renumbered ", &dec(l1 as u128 + 1), "..");
        self.set_status(&cat2(&a, &dec(l2 as u128 + 1)), 46);
    }
}

// ── Templates and presentation ──────────────────────────────────────────

impl EdV {
    /// First line from `k` on that ends with an equals sign.
    pub open spec fn template_from(self, k: int) -> Option<int>
        decreases self.line_count() - k,
    {
        if k < 0 || k >= self.line_count() {
            None
        } else if strs::suffixed(strs::trim_end_of(self.line_text(k)), "="@) {
            Some(k)
        } else {
            self.template_from(k + 1)
        }
    }

    /// To the next item that is to be filled in, and insert there.
    #[verifier::opaque]
    pub open spec fn next_template(self) -> EdV {
        match self.template_from(self.line) {
            Some(k) => self.place(k, text::blen(self.line_text(k))).keep().enter_insert(),
            None => self.say(" no template element below"@, 244),
        }
    }

    /// A step of a presentation: to the next visible line in a direction,
    /// with everything else folded.
    #[verifier::opaque]
    pub open spec fn present(self, down: bool) -> EdV {
        let k = if down {
            self.down_from(self.line, 1)
        } else {
            self.up_from(self.line, 1)
        };
        EdV {
            folds: self.folds.only_around(k, self.all_lines()),
            ..self
        }.place(k, 0).keep()
    }
}

impl Editor {
    /// To the next item that ends with an equals sign.
    pub fn jump_next_template(&mut self)
        requires
            old(self).wf(),
        ensures
            final(self)@ == old(self)@.next_template(),
            final(self).wf(),
    {
        proof {
            reveal(EdV::next_template);
        }
        let n: usize = self.buf.line_count();
        let mut k: usize = self.cur_line;
        while k < n
            invariant
                n == self@.line_count(),
                self.wf(),
                *self == *old(self),
                self@.template_from(self@.line) == self@.template_from(k as int),
            decreases n - k,
        {
            let l: String = self.buf.line(k);
            if strs::ends_with(&trim_end(&l), "=") {
                proof {
                    reveal(EdV::next_template);
                }
                self.place(k, byte_len(&l));
                self.keep();
                self.enter_insert();
                return;
            }
            k += 1;
        }
        self.set_status(" no template element below", 244);
    }

    /// A step of a presentation.
    pub fn presentation_step(&mut self, down: bool)
        requires
            old(self).wf(),
        ensures
            final(self)@ == old(self)@.present(down),
            final(self).wf(),
    {
        proof {
            reveal(EdV::present);
        }
        let k: usize = if down {
            self.next_visible_line_down(self.cur_line, 1)
        } else {
            self.next_visible_line_up(self.cur_line, 1)
        };
        let all: Vec<String> = self.all_lines();
        self.folds.fold_others(k, &all);
        self.place(k, 0);
        self.keep();
    }
}

// ── Showing and hiding ──────────────────────────────────────────────────

/// Explicit ranges over the runs of lines that are to be hidden; `start` is
/// the first line of the run that is open at line `i`.
pub open spec fn hide_runs(f: FoldsV, hidden: Seq<bool>, i: int, start: Option<int>) -> FoldsV
    decreases hidden.len() - i,
{
    if i < 0 || i >= hidden.len() {
        match start {
            Some(s) => f.close_range(s, hidden.len() - 1),
            None => f,
        }
    } else if hidden[i] {
        hide_runs(
            f,
            hidden,
            i + 1,
            match start {
                Some(s) => Some(s),
                None => Some(i),
            },
        )
    } else {
        match start {
            Some(s) => hide_runs(f.close_range(s, i - 1), hidden, i + 1, None),
            None => hide_runs(f, hidden, i + 1, None),
        }
    }
}

pub open spec fn word_fn() -> spec_fn(char) -> bool {
    |c: char| chars::is_ascii_alnum(c) || c == '_'
}

/// The word around index `i`; empty when there is none.
pub open spec fn word_around(l: Seq<char>, i: int) -> Seq<char> {
    l.subrange(text::skip_back(l, i, word_fn()), text::skip_fwd(l, i, word_fn()))
}

impl EdV {
    pub open spec fn filtered(self, hidden: Seq<bool>, p: Seq<char>, show: bool) -> EdV {
        EdV {
            folds: hide_runs(FoldsV::none(), hidden, 0, None),
            showhide: Some((p, show)),
            ..self
        }
    }

    /// Shows the lines that hold the word at the cursor, or hides them.
    #[verifier::opaque]
    pub open spec fn filter_word(self, show: bool) -> EdV {
        let l = self.line_text(self.line);
        let w = word_around(l, text::at(l, state::min(self.col, text::blen(l))));
        if w.len() == 0 {
            self.say(" no word at cursor"@, 244)
        } else {
            self.filtered(
                Seq::new(
                    self.line_count() as nat,
                    |k: int| strs::contains(self.line_text(k), w) != show,
                ),
                w,
                show,
            ).say(
                " "@ + (if show {
                    "show"@
                } else {
                    "hide"@
                }) + ": "@ + w,
                244,
            )
        }
    }

    /// Shows the lines that match a pattern, or hides them.
    #[verifier::opaque]
    pub open spec fn filter_pattern(self, p: Seq<char>, show: bool) -> EdV {
        if p.len() == 0 {
            self.say(" empty pattern"@, 244)
        } else {
            match pattern::regex_error(p) {
                Some(e) => self.say(" bad regex: "@ + e, 196),
                None => self.filtered(
                    Seq::new(
                        self.line_count() as nat,
                        |k: int| pattern::regex_matches(p, self.line_text(k)) != show,
                    ),
                    p,
                    show,
                ).say(
                    " "@ + (if show {
                        "show"@
                    } else {
                        "hide"@
                    }) + ": /"@ + p + "/"@,
                    244,
                ),
            }
        }
    }

    /// No filter any more: nothing that it hid stays hidden.
    #[verifier::opaque]
    pub open spec fn unfiltered(self) -> EdV {
        EdV { showhide: None, folds: FoldsV::none().at_level(99, self.all_lines()), ..self }.say(
            " show/hide cleared"@,
            244,
        )
    }
}

/// Ranges over the runs of lines to be hidden.
pub fn runs_to_hide(hidden: &Vec<bool>) -> (f: Folds)
    ensures
        f@ == hide_runs(FoldsV::none(), hidden@, 0, None),
        f.wf(),
{
    let mut f: Folds = Folds::new();
    let mut start: Option<usize> = None;
    let mut i: usize = 0;
    while i < hidden.len()
        invariant
            i <= hidden.len(),
            f.wf(),
            start matches Some(s) ==> s < i,
            hide_runs(FoldsV::none(), hidden@, 0, None) == hide_runs(
                f@,
                hidden@,
                i as int,
                crate::buffer::int_opt(start),
            ),
        decreases hidden.len() - i,
    {
        if hidden[i] {
            if start.is_none() {
                start = Some(i);
            }
        } else {
            if let Some(s) = start {
                f.close_range(s, i - 1);
            }
            start = None;
        }
        i += 1;
    }
    if let Some(s) = start {
        f.close_range(s, hidden.len() - 1);
    }
    f
}

impl Editor {
    /// Shows or hides the lines that hold the word at the cursor.
    pub fn showhide_word(&mut self, show: bool)
        requires
            old(self).wf(),
        ensures
            final(self)@ == old(self)@.filter_word(show),
            final(self).wf(),
    {
        proof {
            reveal(EdV::filter_word);
        }
        let l: String = self.buf.line(self.cur_line);
        let n: usize = byte_len(&l);
        let v: Vec<char> = chars_of(&l);
        let i: usize = index_at(
            &v,
            if self.cur_col <= n {
                self.cur_col
            } else {
                n
            },
        );
        let mut s: usize = i;
        while s > 0 && (ascii_alnum(v[s - 1]) || v[s - 1] == '_')
            invariant
                s <= i <= v.len(),
                text::skip_back(v@, i as int, word_fn()) == text::skip_back(
                    v@,
                    s as int,
                    word_fn(),
                ),
            decreases s,
        {
            s -= 1;
        }
        let mut e: usize = i;
        while e < v.len() && (ascii_alnum(v[e]) || v[e] == '_')
            invariant
                i <= e <= v.len(),
                text::skip_fwd(v@, i as int, word_fn()) == text::skip_fwd(v@, e as int, word_fn()),
            decreases v.len() - e,
        {
            e += 1;
        }
        if s == e {
            self.set_status(" no word at cursor", 244);
            return;
        }
        let w: String = piece(&v, s, e);
        let count: usize = self.buf.line_count();
        let mut hidden: Vec<bool> = Vec::new();
        let mut k: usize = 0;
        while k < count
            invariant
                k <= count,
                count == self@.line_count(),
                hidden@.len() == k,
                forall|j: int|
                    0 <= j < k ==> #[trigger] hidden@[j] == (strs::contains(
                        self@.line_text(j),
                        w@,
                    ) != show),
            decreases count - k,
        {
            hidden.push(has_sub(&self.buf.line(k), &w) != show);
            k += 1;
        }
        assert(hidden@ =~= Seq::new(
            self@.line_count() as nat,
            |k: int| strs::contains(self@.line_text(k), w@) != show,
        ));
        self.folds = runs_to_hide(&hidden);
        self.showhide = Some((w.clone(), show));
        let a: String = cat3(
            " ",
            if show {
                "show"
            } else {
                "hide"
            },
            ": ",
        );
        self.set_status(&cat2(&a, &w), 244);
    }

    /// Shows or hides the lines that match a pattern.
    pub fn showhide_pattern(&mut self, p: &str, show: bool)
        requires
            old(self).wf(),
        ensures
            final(self)@ == old(self)@.filter_pattern(p@, show),
            final(self).wf(),
    {
        proof {
            reveal(EdV::filter_pattern);
        }
        if chars_of(p).len() == 0 {
            self.set_status(" empty pattern", 244);
            return;
        }
        if let Err(e) = pattern::check(p) {
            self.set_status(&cat2(" bad regex: ", &e), 196);
            return;
        }
        let count: usize = self.buf.line_count();
        let mut hidden: Vec<bool> = Vec::new();
        let mut k: usize = 0;
        while k < count
            invariant
                k <= count,
                count == self@.line_count(),
                pattern::regex_error(p@) is None,
                hidden@.len() == k,
                forall|j: int|
                    0 <= j < k ==> #[trigger] hidden@[j] == (pattern::regex_matches(
                        p@,
                        self@.line_text(j),
                    ) != show),
            decreases count - k,
        {
            hidden.push(pattern::is_match(p, &self.buf.line(k)) != show);
            k += 1;
        }
        assert(hidden@ =~= Seq::new(
            self@.line_count() as nat,
            |k: int| pattern::regex_matches(p@, self@.line_text(k)) != show,
        ));
        self.folds = runs_to_hide(&hidden);
        self.showhide = Some((p.to_owned(), show));
        let a: String = cat3(
            " ",
            if show {
                "show"
            } else {
                "hide"
            },
            ": /",
        );
        self.set_status(&cat3(&a, p, "/"), 244);
    }

    /// Takes the filter away.
    pub fn showhide_clear(&mut self)
        requires
            old(self).wf(),
        ensures
            final(self)@ == old(self)@.unfiltered(),
            final(self).wf(),
    {
        proof {
            reveal(EdV::unfiltered);
        }
        let all: Vec<String> = self.all_lines();
        self.showhide = None;
        self.folds.clear();
        self.folds.set_level(99, &all);
        self.set_status(" show/hide cleared", 244);
    }
}

// ── Complexity ──────────────────────────────────────────────────────────

/// Number of references from index `i` of a line on.
pub open spec fn refs_from(l: Seq<char>, i: int) -> int
    decreases l.len() - i,
{
    let a = text::skip_fwd(l, i, strs::other_than('<'));
    let b = text::skip_fwd(l, a, strs::other_than('>'));
    if i < 0 || a >= l.len() || b >= l.len() || b < i {
        0
    } else {
        1 + refs_from(l, b + 1)
    }
}

impl EdV {
    /// Items and references of the first `n` lines.
    pub open spec fn complexity_of(self, n: int) -> (int, int)
        decreases n,
    {
        if n <= 0 {
            (0, 0)
        } else {
            let (a, b) = self.complexity_of(n - 1);
            let l = self.line_text(n - 1);
            if chars::blank(l) {
                (a, b)
            } else {
                (a + 1, b + refs_from(l, 0))
            }
        }
    }

    #[verifier::opaque]
    pub open spec fn complexity(self) -> EdV {
        let (a, b) = self.complexity_of(self.line_count());
        self.say(
            " complexity: "@ + strs::dec_of(a) + " items + "@ + strs::dec_of(b) + " refs = "@
                + strs::dec_of(a + b),
            46,
        )
    }
}

fn count_refs(line: &str) -> (n: usize)
    ensures
        n == refs_from(line@, 0),
{
    let v: Vec<char> = chars_of(line);
    let mut n: usize = 0;
    let mut i: usize = 0;
    loop
        invariant
            i <= v.len(),
            v@ == line@,
            n <= i,
            refs_from(line@, 0) == n + refs_from(line@, i as int),
        decreases v.len() - i,
    {
        let a: usize = strs::next_char(&v, '<', i);
        if a >= v.len() {
            return n;
        }
        let b: usize = strs::next_char(&v, '>', a);
        if b >= v.len() {
            return n;
        }
        n += 1;
        i = b + 1;
    }
}

impl Editor {
    /// Reports the number of items and references.
    pub fn complexity_report(&mut self)
        requires
            old(self).wf(),
        ensures
            final(self)@ == old(self)@.complexity(),
            final(self).wf(),
    {
        proof {
            reveal(EdV::complexity);
        }
        let count: usize = self.buf.line_count();
        let mut items: u128 = 0;
        let mut refs: u128 = 0;
        let mut k: usize = 0;
        while k < count
            invariant
                k <= count,
                count == self@.line_count(),
                items <= k,
                refs <= k * usize::MAX,
                (items as int, refs as int) == self@.complexity_of(k as int),
            decreases count - k,
        {
            let l: String = self.buf.line(k);
            assert(refs + usize::MAX <= (k + 1) * usize::MAX) by (nonlinear_arith)
                requires
                    refs <= k * usize::MAX,
            ;
            assert((k + 1) * usize::MAX <= usize::MAX * usize::MAX) by (nonlinear_arith)
                requires
                    k + 1 <= usize::MAX,
            ;
            assert(usize::MAX * usize::MAX <= u128::MAX - 0x1_0000_0000_0000_0000) by (nonlinear_arith)
                requires
                    usize::MAX <= 0xffff_ffff_ffff_ffff,
            ;
            if !is_blank(&l) {
                items = items + 1;
                refs = refs + count_refs(&l) as u128;
            }
            k += 1;
        }
        assert(count * usize::MAX <= u128::MAX - 0x1_0000_0000_0000_0000) by (nonlinear_arith)
            requires
                count <= usize::MAX,
                usize::MAX <= 0xffff_ffff_ffff_ffff,
        ;
        let a: String = cat3(" complexity: ", &dec(items), " items + ");
        let b: String = cat3(&a, &dec(refs), " refs = ");
        self.set_status(&cat2(&b, &dec(items + refs)), 46);
    }
}

/// A box with the mark `c` at the head of an item.
pub open spec fn boxed(l: Seq<char>, c: char) -> bool {
    &&& lead(l) + 3 <= l.len()
    &&& l[lead(l)] == '['
    &&& l[lead(l) + 1] == c
    &&& l[lead(l) + 2] == ']'
}

/// An edit that puts another mark into the box of the cursor's item.
proof fn lemma_remark(s: EdV, c: char, d: char)
    requires
        0 <= s.line < s.line_count(),
        boxed(s.line_text(s.line), c),
        c == '_' || c == 'x',
        d == '_' || d == 'x',
    ensures
        ({
            let l = s.line_text(s.line);
            let a = s.item_start();
            let n = s.edit(a, a + 3, seq!['[', d, ']']).settle();
            let p = lines::line_start(s.buf.text, s.line) + lead(l);
            &&& n.line == s.line
            &&& n.buf.text == s.buf.text.update(p + 1, d)
            &&& n.line_count() == s.line_count()
            &&& lines::line_start(n.buf.text, s.line) == lines::line_start(s.buf.text, s.line)
            &&& n.line_text(s.line) == l.update(lead(l) + 1, d)
            &&& lead(n.line_text(s.line)) == lead(l)
        }),
{
    let t = s.buf.text;
    let k = s.line;
    let l = s.line_text(k);
    let i = lead(l);
    let st = lines::line_start(t, k);
    let p = st + i;
    let a = s.item_start();
    lines::lemma_line_raw(t, k);
    text::lemma_skip_fwd(l, 0, lead_fn());
    text::lemma_off_sub(t, st, st + l.len(), i);
    assert(a == text::off(t, p));
    assert(t[p] == l[i] && t[p + 1] == l[i + 1] && t[p + 2] == l[i + 2]);
    reveal_with_fuel(text::off, 4);
    assert(text::off(t, p + 3) == a + 3);
    text::lemma_at_off(t, p);
    text::lemma_at_off(t, p + 3);
    text::lemma_off_mono(t, 0, p);
    let r = seq!['[', d, ']'];
    let u = t.update(p + 1, d);
    assert(t.take(p) + r + t.skip(p + 3) =~= u);
    let n = s.edit(a, a + 3, r).settle();
    assert(n.buf.text == u);
    assert forall|j: int| 0 <= j < t.len() implies #[trigger] lines::is_break(t, j)
        == lines::is_break(u, j) by {
        if j == p + 1 {
        } else if j + 1 < t.len() {
            assert(u[j + 1] == t[j + 1] || j + 1 == p + 1);
        }
    }
    lines::lemma_line_start_shape(t, u, k);
    lines::lemma_line_start_shape(t, u, k + 1);
    assert(lines::line_raw(u, k) =~= lines::line_raw(t, k).update(i + 1, d));
    assert(n.line_text(k) =~= l.update(i + 1, d));
    lemma_lead(l, i, n.line_text(k));
}

/// Lines that agree up to an item's text have it at the same place.
proof fn lemma_lead(l: Seq<char>, i: int, m: Seq<char>)
    requires
        i == lead(l),
        i < l.len(),
        i < m.len(),
        forall|j: int| 0 <= j <= i ==> l[j] == m[j],
    ensures
        lead(m) == i,
{
    text::lemma_skip_fwd(l, 0, lead_fn());
    text::lemma_skip_fwd(m, 0, lead_fn());
    let j = lead(m);
    if j < i {
        assert(lead_fn()(l[j]));
    } else if j > i {
        assert(lead_fn()(m[i]));
    }
}

proof fn lemma_boxed(l: Seq<char>, c: char)
    requires
        boxed(l, c),
        c == '_' || c == 'x',
    ensures
        ({
            let body = l.skip(lead(l));
            &&& !strs::prefixed(body, "[O]"@)
            &&& strs::prefixed(body, "[_]"@) == (c == '_')
            &&& strs::prefixed(body, "[x]"@) == (c == 'x')
        }),
{
    reveal_strlit("[O]");
    reveal_strlit("[_]");
    reveal_strlit("[x]");
    text::lemma_skip_fwd(l, 0, lead_fn());
    let h = l.skip(lead(l)).take(3);
    assert(h =~= seq!['[', c, ']']);
    assert("[O]"@[1] == 'O' && "[_]"@[1] == '_' && "[x]"@[1] == 'x');
    assert(c == '_' ==> h =~= "[_]"@);
    assert(c == 'x' ==> h =~= "[x]"@);
}

/// To toggle the box of an item twice, without time stamps, leaves the text as
/// it was: `[_]` becomes `[x]`, and `[x]` becomes `[_]` again.
pub proof fn law_checkbox_toggles(s: EdV)
    requires
        0 <= s.line < s.line_count(),
        ({
            let l = s.line_text(s.line);
            boxed(l, '_') || boxed(l, 'x')
        }),
        ({
            let l = s.line_text(s.line);
            ticked_len(l.skip(lead(l)).update(1, 'x')) == 3
        }),
    ensures
        ({
            let l = s.line_text(s.line);
            let once = s.checkbox(None);
            &&& once.line == s.line
            &&& once.line_text(s.line) == l.update(
                lead(l) + 1,
                if boxed(l, '_') {
                    'x'
                } else {
                    '_'
                },
            )
            &&& once.checkbox(None).buf.text == s.buf.text
        }),
{
    reveal(EdV::checkbox);
    reveal_strlit("[O]");
    reveal_strlit("[_]");
    reveal_strlit("[x]");
    let t = s.buf.text;
    let l = s.line_text(s.line);
    let i = lead(l);
    let c = if boxed(l, '_') {
        '_'
    } else {
        'x'
    };
    let d = if c == '_' {
        'x'
    } else {
        '_'
    };
    text::lemma_skip_fwd(l, 0, lead_fn());
    lemma_boxed(l, c);
    lemma_remark(s, c, d);
    let body = l.skip(i);
    assert(c == 'x' ==> body =~= body.update(1, 'x'));
    assert("[x]"@ =~= seq!['[', 'x', ']']);
    assert("[_]"@ =~= seq!['[', '_', ']']);
    let once = s.checkbox(None);
    let m = once.line_text(s.line);
    assert(m == l.update(i + 1, d));
    assert(m.skip(i) =~= body.update(1, d));
    lemma_boxed(m, d);
    lemma_remark(once, d, c);
    lines::lemma_line_raw(t, s.line);
    let p = lines::line_start(t, s.line) + i;
    assert(t.update(p + 1, d).update(p + 1, c) =~= t);
}

/// A time stamp in the form `YYYY-MM-DD HH.MM`.
pub open spec fn is_stamp(st: Seq<char>) -> bool {
    &&& st.len() == 16
    &&& forall|i: int|
        0 <= i < st.len() ==> text::clen(#[trigger] st[i]) == 1 && lines::plain(st[i])
    &&& st[4] == '-'
    &&& st[7] == '-'
    &&& st[10] == ' '
    &&& st[13] == '.'
}

proof fn lemma_ascii_off(t: Seq<char>, n: int)
    requires
        0 <= n <= t.len(),
        forall|i: int| 0 <= i < n ==> text::clen(#[trigger] t[i]) == 1,
    ensures
        text::off(t, n) == n,
    decreases n,
{
    if n > 0 {
        lemma_ascii_off(t, n - 1);
        assert(text::clen(t[n - 1]) == 1);
    }
}

proof fn lemma_ascii_at(t: Seq<char>, n: int)
    requires
        0 <= n < t.len(),
        forall|i: int| 0 <= i <= n ==> text::clen(#[trigger] t[i]) == 1,
    ensures
        text::byte_is(t, n, t[n]),
{
    lemma_ascii_off(t, n);
    text::lemma_at_off(t, n);
}

/// An edit that replaces `n` bytes of the cursor's item from its start on.
proof fn lemma_item_edit(s: EdV, n: int, r: Seq<char>)
    requires
        0 <= s.line < s.line_count(),
        ({
            let l = s.line_text(s.line);
            &&& 0 < n
            &&& lead(l) + n <= l.len()
            &&& forall|j: int|
                lead(l) <= j < lead(l) + n ==> text::clen(#[trigger] l[j]) == 1
        }),
    ensures
        ({
            let t = s.buf.text;
            let p = lines::line_start(t, s.line) + lead(s.line_text(s.line));
            let a = s.item_start();
            &&& s.edit(a, a + n, r).buf.text == t.take(p) + r + t.skip(p + n)
        }),
{
    let t = s.buf.text;
    let k = s.line;
    let l = s.line_text(k);
    let i = lead(l);
    let b = lines::line_start(t, k);
    let p = b + i;
    lines::lemma_line_raw(t, k);
    text::lemma_skip_fwd(l, 0, lead_fn());
    text::lemma_off_sub(t, b, b + l.len(), i);
    assert(t.subrange(p, p + n) =~= l.subrange(i, i + n));
    text::lemma_off_sub(t, p, p + n, n);
    lemma_ascii_off(t.subrange(p, p + n), n);
    text::lemma_at_off(t, p);
    text::lemma_at_off(t, p + n);
    text::lemma_off_mono(t, 0, p);
}

/// The line of an item whose box is ticked with a time stamp.
proof fn lemma_stamped(l: Seq<char>, st: Seq<char>)
    requires
        boxed(l, '_'),
        is_stamp(st),
    ensures
        ({
            let r = tick(Some(st));
            let m = l.take(lead(l)) + r + l.skip(lead(l) + 3);
            &&& r.len() == 21
            &&& forall|j: int|
                0 <= j < 21 ==> lines::plain(#[trigger] r[j]) && text::clen(r[j]) == 1
            &&& lead(m) == lead(l)
            &&& boxed(m, 'x')
            &&& ticked_len(m.skip(lead(l))) == 21
        }),
{
    reveal_strlit("[x] ");
    reveal_strlit(":");
    let i = lead(l);
    let r = tick(Some(st));
    let m = l.take(i) + r + l.skip(i + 3);
    text::lemma_skip_fwd(l, 0, lead_fn());
    assert(r =~= seq!['[', 'x', ']', ' '] + st + seq![':']);
    assert forall|j: int| 0 <= j < 21 implies lines::plain(#[trigger] r[j]) && text::clen(r[j])
        == 1 by {
        if 4 <= j < 20 {
            assert(r[j] == st[j - 4]);
        }
    }
    lemma_lead(l, i, m);
    assert(m[i] == r[0] && m[i + 1] == r[1] && m[i + 2] == r[2] && m[i + 3] == r[3]);
    let rest = m.skip(i).skip(4);
    assert forall|j: int| 0 <= j < 17 implies #[trigger] rest[j] == r[j + 4] by {
        assert(rest[j] == m[i + 4 + j]);
    }
    assert(rest[4] == st[4] && rest[7] == st[7] && rest[10] == st[10] && rest[13] == st[13]);
    lemma_ascii_at(rest, 4);
    lemma_ascii_at(rest, 7);
    lemma_ascii_at(rest, 10);
    lemma_ascii_at(rest, 13);
    lemma_ascii_at(rest, 16);
}

/// An item's box ticked with a time stamp.
proof fn lemma_stamp(s: EdV, st: Seq<char>)
    requires
        0 <= s.line < s.line_count(),
        boxed(s.line_text(s.line), '_'),
        is_stamp(st),
    ensures
        ({
            let t = s.buf.text;
            let l = s.line_text(s.line);
            let p = lines::line_start(t, s.line) + lead(l);
            let r = tick(Some(st));
            let once = s.checkbox(Some(st));
            &&& once.line == s.line
            &&& once.buf.text == t.take(p) + r + t.skip(p + 3)
            &&& once.line_count() == s.line_count()
            &&& lines::line_start(once.buf.text, s.line) == lines::line_start(t, s.line)
            &&& once.line_text(s.line) == l.take(lead(l)) + r + l.skip(lead(l) + 3)
        }),
{
    reveal(EdV::checkbox);
    let t = s.buf.text;
    let l = s.line_text(s.line);
    let i = lead(l);
    text::lemma_skip_fwd(l, 0, lead_fn());
    lemma_boxed(l, '_');
    lemma_stamped(l, st);
    lemma_item_edit(s, 3, tick(Some(st)));
    assert forall|j: int| i <= j < i + 3 implies lines::plain(#[trigger] l[j]) by {
    }
    lines::lemma_within_line(t, s.line, i, i + 3, tick(Some(st)));
}

/// The tick of a box taken back with its time stamp.
proof fn lemma_unstamp(s: EdV, now: Option<Seq<char>>)
    requires
        0 <= s.line < s.line_count(),
        ({
            let l = s.line_text(s.line);
            &&& boxed(l, 'x')
            &&& lead(l) + 21 <= l.len()
            &&& ticked_len(l.skip(lead(l))) == 21
            &&& forall|j: int|
                lead(l) <= j < lead(l) + 21 ==> text::clen(#[trigger] l[j]) == 1
        }),
    ensures
        ({
            let t = s.buf.text;
            let p = lines::line_start(t, s.line) + lead(s.line_text(s.line));
            s.checkbox(now).buf.text == t.take(p) + "[_]"@ + t.skip(p + 21)
        }),
{
    reveal(EdV::checkbox);
    lemma_boxed(s.line_text(s.line), 'x');
    lemma_item_edit(s, 21, "[_]"@);
}

/// Text replaced and put back.
proof fn lemma_put_back(t: Seq<char>, p: int, a: Seq<char>, r: Seq<char>)
    requires
        0 <= p,
        p + a.len() <= t.len(),
        forall|k: int| 0 <= k < a.len() ==> a[k] == #[trigger] t[p + k],
    ensures
        ({
            let u = t.take(p) + r + t.skip(p + a.len());
            u.take(p) + a + u.skip((p + r.len()) as int) == t
        }),
{
    let u = t.take(p) + r + t.skip(p + a.len());
    let b = u.take(p) + a + u.skip((p + r.len()) as int);
    assert forall|j: int| 0 <= j < t.len() implies b[j] == t[j] by {
        if p <= j < p + a.len() {
            assert(b[j] == a[j - p]);
            assert(a[j - p] == t[p + (j - p)]);
        }
    }
    assert(b =~= t);
}

/// A box that is ticked with a time stamp goes back to what it was: the stamp
/// goes away with the tick.
pub proof fn law_stamp_goes_back(s: EdV, st: Seq<char>, now: Option<Seq<char>>)
    requires
        0 <= s.line < s.line_count(),
        boxed(s.line_text(s.line), '_'),
        is_stamp(st),
    ensures
        ({
            let l = s.line_text(s.line);
            let once = s.checkbox(Some(st));
            &&& once.line == s.line
            &&& once.line_text(s.line) == l.take(lead(l)) + "[x] "@ + st + ":"@ + l.skip(
                lead(l) + 3,
            )
            &&& once.checkbox(now).buf.text == s.buf.text
        }),
{
    reveal_strlit("[_]");
    let t = s.buf.text;
    let l = s.line_text(s.line);
    let i = lead(l);
    let p = lines::line_start(t, s.line) + i;
    let r = tick(Some(st));
    let once = s.checkbox(Some(st));
    lemma_stamp(s, st);
    lemma_stamped(l, st);
    let u = once.buf.text;
    let m = once.line_text(s.line);
    assert(m =~= l.take(i) + "[x] "@ + st + ":"@ + l.skip(i + 3));
    lines::lemma_line_raw(t, s.line);
    text::lemma_skip_fwd(l, 0, lead_fn());
    assert forall|j: int| i <= j < i + 21 implies text::clen(#[trigger] m[j]) == 1 by {
        assert(m[j] == r[j - i]);
    }
    lemma_unstamp(once, now);
    assert("[_]"@ =~= seq!['[', '_', ']']);
    assert(t[p] == l[i] && t[p + 1] == l[i + 1] && t[p + 2] == l[i + 2]);
    lemma_put_back(t, p, "[_]"@, r);
}

// ── What numbering and filtering do ─────────────────────────────────────

/// The number of the item above is what stands before the last period of the
/// path: its last part is the index, and the rest its path.
pub proof fn law_parent_number(path: Seq<char>, k: int)
    requires
        number::is_path(path),
        0 <= k <= u64::MAX,
    ensures
        parent_number(path + strs::dec_of(k) + seq!['.']) == (path, k),
{
    let d = strs::dec_of(k);
    let whole = path + d + seq!['.'];
    strs::lemma_dec_value(k);
    strs::law_decimal(k, u64::MAX as int);
    let f = strs::same_as('.');
    text::lemma_skip_back(whole, whole.len() as int, f);
    let m = text::skip_back(whole, whole.len() as int, f);
    let n = (path.len() + d.len()) as int;
    assert(whole[n - 1] == d[d.len() - 1]);
    assert(chars::is_digit(d[d.len() - 1]));
    assert(whole[n] == '.');
    if m < n {
        assert(f(whole[n - 1]));
    } else if m > n {
        assert(!f(whole[m - 1]));
    }
    let p = strs::without_back(whole, '.');
    assert(p =~= path + d);
    number::lemma_last_dot(path, d, p.len() as int);
    assert(p.take(path.len() as int) =~= path);
    assert(p.skip(path.len() as int) =~= d);
}

/// Enter with automatic numbers starts an item below with the same indentation
/// and the next number; the rest of the text stays. An item without a number
/// passes on its indentation alone.
pub proof fn law_next_number(s: EdV, n: number::NumberV)
    requires
        0 <= s.line < s.line_count(),
    ensures
        ({
            let t = s.buf.text;
            let l = s.line_text(s.line);
            let e = lines::line_start(t, s.line) + l.len();
            let lvl = fold::level(l);
            let r = s.numbered_newline();
            &&& number::item_number(l.skip(lvl)) == Some(n) ==> r.buf.text == t.take(e) + (seq!['\n']
                + l.take(lvl) + number::number_text(
                number::NumberV { path: n.path, index: n.index + 1, dot: n.dot },
            ) + seq![' ']) + t.skip(e)
            &&& number::item_number(l.skip(lvl)) is None ==> r.buf.text == t.take(e) + (seq!['\n']
                + l.take(lvl)) + t.skip(e)
        }),
{
    reveal(EdV::numbered_newline);
    reveal_strlit("\n");
    reveal_strlit(" ");
    assert("\n"@ =~= seq!['\n']);
    assert(" "@ =~= seq![' ']);
    let t = s.buf.text;
    let l = s.line_text(s.line);
    let e = lines::line_start(t, s.line) + l.len();
    lines::lemma_line_raw(t, s.line);
    let m = marks_of(l);
    match number::item_number(body_of(l)) {
        Some(x) => {
            let y = number::number_text(NumberV { index: x.index + 1, ..x });
            edits::law_edit(s, e, e, "\n"@ + m + y + " "@);
        },
        None => {
            edits::law_edit(s, e, e, "\n"@ + m);
        },
    }
}

/// Line `l` is indented by just `marks`.
pub open spec fn is_peer(l: Seq<char>, marks: Seq<char>) -> bool {
    marks.len() <= l.len() && l.take(marks.len() as int) == marks && fold::level(l) == marks.len()
}

/// Lines among `a..b` that are indented by just `marks`.
pub open spec fn peers(t: Seq<char>, marks: Seq<char>, a: int, b: int) -> int
    decreases b - a,
{
    if a >= b {
        0
    } else {
        peers(t, marks, a, b - 1) + if is_peer(lines::line_text(t, b - 1), marks) {
            1int
        } else {
            0int
        }
    }
}

/// An item with another number: its indentation, the number, a blank, and the
/// item less the number that it had.
pub open spec fn numbered(l: Seq<char>, marks: Seq<char>, n: NumberV) -> Seq<char> {
    let body = l.skip(marks.len() as int);
    marks + number::number_text(n) + seq![' '] + body.skip(number::number_width(body))
}

proof fn lemma_ascii(l: Seq<char>, a: int, n: int)
    requires
        0 <= a,
        0 <= n,
        a + n <= l.len(),
        forall|k: int| a <= k < a + n ==> (#[trigger] l[k] as u32) < 0x80,
    ensures
        text::off(l, a + n) == text::off(l, a) + n,
    decreases n,
{
    if n > 0 {
        lemma_ascii(l, a, n - 1);
        assert((l[a + n - 1] as u32) < 0x80);
    }
}

proof fn lemma_renumber_step(s: EdV, k: int, marks: Seq<char>, n: NumberV)
    requires
        0 <= k < s.line_count(),
        is_peer(s.line_text(k), marks),
    ensures
        ({
            let t = s.buf.text;
            let l = s.line_text(k);
            let st = lines::line_start(t, k);
            let a = lines::line_off(t, k) + text::blen(marks);
            s.edit(
                a,
                a + number::number_width(l.skip(marks.len() as int)),
                number::number_text(n) + " "@,
            ).buf.text == t.take(st) + numbered(l, marks, n) + t.skip(st + l.len())
        }),
{
    reveal_strlit(" ");
    assert(" "@ =~= seq![' ']);
    let t = s.buf.text;
    let l = s.line_text(k);
    let st = lines::line_start(t, k);
    let m = marks.len() as int;
    let body = l.skip(m);
    let w = number::number_width(body);
    lines::lemma_line_raw(t, k);
    number::lemma_number_width(body);
    assert forall|j: int| 0 <= j < m implies marks[j] == l[j] by {
        assert(l.take(m)[j] == l[j]);
    }
    text::lemma_off_prefix(marks, l, m);
    assert(text::off(l, m) == text::off(t, st + m) - lines::line_off(t, k));
    assert forall|j: int| m <= j < m + w implies (#[trigger] l[j] as u32) < 0x80 by {
        assert(body[j - m] == l[j]);
    }
    lemma_ascii(l, m, w);
    assert(text::off(l, m + w) == text::off(t, st + (m + w)) - lines::line_off(t, k));
    let x = number::number_text(n) + " "@;
    edits::law_edit(s, st + m, st + m + w, x);
    assert(t.take(st + m) =~= t.take(st) + marks);
    assert(t.skip(st + m + w) =~= body.skip(w) + t.skip(st + l.len()));
    assert(t.take(st + m) + x + t.skip(st + m + w) =~= t.take(st) + numbered(l, marks, n) + t.skip(
        st + l.len(),
    ));
}

proof fn lemma_numbered_plain(l: Seq<char>, marks: Seq<char>, n: NumberV)
    requires
        lines::all_plain(l),
        is_peer(l, marks),
        lines::all_plain(n.path),
        0 <= n.index,
    ensures
        lines::all_plain(numbered(l, marks, n)),
{
    reveal_strlit(".");
    reveal_strlit("");
    let body = l.skip(marks.len() as int);
    let w = number::number_width(body);
    number::lemma_number_width(body);
    strs::lemma_dec_value(n.index);
    let d = strs::dec_of(n.index);
    let x = number::number_text(n);
    let y = numbered(l, marks, n);
    assert forall|i: int| 0 <= i < x.len() implies lines::plain(#[trigger] x[i]) by {
        if i < n.path.len() {
            assert(x[i] == n.path[i]);
            assert(lines::plain(n.path[i]));
        } else if i < n.path.len() + d.len() {
            assert(x[i] == d[i - n.path.len()]);
            assert(chars::is_digit(d[i - n.path.len()]));
        } else {
            assert(x[i] == '.');
        }
    }
    assert forall|i: int| 0 <= i < y.len() implies lines::plain(#[trigger] y[i]) by {
        let m = marks.len() as int;
        if i < m {
            assert(y[i] == marks[i]);
            assert(l.take(m)[i] == l[i]);
            assert(lines::plain(l[i]));
        } else if i < m + x.len() {
            assert(y[i] == x[i - m]);
            assert(lines::plain(x[i - m]));
        } else if i > m + x.len() {
            let j = i - m - x.len() - 1;
            assert(y[i] == body.skip(w)[j]);
            assert(y[i] == l[m + w + j]);
            assert(lines::plain(l[m + w + j]));
        }
    }
}

/// Renumbering gives the items of the lines `k..=l2` that are indented by just
/// `marks` numbers that follow one another, from `n` on, each in place of the
/// number that it had; deeper and shallower lines, and all lines outside, stay
/// as they are. The text has no line breaks but line feeds.
pub proof fn law_renumbered(s: EdV, k: int, l2: int, marks: Seq<char>, n: NumberV)
    requires
        lines::simple(s.buf.text),
        lines::all_plain(n.path),
        0 <= n.index,
        0 <= k <= l2 + 1 <= s.line_count(),
    ensures
        ({
            let t = s.buf.text;
            let u = s.renumber_from(k, l2, marks, n).buf.text;
            &&& lines::line_count(u) == lines::line_count(t)
            &&& lines::simple(u)
            &&& forall|j: int|
                0 <= j < lines::line_count(t) ==> #[trigger] lines::line_text(u, j) == if k <= j
                    <= l2 && is_peer(lines::line_text(t, j), marks) {
                    numbered(
                        lines::line_text(t, j),
                        marks,
                        NumberV {
                            path: n.path,
                            index: n.index + peers(t, marks, k, j),
                            dot: n.dot,
                        },
                    )
                } else {
                    lines::line_text(t, j)
                }
        }),
    decreases l2 - k + 1,
{
    let t = s.buf.text;
    if k <= l2 {
        let l = s.line_text(k);
        if is_peer(l, marks) {
            lemma_renumber_step(s, k, marks, n);
            lines::lemma_simple_line(t, k);
            lemma_numbered_plain(l, marks, n);
            lines::lemma_line_set(t, k, numbered(l, marks, n));
            let a = lines::line_off(t, k) + text::blen(marks);
            let q = s.edit(
                a,
                a + number::number_width(l.skip(marks.len() as int)),
                number::number_text(n) + " "@,
            );
            let n1 = NumberV { index: n.index + 1, ..n };
            law_renumbered(q, k + 1, l2, marks, n1);
            let u = s.renumber_from(k, l2, marks, n).buf.text;
            assert forall|j: int| 0 <= j < lines::line_count(t) implies #[trigger] lines::line_text(
                u,
                j,
            ) == (if k <= j <= l2 && is_peer(lines::line_text(t, j), marks) {
                numbered(
                    lines::line_text(t, j),
                    marks,
                    NumberV { path: n.path, index: n.index + peers(t, marks, k, j), dot: n.dot },
                )
            } else {
                lines::line_text(t, j)
            }) by {
                if j > k {
                    lemma_peers_same(t, q.buf.text, marks, k + 1, j);
                    lemma_peers_front(t, marks, k, j);
                }
            }
        } else {
            law_renumbered(s, k + 1, l2, marks, n);
            assert forall|j: int| k < j implies peers(t, marks, k, j) == #[trigger] peers(
                t,
                marks,
                k + 1,
                j,
            ) by {
                lemma_peers_front(t, marks, k, j);
            }
        }
    }
}

proof fn lemma_peers_front(t: Seq<char>, marks: Seq<char>, k: int, j: int)
    requires
        k < j,
    ensures
        peers(t, marks, k, j) == peers(t, marks, k + 1, j) + if is_peer(
            lines::line_text(t, k),
            marks,
        ) {
            1int
        } else {
            0int
        },
    decreases j - k,
{
    if k + 1 < j {
        lemma_peers_front(t, marks, k, j - 1);
    } else {
        assert(peers(t, marks, k, k) == 0);
    }
}

proof fn lemma_peers_same(t: Seq<char>, u: Seq<char>, marks: Seq<char>, a: int, b: int)
    requires
        0 <= a,
        b <= lines::line_count(t),
        forall|j: int|
            a <= j < b ==> #[trigger] lines::line_text(u, j) == lines::line_text(t, j),
    ensures
        peers(u, marks, a, b) == peers(t, marks, a, b),
    decreases b - a,
{
    if a < b {
        lemma_peers_same(t, u, marks, a, b - 1);
        assert(lines::line_text(u, b - 1) == lines::line_text(t, b - 1));
    }
}

proof fn lemma_hide_runs(f: FoldsV, hidden: Seq<bool>, i: int, start: Option<int>, line: int)
    requires
        0 <= i <= hidden.len(),
        f.closed == Set::<int>::empty(),
        start matches Some(s) ==> 0 <= s < i && (forall|k: int| s <= k < i ==> #[trigger] hidden[k])
            && (s > 0 ==> !hidden[s - 1]),
        start is None && i > 0 ==> !hidden[i - 1],
        0 <= line < hidden.len(),
        forall|ls: Seq<Seq<char>>|
            #[trigger] f.visible(line, ls) == !(0 < line && line < (if start is Some {
                start->0
            } else {
                i
            }) && hidden[line] && hidden[line - 1]),
    ensures
        forall|ls: Seq<Seq<char>>|
            #[trigger] hide_runs(f, hidden, i, start).visible(line, ls) == !(0 < line
                && hidden[line] && hidden[line - 1]),
    decreases hidden.len() - i,
{
    if i < hidden.len() && hidden[i] {
        let from = match start {
            Some(s) => Some(s),
            None => Some(i),
        };
        lemma_hide_runs(f, hidden, i + 1, from, line);
        assert(hide_runs(f, hidden, i, start) == hide_runs(f, hidden, i + 1, from));
    } else {
        let e = i - 1;
        let g = match start {
            Some(s) => f.close_range(s, e),
            None => f,
        };
        assert forall|ls: Seq<Seq<char>>|
            #[trigger] g.visible(line, ls) == !(0 < line && line < i && hidden[line] && hidden[line
                - 1]) by {
            lemma_range_closed(f, g, start, e, line, ls);
            if start is Some {
                let s = start->0;
                if s < line <= e {
                    assert(hidden[line]);
                    assert(hidden[line - 1]);
                } else if line == s && s > 0 {
                    assert(!hidden[s - 1]);
                }
            }
        }
        if i < hidden.len() {
            assert forall|ls: Seq<Seq<char>>|
                #[trigger] g.visible(line, ls) == !(0 < line && line < i + 1 && hidden[line]
                    && hidden[line - 1]) by {
            }
            lemma_hide_runs(g, hidden, i + 1, None, line);
            assert(hide_runs(f, hidden, i, start) == hide_runs(g, hidden, i + 1, None));
        } else {
            assert(hide_runs(f, hidden, i, start) == g);
        }
    }
}

proof fn lemma_range_closed(
    f: FoldsV,
    g: FoldsV,
    start: Option<int>,
    e: int,
    line: int,
    ls: Seq<Seq<char>>,
)
    requires
        f.closed == Set::<int>::empty(),
        g == (match start {
            Some(s) => f.close_range(s, e),
            None => f,
        }),
    ensures
        g.closed == Set::<int>::empty(),
        g.visible(line, ls) == (f.visible(line, ls) && !(start is Some && start->0 < line <= e)),
{
    if start is Some && e > start->0 {
        let s = start->0;
        assert(g.explicit == f.explicit.push((s, e)));
        assert(g.explicit[f.explicit.len() as int] == (s, e));
        assert forall|x: int| !#[trigger] f.hides(x, line, ls) by {
        }
        assert forall|x: int| !#[trigger] g.hides(x, line, ls) by {
        }
        if f.visible(line, ls) && !(s < line <= e) {
            assert forall|i: int| 0 <= i < g.explicit.len() implies !((#[trigger] g.explicit[i]).0
                < line <= g.explicit[i].1) by {
                if i < f.explicit.len() {
                    assert(g.explicit[i] == f.explicit[i]);
                }
            }
        } else if g.visible(line, ls) {
            assert forall|i: int| 0 <= i < f.explicit.len() implies !((#[trigger] f.explicit[i]).0
                < line <= f.explicit[i].1) by {
                assert(g.explicit[i] == f.explicit[i]);
            }
        }
    }
}

/// Of the lines that a filter hides, each run of them leaves its first line in
/// sight, to show that there is something; all the lines that it does not hide
/// are in sight.
pub proof fn law_filtered(hidden: Seq<bool>, line: int, ls: Seq<Seq<char>>)
    requires
        0 <= line < hidden.len(),
    ensures
        hide_runs(FoldsV::none(), hidden, 0, None).visible(line, ls) == !(0 < line && hidden[line]
            && hidden[line - 1]),
{
    let f = FoldsV::none();
    assert forall|ls: Seq<Seq<char>>|
        #[trigger] f.visible(line, ls) == !(0 < line && line < 0 && hidden[line] && hidden[line - 1]) by {
    }
    lemma_hide_runs(f, hidden, 0, None, line);
}

/// References are counted one after the other: from an opening bracket to the
/// next closing one.
pub proof fn law_references_counted(a: Seq<char>, b: Seq<char>, c: Seq<char>)
    requires
        !a.contains('<'),
        !b.contains('>'),
    ensures
        refs_from(a, 0) == 0,
        refs_from(a + seq!['<'] + b + seq!['>'] + c, 0) == 1 + refs_from(c, 0),
{
    let l = a + seq!['<'] + b + seq!['>'] + c;
    let p = strs::other_than('<');
    let q = strs::other_than('>');
    text::lemma_skip_fwd(a, 0, p);
    if text::skip_fwd(a, 0, p) < a.len() {
        assert(a.contains(a[text::skip_fwd(a, 0, p)]));
    }
    text::lemma_skip_fwd(l, 0, p);
    let i = text::skip_fwd(l, 0, p);
    let m = a.len() as int;
    assert(l[m] == '<');
    if i < m {
        assert(l[i] == a[i]);
        assert(a.contains(a[i]));
    } else if i > m {
        assert(p(l[m]));
    }
    text::lemma_skip_fwd(l, m, q);
    let j = text::skip_fwd(l, m, q);
    let n = m + 1 + b.len();
    assert(l[n] == '>');
    if j < n {
        if j == m {
            assert(!q(l[m]));
        } else {
            assert(l[j] == b[j - m - 1]);
            assert(b.contains(b[j - m - 1]));
        }
    } else if j > n {
        assert(q(l[n]));
    }
    lemma_refs_shift(l, n + 1, n + 1);
    assert(l.skip(n + 1) =~= c);
}

proof fn lemma_refs_shift(l: Seq<char>, n: int, i: int)
    requires
        0 <= n <= i <= l.len(),
    ensures
        refs_from(l, i) == refs_from(l.skip(n), i - n),
    decreases l.len() - i,
{
    let p = strs::other_than('<');
    let q = strs::other_than('>');
    strs::lemma_skip_shift(l, n, i, p);
    text::lemma_skip_fwd(l, i, p);
    let a = text::skip_fwd(l, i, p);
    strs::lemma_skip_shift(l, n, a, q);
    text::lemma_skip_fwd(l, a, q);
    let b = text::skip_fwd(l, a, q);
    if a < l.len() && b < l.len() {
        lemma_refs_shift(l, n, b + 1);
    }
}

/// The next template element is the first line from the cursor's on that ends
/// with an equals sign, and typing goes on at its end; with none the text and
/// the cursor stay.
pub proof fn law_next_template(s: EdV, k: int)
    requires
        0 <= s.line <= k < s.line_count(),
        strs::suffixed(strs::trim_end_of(s.line_text(k)), "="@),
        forall|j: int|
            s.line <= j < k ==> !strs::suffixed(
                strs::trim_end_of(#[trigger] s.line_text(j)),
                "="@,
            ),
    ensures
        s.next_template().line == k,
        s.next_template().mode is Insert,
        s.next_template().buf.text == s.buf.text,
{
    reveal(EdV::next_template);
    lemma_template(s, s.line, k);
}

proof fn lemma_template(s: EdV, i: int, k: int)
    requires
        0 <= i <= k < s.line_count(),
        strs::suffixed(strs::trim_end_of(s.line_text(k)), "="@),
        forall|j: int|
            i <= j < k ==> !strs::suffixed(strs::trim_end_of(#[trigger] s.line_text(j)), "="@),
    ensures
        s.template_from(i) == Some(k),
    decreases k - i,
{
    if i < k {
        assert(!strs::suffixed(strs::trim_end_of(s.line_text(i)), "="@));
        lemma_template(s, i + 1, k);
    }
}

/// Enter with automatic numbers opens a line right below, with the same marks
/// before it, and gives it the number that follows.
pub proof fn law_numbered_newline(s: EdV)
    requires
        0 <= s.line < s.line_count(),
    ensures
        ({
            let t = s.buf.text;
            let l = s.line_text(s.line);
            let e = lines::line_start(t, s.line) + l.len();
            let u = s.numbered_newline().buf.text;
            match number::item_number(body_of(l)) {
                Some(n) => u == t.take(e) + ("\n"@ + marks_of(l) + number::number_text(
                    NumberV { path: n.path, index: n.index + 1, dot: n.dot },
                ) + " "@) + t.skip(e),
                None => u == t.take(e) + ("\n"@ + marks_of(l)) + t.skip(e),
            }
        }),
{
    reveal(EdV::numbered_newline);
    let t = s.buf.text;
    let l = s.line_text(s.line);
    let n = l.len() as int;
    let st = lines::line_start(t, s.line);
    lines::lemma_line_raw(t, s.line);
    assert(text::off(l, n) == text::off(t, st + n) - lines::line_off(t, s.line));
    let m = marks_of(l);
    match number::item_number(body_of(l)) {
        Some(x) => {
            let y = number::number_text(NumberV { index: x.index + 1, ..x });
            crate::editor::edits::law_edit(s, st + n, st + n, "\n"@ + m + y + " "@);
        },
        None => {
            crate::editor::edits::law_edit(s, st + n, st + n, "\n"@ + m);
        },
    }
}

} // verus!
