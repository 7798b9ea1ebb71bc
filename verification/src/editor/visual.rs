//! Visual selections and what is done to them.

use vstd::prelude::*;
use vstd::string::*;
use crate::buffer;
use crate::chars;
use crate::chars::{lower_char, upper_char};
use crate::cols;
use crate::cols::{byte_at_or_past_col, display_col};
use crate::editor::cursor;
use crate::editor::motions;
use crate::editor::motions::step_byte;
use crate::editor::ops;
use crate::editor::repeat;
use crate::editor::state;
use crate::editor::state::{BlockInsert, BlockV, Editor, EdV, Pending};
use crate::fold;
use crate::lines;
use crate::mode::Mode;
use crate::register::YankKind;
use crate::strs;
use crate::strs::{cat2, join, one, repeat};
use crate::text;
use crate::text::{byte_len, chars_of, index_at, piece};

verus! {

#[derive(Clone, Copy, Debug, PartialEq, Eq, Structural)]
pub enum CaseOp {
    Lower,
    Upper,
    Toggle,
}

/// A character in another case, which may be several characters.
pub open spec fn recased(c: char, op: CaseOp) -> Seq<char> {
    match op {
        CaseOp::Lower => chars::lower_char_of(c),
        CaseOp::Upper => chars::upper_char_of(c),
        CaseOp::Toggle => if chars::is_upper(c) {
            chars::lower_char_of(c)
        } else if chars::is_lower(c) {
            chars::upper_char_of(c)
        } else {
            seq![c]
        },
    }
}

/// The first `n` characters in another case.
pub open spec fn recased_text(t: Seq<char>, op: CaseOp, n: int) -> Seq<char>
    decreases n,
{
    if n <= 0 {
        Seq::empty()
    } else {
        recased_text(t, op, n - 1) + recased(t[n - 1], op)
    }
}

/// Every character replaced, but line feeds kept.
pub open spec fn overwritten(t: Seq<char>, c: char) -> Seq<char> {
    Seq::new(
        t.len(),
        |i: int|
            if t[i] == '\n' {
                '\n'
            } else {
                c
            },
    )
}

pub proof fn lemma_col_order(l: Seq<char>, a: int, b: int, ts: int, n: int)
    requires
        a <= b,
        0 <= n <= l.len(),
    ensures
        cols::reach_col(l, a, ts, n) <= cols::reach_col(l, b, ts, n) <= l.len(),
        n <= cols::reach_col(l, a, ts, n),
    decreases l.len() - n,
{
    cols::lemma_reach_col(l, a, ts, n);
    cols::lemma_reach_col(l, b, ts, n);
    if n < l.len() {
        if !(cols::col_after(l, n, ts) >= b || cols::col_after(l, n, ts) + cols::cell(
            l[n],
            cols::col_after(l, n, ts),
            ts,
        ) > b) {
            if !(cols::col_after(l, n, ts) >= a || cols::col_after(l, n, ts) + cols::cell(
                l[n],
                cols::col_after(l, n, ts),
                ts,
            ) > a) {
                lemma_col_order(l, a, b, ts, n + 1);
            } else {
                cols::lemma_reach_col(l, b, ts, n + 1);
            }
        }
    }
}

impl EdV {
    pub open spec fn enter_visual(self, kind: Mode) -> EdV {
        let s = EdV {
            mode: kind,
            anchor: self.cursor(),
            anchor_line: self.line,
            anchor_col: self.col,
            ..self
        };
        if kind is VisualBlock {
            let v = self.cursor_column();
            EdV { vb_anchor: v, vb_cur: v, ..s }
        } else {
            s
        }
    }

    /// Display column of the cursor.
    pub open spec fn cursor_column(self) -> int {
        let l = self.line_text(self.line);
        cols::column(l, state::min(self.col, text::blen(l)), self.tabstop())
    }

    /// Byte range of a selection by character, the cursor's cell included.
    pub open spec fn visual_range(self) -> (int, int) {
        let cur = self.cursor();
        if cur < self.anchor {
            (cur, motions::next_byte(self.buf.text, self.anchor))
        } else {
            (self.anchor, motions::next_byte(self.buf.text, cur))
        }
    }

    pub open spec fn top_line(self) -> int {
        state::min(self.anchor_line, self.line)
    }

    pub open spec fn bottom_line(self) -> int {
        state::max(self.anchor_line, self.line)
    }

    /// Byte range of a selection by line.
    pub open spec fn visual_line_range(self) -> (int, int) {
        (self.lines_start(self.top_line()), self.lines_end(self.bottom_line()))
    }

    pub open spec fn left_col(self) -> int {
        state::min(self.vb_anchor, self.vb_cur)
    }

    pub open spec fn right_col(self) -> int {
        state::max(self.vb_anchor, self.vb_cur)
    }

    /// Indices of the characters of line `k` that columns `v1..=v2` cover.
    pub open spec fn block_span(self, k: int, v1: int, v2: int) -> (int, int) {
        let l = self.line_text(k);
        let ts = self.tabstop();
        (cols::index_at_col(l, v1, ts), cols::index_at_col(l, state::plus(v2, 1), ts))
    }

    /// The row of a block on line `k`, padded on the left where the line does
    /// not reach the block.
    pub open spec fn block_row(self, k: int, v1: int, v2: int) -> Seq<char> {
        let l = self.line_text(k);
        let (i, j) = self.block_span(k, v1, v2);
        ops::spaces(state::minus(v1, cols::col_after(l, i, self.tabstop()))) + l.subrange(i, j)
    }

    /// Line `k` with its row of the block replaced by `r` for each character.
    pub open spec fn block_fill(self, k: int, v1: int, v2: int, r: Seq<char>) -> EdV {
        let l = self.line_text(k);
        let (i, j) = self.block_span(k, v1, v2);
        let o = lines::line_off(self.buf.text, k);
        if j <= i {
            self
        } else {
            self.edit(o + text::off(l, i), o + text::off(l, j), strs::repeated(r, j - i))
        }
    }

    /// As [`EdV::block_fill`], on the lines from `k` up to `l1`.
    pub open spec fn block_fill_all(
        self,
        k: int,
        l1: int,
        v1: int,
        v2: int,
        r: Seq<char>,
    ) -> EdV
        decreases k - l1 + 1,
    {
        if k < l1 {
            self
        } else {
            self.block_fill(k, v1, v2, r).block_fill_all(k - 1, l1, v1, v2, r)
        }
    }

    /// The rows of a block, top first, each read before it is deleted if
    /// `cut` says so.
    pub open spec fn block_rows(
        self,
        k: int,
        l1: int,
        v1: int,
        v2: int,
        cut: bool,
    ) -> Seq<Seq<char>>
        decreases k - l1 + 1,
    {
        if k < l1 {
            Seq::empty()
        } else {
            let s = if cut {
                self.block_fill(k, v1, v2, Seq::empty())
            } else {
                self
            };
            s.block_rows(k - 1, l1, v1, v2, cut).push(self.block_row(k, v1, v2))
        }
    }

    /// The block in the register, the cursor at its top left corner.
    pub open spec fn yank_block(self) -> EdV {
        let k = YankKind::Block;
        let t = strs::joined(
            self.block_rows(
                self.bottom_line(),
                self.top_line(),
                self.left_col(),
                self.right_col(),
                false,
            ),
            "\n"@,
        );
        EdV { line: self.top_line(), ..self.yank(t, k).say_yank("yanked"@, k, t) }.at_col(
            self.left_col(),
        )
    }

    /// The block deleted, as one step, and put in the register.
    pub open spec fn cut_block(self, verb: Seq<char>) -> EdV {
        let l1 = self.top_line();
        let l2 = self.bottom_line();
        let v1 = self.left_col();
        let v2 = self.right_col();
        let k = YankKind::Block;
        let o = self.open_undo();
        let t = strs::joined(o.block_rows(l2, l1, v1, v2, true), "\n"@);
        let s = o.block_fill_all(l2, l1, v1, v2, Seq::empty()).cut(t, k).say_yank(
            verb,
            k,
            t,
        ).close_undo();
        EdV { line: l1, ..s }.at_col(v1)
    }

    /// Inserting goes on in the top line, for the lines below to follow.
    pub open spec fn follow_block(self, l1: int, l2: int, v1: int) -> EdV {
        let s = self.enter_insert();
        if l2 > l1 {
            EdV {
                block: Some(
                    BlockV {
                        vcol: v1,
                        lines: Seq::new((l2 - l1) as nat, |i: int| l1 + 1 + i),
                    },
                ),
                ..s
            }
        } else {
            s
        }
    }

    /// An operator on a block: `y` yanks, `d` deletes, and `c` deletes and goes
    /// on to insert. Those that work on whole lines take the lines of the
    /// block.
    #[verifier::opaque]
    pub open spec fn op_block(self, op: char) -> EdV {
        if op == 'y' {
            self.yank_block()
        } else if op == 'c' {
            self.cut_block("changed"@).follow_block(
                self.top_line(),
                self.bottom_line(),
                self.left_col(),
            )
        } else if op == 'd' {
            self.cut_block("deleted"@)
        } else if repeat::whole_lines(op) {
            self.op_linewise(self.top_line(), self.bottom_line() - self.top_line())
        } else {
            self
        }
    }

    #[verifier::opaque]
    pub open spec fn visual_op(self, op: char) -> EdV {
        let s = EdV { pending: Pending { operator: Some(op), ..self.pending }, ..self };
        let r = match self.mode {
            Mode::Visual => s.op_charwise(op, s.visual_range().0, s.visual_range().1),
            Mode::VisualLine => s.place(s.top_line(), s.col).op_linewise(
                s.top_line(),
                s.bottom_line() - s.top_line(),
            ),
            Mode::VisualBlock => s.op_block(op),
            _ => s,
        };
        (if op != 'c' {
            EdV { mode: Mode::Normal, ..r }
        } else {
            r
        }).clear_pending()
    }

    #[verifier::opaque]
    pub open spec fn visual_case(self, op: CaseOp) -> EdV {
        let (a, b) = if self.mode is Visual {
            self.visual_range()
        } else {
            self.visual_line_range()
        };
        let t = self.taken(a, b);
        if self.mode is Visual || self.mode is VisualLine {
            EdV {
                mode: Mode::Normal,
                ..self.edit(a, b, recased_text(t, op, t.len() as int)).goto(a)
            }
        } else {
            self
        }
    }

    /// Every character of the selection replaced by `c`.
    #[verifier::opaque]
    pub open spec fn visual_replace(self, c: char) -> EdV {
        let s = match self.mode {
            Mode::VisualBlock => {
                let o = self.open_undo().block_fill_all(
                    self.bottom_line(),
                    self.top_line(),
                    self.left_col(),
                    self.right_col(),
                    seq![c],
                ).close_undo();
                EdV { line: self.top_line(), ..o }.at_col(self.left_col())
            },
            Mode::Visual => {
                let (a, b) = self.visual_range();
                self.edit(a, b, overwritten(self.taken(a, b), c)).goto(a)
            },
            Mode::VisualLine => {
                let (a, b) = self.visual_line_range();
                self.edit(a, b, overwritten(self.taken(a, b), c)).goto(a)
            },
            _ => self,
        };
        EdV { mode: Mode::Normal, ..s }.clear_pending()
    }

    /// The cursor at the block's column on its line.
    pub open spec fn sync_block(self) -> EdV {
        self.at_col(self.vb_cur)
    }
}

impl Editor {
    /// Starts a selection at the cursor.
    pub fn enter_visual(&mut self, kind: Mode)
        requires
            old(self).wf(),
        ensures
            final(self)@ == old(self)@.enter_visual(kind),
            final(self).wf(),
    {
        let cur: usize = self.cursor_byte();
        self.mode = kind;
        self.visual_anchor = cur;
        self.visual_anchor_line = self.cur_line;
        self.visual_anchor_col = self.cur_col;
        if kind == Mode::VisualBlock {
            let v: usize = self.cursor_column();
            self.vblock_anchor_vcol = v;
            self.vblock_cur_vcol = v;
        }
    }

    /// Display column of the cursor.
    pub fn cursor_column(&self) -> (v: usize)
        ensures
            v == self@.cursor_column(),
    {
        let l: String = self.buf.line(self.cur_line);
        let n: usize = byte_len(&l);
        display_col(
            &l,
            if self.cur_col <= n {
                self.cur_col
            } else {
                n
            },
            self.tabstop(),
        )
    }

    /// Byte range of a selection by character.
    pub fn visual_range(&self) -> (r: (usize, usize))
        requires
            self.wf(),
        ensures
            (r.0 as int, r.1 as int) == self@.visual_range(),
    {
        let cur: usize = self.cursor_byte();
        let v: Vec<char> = self.buf.chars();
        if cur < self.visual_anchor {
            (cur, step_byte(&v, self.visual_anchor))
        } else {
            (self.visual_anchor, step_byte(&v, cur))
        }
    }

    /// First and last line of the selection.
    pub fn visual_lines(&self) -> (r: (usize, usize))
        ensures
            r.0 == self@.top_line(),
            r.1 == self@.bottom_line(),
            r.0 <= r.1,
    {
        if self.visual_anchor_line <= self.cur_line {
            (self.visual_anchor_line, self.cur_line)
        } else {
            (self.cur_line, self.visual_anchor_line)
        }
    }

    /// Byte offset at which the line after `k` starts.
    pub(crate) fn line_end_offset(&self, k: usize) -> (b: usize)
        ensures
            b == self@.lines_end(k as int),
    {
        let n: usize = self.buf.line_count();
        if k >= n {
            proof {
                lines::lemma_line_start(self@.buf.text, k + 1);
            }
            self.buf.len_bytes()
        } else {
            self.buf.line_byte_offset(k + 1)
        }
    }

    /// Byte range of a selection by line.
    pub fn visual_line_range(&self) -> (r: (usize, usize))
        ensures
            (r.0 as int, r.1 as int) == self@.visual_line_range(),
    {
        let (l1, l2) = self.visual_lines();
        (self.buf.line_byte_offset(l1), self.line_end_offset(l2))
    }

    /// Left and right display column of the block.
    pub fn visual_cols(&self) -> (r: (usize, usize))
        ensures
            r.0 == self@.left_col(),
            r.1 == self@.right_col(),
            r.0 <= r.1,
    {
        if self.vblock_anchor_vcol <= self.vblock_cur_vcol {
            (self.vblock_anchor_vcol, self.vblock_cur_vcol)
        } else {
            (self.vblock_cur_vcol, self.vblock_anchor_vcol)
        }
    }

    fn block_row(&self, k: usize, v1: usize, v2: usize) -> (s: String)
        requires
            v1 <= v2,
        ensures
            s@ == self@.block_row(k as int, v1 as int, v2 as int),
    {
        let l: String = self.buf.line(k);
        let ts: usize = self.tabstop();
        let (a, c) = byte_at_or_past_col(&l, v1, ts);
        let (b, _d) = byte_at_or_past_col(&l, v2.saturating_add(1), ts);
        let v: Vec<char> = chars_of(&l);
        let i: usize = index_at(&v, a);
        let j: usize = index_at(&v, b);
        proof {
            lemma_col_order(l@, v1 as int, state::plus(v2 as int, 1), ts as int, 0);
            text::lemma_at_off(l@, cols::index_at_col(l@, v1 as int, ts as int));
            text::lemma_at_off(
                l@,
                cols::index_at_col(l@, state::plus(v2 as int, 1), ts as int),
            );
        }
        let pad: String = repeat(
            " ",
            if v1 >= c {
                v1 - c
            } else {
                0
            },
        );
        cat2(&pad, &piece(&v, i, j))
    }

    fn block_fill(&mut self, k: usize, v1: usize, v2: usize, r: &str)
        requires
            old(self).ok(),
            v1 <= v2,
        ensures
            final(self)@ == old(self)@.block_fill(k as int, v1 as int, v2 as int, r@),
            final(self).ok(),
            final(self)@.buf.depth == old(self)@.buf.depth,
    {
        let l: String = self.buf.line(k);
        let ts: usize = self.tabstop();
        let (a, _c) = byte_at_or_past_col(&l, v1, ts);
        let (b, _d) = byte_at_or_past_col(&l, v2.saturating_add(1), ts);
        let v: Vec<char> = chars_of(&l);
        let i: usize = index_at(&v, a);
        let j: usize = index_at(&v, b);
        proof {
            lemma_col_order(l@, v1 as int, state::plus(v2 as int, 1), ts as int, 0);
            text::lemma_at_off(l@, cols::index_at_col(l@, v1 as int, ts as int));
            text::lemma_at_off(
                l@,
                cols::index_at_col(l@, state::plus(v2 as int, 1), ts as int),
            );
            lines::lemma_line_raw(self@.buf.text, k as int);
        }
        if j <= i {
            return;
        }
        let total: usize = self.buf.len_bytes();
        let o: usize = self.buf.line_byte_offset(k);
        self.edit(o + a, o + b, &repeat(r, j - i));
    }

    fn block_fill_all(&mut self, l1: usize, l2: usize, v1: usize, v2: usize, r: &str)
        requires
            old(self).ok(),
            l1 <= l2,
            v1 <= v2,
        ensures
            final(self)@ == old(self)@.block_fill_all(
                l2 as int,
                l1 as int,
                v1 as int,
                v2 as int,
                r@,
            ),
            final(self).ok(),
            final(self)@.buf.depth == old(self)@.buf.depth,
    {
        let ghost s0 = self@;
        let mut n: usize = l2 - l1;
        self.block_fill(l2, v1, v2, r);
        while n > 0
            invariant
                n <= l2 - l1,
                v1 <= v2,
                self.ok(),
                self@.buf.depth == s0.buf.depth,
                s0.block_fill_all(l2 as int, l1 as int, v1 as int, v2 as int, r@)
                    == self@.block_fill_all(l1 + n - 1, l1 as int, v1 as int, v2 as int, r@),
            decreases n,
        {
            n -= 1;
            self.block_fill(l1 + n, v1, v2, r);
        }
    }

    /// Reads the rows of a block, deleting them if `cut` says so.
    fn take_block(&mut self, l1: usize, l2: usize, v1: usize, v2: usize, cut: bool) -> (t: String)
        requires
            old(self).ok(),
            l1 <= l2,
            v1 <= v2,
        ensures
            t@ == strs::joined(
                old(self)@.block_rows(l2 as int, l1 as int, v1 as int, v2 as int, cut),
                "\n"@,
            ),
            final(self)@ == (if cut {
                old(self)@.block_fill_all(
                    l2 as int,
                    l1 as int,
                    v1 as int,
                    v2 as int,
                    Seq::empty(),
                )
            } else {
                old(self)@
            }),
            final(self).ok(),
            final(self)@.buf.depth == old(self)@.buf.depth,
            !cut && old(self).wf() ==> final(self).wf(),
    {
        let ghost s0 = self@;
        let empty: String = String::new();
        let mut back: Vec<String> = Vec::new();
        let ghost goal = s0.block_rows(l2 as int, l1 as int, v1 as int, v2 as int, cut);
        let mut k: usize = l2;
        let mut done: bool = false;
        assert(upside(fold::views(back@)) =~= Seq::empty());
        assert(goal + upside(fold::views(back@)) =~= goal);
        while !done
            invariant
                l1 <= k <= l2,
                v1 <= v2,
                empty@ == Seq::<char>::empty(),
                self.ok(),
                self@.buf.depth == s0.buf.depth,
                !cut ==> self@ == s0,
                !done ==> goal == self@.block_rows(
                    k as int,
                    l1 as int,
                    v1 as int,
                    v2 as int,
                    cut,
                ) + upside(fold::views(back@)),
                done ==> goal == upside(fold::views(back@)),
                cut && !done ==> s0.block_fill_all(
                    l2 as int,
                    l1 as int,
                    v1 as int,
                    v2 as int,
                    Seq::empty(),
                ) == self@.block_fill_all(
                    k as int,
                    l1 as int,
                    v1 as int,
                    v2 as int,
                    Seq::empty(),
                ),
                cut && done ==> s0.block_fill_all(
                    l2 as int,
                    l1 as int,
                    v1 as int,
                    v2 as int,
                    Seq::empty(),
                ) == self@,
            decreases k - l1, (if done { 0int } else { 1 }),
        {
            let row: String = self.block_row(k, v1, v2);
            let ghost rv = row@;
            let ghost up = upside(fold::views(back@));
            proof {
                strs::lemma_views_push(back@, row);
            }
            back.push(row);
            if cut {
                self.block_fill(k, v1, v2, &empty);
            }
            proof {
                let rest = self@.block_rows(k - 1, l1 as int, v1 as int, v2 as int, cut);
                assert(upside(fold::views(back@)) =~= seq![rv] + up);
                assert(rest.push(rv) + up =~= rest + upside(fold::views(back@)));
                if k == l1 {
                    assert(self@.block_fill_all(
                        k - 1,
                        l1 as int,
                        v1 as int,
                        v2 as int,
                        Seq::empty(),
                    ) == self@);
                    assert(rest =~= Seq::empty());
                    assert(rest + upside(fold::views(back@)) =~= upside(fold::views(back@)));
                }
            }
            if k == l1 {
                done = true;
            } else {
                k -= 1;
            }
        }
        let rows: Vec<String> = turned(&back);
        join(&rows, "\n")
    }

    fn yank_block(&mut self)
        requires
            old(self).wf(),
        ensures
            final(self)@ == old(self)@.yank_block(),
            final(self).wf(),
    {
        let (l1, l2) = self.visual_lines();
        let (v1, v2) = self.visual_cols();
        let k: YankKind = YankKind::Block;
        let reg: Option<char> = self.pending.register;
        let t: String = self.take_block(l1, l2, v1, v2, false);
        self.regs.yank(reg, t.clone(), k);
        self.say_yank("yanked", reg, k, &t);
        self.cur_line = l1;
        self.cursor_to_col(v1);
    }

    fn cut_block(&mut self, verb: &str)
        requires
            old(self).wf(),
        ensures
            final(self)@ == old(self)@.cut_block(verb@),
            final(self).wf(),
    {
        let (l1, l2) = self.visual_lines();
        let (v1, v2) = self.visual_cols();
        let k: YankKind = YankKind::Block;
        let reg: Option<char> = self.pending.register;
        self.open_undo();
        let ghost s0 = self@;
        let t: String = self.take_block(l1, l2, v1, v2, true);
        proof {
            lemma_fill_keeps(s0, l2 as int, l1 as int, v1 as int, v2 as int, Seq::empty());
        }
        self.regs.cut(reg, t.clone(), k);
        self.say_yank(verb, reg, k, &t);
        self.close_undo();
        self.cur_line = l1;
        self.cursor_to_col(v1);
    }

    fn follow_block(&mut self, l1: usize, l2: usize, v1: usize)
        requires
            old(self).wf(),
        ensures
            final(self)@ == old(self)@.follow_block(l1 as int, l2 as int, v1 as int),
            final(self).wf(),
    {
        self.enter_insert();
        if l2 > l1 {
            let mut ls: Vec<usize> = Vec::new();
            let mut i: usize = l1;
            while i < l2
                invariant
                    l1 <= i <= l2,
                    ls@.len() == i - l1,
                    forall|j: int| 0 <= j < ls@.len() ==> ls@[j] == l1 + 1 + j,
                decreases l2 - i,
            {
                i += 1;
                ls.push(i);
            }
            let ghost lv = Seq::new(ls@.len(), |i: int| ls@[i] as int);
            assert(lv =~= Seq::new((l2 - l1) as nat, |i: int| l1 + 1 + i));
            self.block_insert = Some(BlockInsert { vcol: v1, lines: ls });
        }
    }

    /// An operator on a block.
    pub fn apply_visual_block_op(&mut self, op: char)
        requires
            old(self).wf(),
        ensures
            final(self)@ == old(self)@.op_block(op),
            final(self).wf(),
    {
        proof {
            reveal(EdV::op_block);
        }
        if op == 'y' {
            self.yank_block();
        } else if op == 'c' {
            let (l1, l2) = self.visual_lines();
            let (v1, _v2) = self.visual_cols();
            self.cut_block("changed");
            self.follow_block(l1, l2, v1);
        } else if op == 'd' {
            self.cut_block("deleted");
        } else if op == 'Q' || op == '>' || op == '<' {
            let (l1, l2) = self.visual_lines();
            self.execute_op_linewise(l1, l2 - l1);
        }
    }

    /// An operator on the selection.
    #[verifier::rlimit(60)]
    pub fn apply_visual_op(&mut self, op: char)
        requires
            old(self).wf(),
        ensures
            final(self)@ == old(self)@.visual_op(op),
            final(self).wf(),
    {
        proof {
            reveal(EdV::visual_op);
        }
        let was: Mode = self.mode;
        self.pending.operator = Some(op);
        match was {
            Mode::Visual => {
                let (a, b) = self.visual_range();
                self.execute_op_charwise(op, a, b);
            },
            Mode::VisualLine => {
                let (l1, l2) = self.visual_lines();
                self.place(l1, self.cur_col);
                self.execute_op_linewise(l1, l2 - l1);
            },
            Mode::VisualBlock => {
                self.apply_visual_block_op(op);
            },
            _ => {},
        }
        if op != 'c' {
            self.mode = Mode::Normal;
        }
        self.pending = Pending::none();
    }

    /// Changes the case of the selection.
    pub fn apply_visual_case(&mut self, op: CaseOp)
        requires
            old(self).wf(),
        ensures
            final(self)@ == old(self)@.visual_case(op),
            final(self).wf(),
    {
        proof {
            reveal(EdV::visual_case);
        }
        let (a, b) = match self.mode {
            Mode::Visual => self.visual_range(),
            Mode::VisualLine => self.visual_line_range(),
            _ => {
                return;
            },
        };
        let t: String = self.taken(a, b);
        let r: String = recase(&t, op);
        self.edit(a, b, &r);
        self.cursor_to_byte(a);
        self.mode = Mode::Normal;
    }

    /// Replaces every character of the selection.
    pub fn apply_visual_replace(&mut self, c: char)
        requires
            old(self).wf(),
        ensures
            final(self)@ == old(self)@.visual_replace(c),
            final(self).wf(),
    {
        proof {
            reveal(EdV::visual_replace);
        }
        match self.mode {
            Mode::VisualBlock => {
                let (l1, l2) = self.visual_lines();
                let (v1, v2) = self.visual_cols();
                self.open_undo();
                self.block_fill_all(l1, l2, v1, v2, &one(c));
                self.close_undo();
                self.cur_line = l1;
                self.cursor_to_col(v1);
            },
            Mode::Visual => {
                let (a, b) = self.visual_range();
                let r: String = overwrite(&self.taken(a, b), c);
                self.edit(a, b, &r);
                self.cursor_to_byte(a);
            },
            Mode::VisualLine => {
                let (a, b) = self.visual_line_range();
                let r: String = overwrite(&self.taken(a, b), c);
                self.edit(a, b, &r);
                self.cursor_to_byte(a);
            },
            _ => {},
        }
        self.mode = Mode::Normal;
        self.pending = Pending::none();
    }

    /// Puts the cursor at the block's column.
    pub fn sync_vblock_cursor(&mut self)
        requires
            old(self).ok(),
            old(self)@.buf.calm(),
        ensures
            final(self)@ == old(self)@.sync_block(),
            final(self).wf(),
    {
        self.cursor_to_col(self.vblock_cur_vcol);
    }
}

/// A sequence from back to front.
spec fn upside(v: Seq<Seq<char>>) -> Seq<Seq<char>> {
    Seq::new(v.len(), |i: int| v[v.len() - 1 - i])
}

fn turned(v: &Vec<String>) -> (r: Vec<String>)
    ensures
        fold::views(r@) == upside(fold::views(v@)),
{
    let mut r: Vec<String> = Vec::new();
    let n: usize = v.len();
    let mut i: usize = 0;
    while i < n
        invariant
            i <= n,
            n == v.len(),
            r@.len() == i,
            forall|k: int| 0 <= k < i ==> (#[trigger] r@[k])@ == v@[n - 1 - k]@,
        decreases n - i,
    {
        r.push(v[n - 1 - i].clone());
        i += 1;
    }
    assert(fold::views(r@) =~= upside(fold::views(v@)));
    r
}

/// Filling a block touches the buffer and the folds alone.
proof fn lemma_fill_keeps(s: EdV, k: int, l1: int, v1: int, v2: int, r: Seq<char>)
    ensures
        ({
            let u = s.block_fill_all(k, l1, v1, v2, r);
            u == EdV { buf: u.buf, folds: u.folds, ..s }
        }),
    decreases k - l1 + 1,
{
    if k >= l1 {
        lemma_fill_keeps(s.block_fill(k, v1, v2, r), k - 1, l1, v1, v2, r);
    }
}

fn recase(t: &str, op: CaseOp) -> (r: String)
    ensures
        r@ == recased_text(t@, op, t@.len() as int),
{
    let v: Vec<char> = chars_of(t);
    let mut r: String = String::new();
    let mut i: usize = 0;
    while i < v.len()
        invariant
            i <= v.len(),
            v@ == t@,
            r@ == recased_text(t@, op, i as int),
        decreases v.len() - i,
    {
        let c: char = v[i];
        let x: String = match op {
            CaseOp::Lower => lower_char(c),
            CaseOp::Upper => upper_char(c),
            CaseOp::Toggle => if c.is_uppercase() {
                lower_char(c)
            } else if c.is_lowercase() {
                upper_char(c)
            } else {
                one(c)
            },
        };
        r.append(&x);
        i += 1;
    }
    r
}

fn overwrite(t: &str, c: char) -> (r: String)
    ensures
        r@ == overwritten(t@, c),
{
    let v: Vec<char> = chars_of(t);
    let mut r: String = String::new();
    let mut i: usize = 0;
    while i < v.len()
        invariant
            i <= v.len(),
            v@ == t@,
            r@.len() == i,
            forall|k: int| 0 <= k < i ==> r@[k] == overwritten(t@, c)[k],
        decreases v.len() - i,
    {
        r.push(
            if v[i] == '\n' {
                '\n'
            } else {
                c
            },
        );
        i += 1;
    }
    assert(r@ =~= overwritten(t@, c));
    r
}

} // verus!
