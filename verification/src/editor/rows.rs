//! Rows of the screen: the gutter, moving by rows, scrolling, and where the
//! cursor is shown.
//!
//! How wide characters are is handed in line by line.

use vstd::prelude::*;
use vstd::string::*;
use crate::editor::cursor;
use crate::editor::state;
use crate::editor::state::{Editor, EdV};
use crate::fold;
use crate::lines;
use crate::mode::Mode;
use crate::strs;
use crate::strs::{cat2, cat3, dec, repeat};
use crate::text;
use crate::text::{chars_of, index_at, offset_of};
use crate::wrap;
use crate::wrap::{visual_to_byte, wrap_pos, wrap_row_count};

verus! {

/// Digits of the line numbers of a text with `n` lines, at least two.
pub open spec fn digits(n: int) -> int {
    state::max(strs::dec_of(n).len() as int, 2)
}

/// Width of the line-number gutter: the digits, a space, a bar and a space.
pub open spec fn gutter_of(n: int, show: bool) -> int {
    if show {
        digits(n) + 3
    } else {
        0
    }
}

/// The number shown beside line `k` when the cursor is on line `cur`.
pub open spec fn number_shown(k: int, cur: int, relative: bool) -> int {
    if relative && k < cur {
        cur - k
    } else if relative && k > cur {
        k - cur
    } else {
        k + 1
    }
}

/// The gutter beside line `k`, of `n` lines, in grey.
pub open spec fn gutter_text(k: int, cur: int, n: int, relative: bool) -> Seq<char> {
    let s = strs::dec_of(number_shown(k, cur, relative));
    "\x1b[38;5;240m"@ + (strs::repeated(" "@, digits(n) - s.len()) + s + " │ \x1b[39m"@)
}

proof fn lemma_digits(n: int)
    requires
        0 <= n <= usize::MAX,
    ensures
        1 <= strs::dec_of(n).len() <= 20,
{
    reveal_with_fuel(strs::dec_of, 21);
}

/// Width of the line-number gutter.
pub fn gutter_width(line_count: usize, show: bool) -> (n: usize)
    ensures
        n == gutter_of(line_count as int, show),
        n <= 23,
{
    proof {
        lemma_digits(line_count as int);
    }
    if !show {
        return 0;
    }
    let d: usize = chars_of(&dec(line_count as u128)).len();
    if d < 2 {
        5
    } else {
        d + 3
    }
}

/// The gutter beside line `k`.
pub fn gutter_cell(k: usize, cur: usize, line_count: usize, relative: bool) -> (s: String)
    ensures
        s@ == gutter_text(k as int, cur as int, line_count as int, relative),
{
    proof {
        lemma_digits(line_count as int);
    }
    let n: u128 = if relative && k < cur {
        (cur - k) as u128
    } else if relative && k > cur {
        (k - cur) as u128
    } else {
        k as u128 + 1
    };
    let s: String = dec(n);
    let len: usize = chars_of(&s).len();
    let w: usize = gutter_width(line_count, true) - 3;
    let pad: String = repeat(
        " ",
        if len < w {
            w - len
        } else {
            0
        },
    );
    assert(w < len ==> strs::repeated(" "@, w - len) =~= strs::repeated(" "@, 0));
    cat2("\x1b[38;5;240m", &cat3(&pad, &s, " │ \x1b[39m"))
}

/// Widths of the characters of line `k`.
pub open spec fn ws_line(ws: Seq<Vec<usize>>, k: int) -> Seq<usize> {
    if 0 <= k < ws.len() {
        ws[k]@
    } else {
        Seq::empty()
    }
}

impl EdV {
    /// Line numbers are shown.
    pub open spec fn numbered(self) -> bool {
        self.options.numbers && !self.options.reading
    }

    pub open spec fn gutter(self) -> int {
        gutter_of(self.line_count(), self.numbered())
    }

    /// Number of rows of line `k`.
    pub open spec fn row_count(self, ws: Seq<Vec<usize>>, k: int) -> int {
        wrap::rows_of(
            self.line_text(k),
            ws_line(ws, k),
            self.pane_w as int,
            self.gutter(),
            self.tabstop(),
        ).len() as int
    }

    /// Row and column of byte `b` of line `k`.
    pub open spec fn spot(self, ws: Seq<Vec<usize>>, k: int, b: int) -> (int, int) {
        wrap::pos_of(
            self.line_text(k),
            ws_line(ws, k),
            b,
            self.pane_w as int,
            self.gutter(),
            self.tabstop(),
        )
    }

    /// Byte offset in the text of what stands at a row and column of line `k`.
    pub open spec fn byte_at_spot(self, ws: Seq<Vec<usize>>, k: int, r: int, c: int) -> int {
        lines::line_off(self.buf.text, k) + wrap::byte_of(
            self.line_text(k),
            ws_line(ws, k),
            r,
            c,
            self.pane_w as int,
            self.gutter(),
            self.tabstop(),
        )
    }

    /// The cursor's column within its line.
    pub open spec fn col_on_line(self) -> int {
        state::min(self.col, self.line_len())
    }

    /// Row and column of the cursor within its line.
    pub open spec fn cursor_spot(self, ws: Seq<Vec<usize>>) -> (int, int) {
        self.spot(ws, self.line, self.col_on_line())
    }

    /// Where a step of one row leads: on the same line, or to the near row of
    /// the next visible line.
    #[verifier::opaque]
    pub open spec fn row_target(self, ws: Seq<Vec<usize>>, down: bool) -> Option<int> {
        let (r, c) = self.cursor_spot(ws);
        if down {
            let k = self.down_from(self.line, 1);
            if r + 1 < self.row_count(ws, self.line) {
                Some(self.byte_at_spot(ws, self.line, r + 1, c))
            } else if k == self.line {
                None
            } else {
                Some(self.byte_at_spot(ws, k, 0, c))
            }
        } else {
            let k = self.up_from(self.line, 1);
            if r > 0 {
                Some(self.byte_at_spot(ws, self.line, r - 1, c))
            } else if k == self.line {
                None
            } else {
                Some(self.byte_at_spot(ws, k, self.row_count(ws, k) - 1, c))
            }
        }
    }

    /// One row up or down.
    pub open spec fn step_row(self, ws: Seq<Vec<usize>>, down: bool) -> EdV {
        match self.row_target(ws, down) {
            Some(b) => self.goto(b),
            None => self,
        }
    }

    /// `n` rows up or down.
    pub open spec fn step_rows(self, ws: Seq<Vec<usize>>, down: bool, n: int) -> EdV
        decreases n,
    {
        if n <= 0 {
            self
        } else {
            self.step_rows(ws, down, n - 1).step_row(ws, down)
        }
    }

    /// Rows of the visible lines `a..b`.
    pub open spec fn rows_between(self, ws: Seq<Vec<usize>>, a: int, b: int) -> int
        decreases b - a,
    {
        if a >= b {
            0
        } else {
            (if self.folds.visible(a, self.all_lines()) {
                self.row_count(ws, a)
            } else {
                0
            }) + self.rows_between(ws, a + 1, b)
        }
    }

    /// The cursor is in the pane when line `top` is at its head.
    pub open spec fn in_sight(self, ws: Seq<Vec<usize>>, top: int) -> bool {
        self.rows_between(ws, top, self.line) + self.cursor_spot(ws).0 + 1 <= self.pane_h
    }

    /// The line at the head of the pane, moved down until the cursor is in
    /// sight, and no further than the cursor.
    pub open spec fn settled(self, ws: Seq<Vec<usize>>, top: int) -> int
        decreases self.line - top,
    {
        if self.in_sight(ws, top) {
            top
        } else {
            match self.visible_after(top) {
                Some(k) => if top < k <= self.line {
                    self.settled(ws, k)
                } else {
                    top
                },
                None => top,
            }
        }
    }

    /// Scrolled so that the cursor is in the pane.
    pub open spec fn scrolled(self, ws: Seq<Vec<usize>>) -> EdV {
        EdV { scroll: self.settled(ws, state::min(self.scroll, self.line)), ..self }
    }

    /// Row and column of the cursor within its line, as the mode shows it. A
    /// block selection shows its moving corner. A typing cursor at the head
    /// of a row stands behind the character that ends the row above.
    pub open spec fn shown_spot(self, ws: Seq<Vec<usize>>) -> (int, int) {
        let (r, c) = self.cursor_spot(ws);
        let w = self.pane_w as int;
        if self.mode is VisualBlock {
            let g = self.gutter();
            (0, state::min(g + self.vb_cur, g + state::minus(w, g + 1)))
        } else if (self.mode is Insert || self.mode is Replace) && c == 0 && r > 0
            && self.col_on_line() > 0 {
            let l = self.line_text(self.line);
            let i = text::at(l, self.col_on_line()) - 1;
            let (q, d) = self.spot(ws, self.line, text::off(l, i));
            let cw = if l[i] == '\t' {
                self.tabstop() - d % self.tabstop()
            } else {
                1
            };
            if q + 1 == r {
                (q, state::min(d + cw, state::minus(w, 1)))
            } else {
                (r, c)
            }
        } else {
            (r, c)
        }
    }

    /// Row and column of the cursor in the pane.
    pub open spec fn cursor_place(self, ws: Seq<Vec<usize>>) -> (int, int) {
        let (r, c) = self.shown_spot(ws);
        (self.rows_between(ws, self.scroll, self.line) + r, c)
    }
}

/// A step of rows keeps the text, and the mode.
pub proof fn law_rows_keep_text(s: EdV, ws: Seq<Vec<usize>>, down: bool, n: int)
    ensures
        s.step_rows(ws, down, n).buf == s.buf,
        s.step_rows(ws, down, n).mode == s.mode,
    decreases n,
{
    if n > 0 {
        law_rows_keep_text(s, ws, down, n - 1);
    }
}

proof fn lemma_settled(s: EdV, ws: Seq<Vec<usize>>, top: int)
    requires
        top <= s.line,
    ensures
        top <= s.settled(ws, top) <= s.line,
        s.in_sight(ws, s.settled(ws, top)) || s.visible_after(s.settled(ws, top)) is None
            || s.visible_after(s.settled(ws, top))->0 > s.line || s.visible_after(
            s.settled(ws, top),
        )->0 <= s.settled(ws, top),
    decreases s.line - top,
{
    if !s.in_sight(ws, top) {
        if let Some(k) = s.visible_after(top) {
            if top < k <= s.line {
                lemma_settled(s, ws, k);
            }
        }
    }
}

/// After scrolling, the cursor is in the pane, or no visible line between the
/// head of the pane and the cursor is left to scroll to; and the head of the
/// pane is not below the cursor.
pub proof fn law_scrolled_shows_cursor(s: EdV, ws: Seq<Vec<usize>>)
    ensures
        s.scrolled(ws).scroll <= s.line,
        ({
            let top = s.scrolled(ws).scroll;
            s.in_sight(ws, top) || s.visible_after(top) is None || s.visible_after(top)->0 > s.line
                || s.visible_after(top)->0 <= top
        }),
{
    lemma_settled(s, ws, state::min(s.scroll, s.line));
}

/// Shape of the cursor: a bar where text is typed, an underline where it is
/// typed over, else a block.
pub open spec fn shape_of(m: Mode) -> u8 {
    match m {
        Mode::Insert => 6,
        Mode::Command => 6,
        Mode::Replace => 4,
        _ => 2,
    }
}

/// Shape of the terminal's cursor in a mode: a block, a line under the
/// character or a bar.
pub fn cursor_shape(m: Mode) -> (n: u8)
    ensures
        n == shape_of(m),
{
    match m {
        Mode::Insert => 6,
        Mode::Command => 6,
        Mode::Replace => 4,
        _ => 2,
    }
}

fn widths_of(ws: &Vec<Vec<usize>>, k: usize) -> (v: Vec<usize>)
    ensures
        v@ == ws_line(ws@, k as int),
{
    let mut v: Vec<usize> = Vec::new();
    if k < ws.len() {
        let mut i: usize = 0;
        while i < ws[k].len()
            invariant
                k < ws.len(),
                i <= ws@[k as int]@.len(),
                v@ == ws@[k as int]@.take(i as int),
            decreases ws@[k as int]@.len() - i,
        {
            v.push(ws[k][i]);
            i += 1;
        }
        assert(v@ =~= ws@[k as int]@);
    }
    v
}

impl Editor {
    /// Whether line numbers are shown.
    pub fn shows_numbers(&self) -> (r: bool)
        ensures
            r == self@.numbered(),
    {
        self.options.numbers && !self.options.reading
    }

    /// Number of rows of line `k`.
    pub fn row_count(&self, ws: &Vec<Vec<usize>>, k: usize) -> (n: usize)
        ensures
            n == self@.row_count(ws@, k as int),
            n >= 1,
    {
        let v: Vec<char> = chars_of(&self.buf.line(k));
        let g: usize = gutter_width(self.buf.line_count(), self.shows_numbers());
        wrap_row_count(&v, &widths_of(ws, k), self.pane_w as usize, g, self.tabstop())
    }

    fn spot(&self, ws: &Vec<Vec<usize>>, k: usize, b: usize) -> (p: (usize, u128))
        ensures
            (p.0 as int, p.1 as int) == self@.spot(ws@, k as int, b as int),
    {
        let v: Vec<char> = chars_of(&self.buf.line(k));
        let g: usize = gutter_width(self.buf.line_count(), self.shows_numbers());
        wrap_pos(&v, &widths_of(ws, k), b, self.pane_w as usize, g, self.tabstop())
    }

    fn byte_at_spot(&self, ws: &Vec<Vec<usize>>, k: usize, r: usize, c: u128) -> (b: usize)
        ensures
            b == self@.byte_at_spot(ws@, k as int, r as int, c as int),
    {
        let v: Vec<char> = chars_of(&self.buf.line(k));
        let g: usize = gutter_width(self.buf.line_count(), self.shows_numbers());
        proof {
            lines::lemma_line_raw(self@.buf.text, k as int);
        }
        let _n: usize = self.buf.len_bytes();
        self.buf.line_byte_offset(k) + visual_to_byte(
            &v,
            &widths_of(ws, k),
            r,
            c,
            self.pane_w as usize,
            g,
            self.tabstop(),
        )
    }

    fn col_on_line(&self) -> (n: usize)
        ensures
            n == self@.col_on_line(),
    {
        let len: usize = self.current_line_len();
        if self.cur_col <= len {
            self.cur_col
        } else {
            len
        }
    }

    fn cursor_spot(&self, ws: &Vec<Vec<usize>>) -> (p: (usize, u128))
        ensures
            (p.0 as int, p.1 as int) == self@.cursor_spot(ws@),
    {
        self.spot(ws, self.cur_line, self.col_on_line())
    }

    /// Where a step of one row leads.
    pub fn visual_step(&self, ws: &Vec<Vec<usize>>, down: bool) -> (r: Option<usize>)
        ensures
            match r {
                Some(b) => self@.row_target(ws@, down) == Some(b as int),
                None => self@.row_target(ws@, down) is None,
            },
    {
        proof {
            reveal(EdV::row_target);
        }
        let (r, c) = self.cursor_spot(ws);
        if down {
            let n: usize = self.row_count(ws, self.cur_line);
            if r < n - 1 {
                return Some(self.byte_at_spot(ws, self.cur_line, r + 1, c));
            }
            let k: usize = self.next_visible_line_down(self.cur_line, 1);
            if k == self.cur_line {
                return None;
            }
            Some(self.byte_at_spot(ws, k, 0, c))
        } else {
            if r > 0 {
                return Some(self.byte_at_spot(ws, self.cur_line, r - 1, c));
            }
            let k: usize = self.next_visible_line_up(self.cur_line, 1);
            if k == self.cur_line {
                return None;
            }
            let n: usize = self.row_count(ws, k);
            Some(self.byte_at_spot(ws, k, n - 1, c))
        }
    }

    /// One row up.
    pub fn move_up(&mut self, ws: &Vec<Vec<usize>>)
        requires
            old(self).wf(),
        ensures
            final(self)@ == old(self)@.step_row(ws@, false),
            final(self).wf(),
    {
        if let Some(b) = self.visual_step(ws, false) {
            self.cursor_to_byte(b);
        }
    }

    /// One row down.
    pub fn move_down(&mut self, ws: &Vec<Vec<usize>>)
        requires
            old(self).wf(),
        ensures
            final(self)@ == old(self)@.step_row(ws@, true),
            final(self).wf(),
    {
        if let Some(b) = self.visual_step(ws, true) {
            self.cursor_to_byte(b);
        }
    }

    /// Moves the cursor by rows.
    pub fn step_rows(&mut self, ws: &Vec<Vec<usize>>, down: bool, count: usize)
        requires
            old(self).wf(),
        ensures
            final(self)@ == old(self)@.step_rows(ws@, down, count as int),
            final(self).wf(),
    {
        let ghost s0 = self@;
        let mut i: usize = 0;
        while i < count
            invariant
                i <= count,
                self.wf(),
                self@ == s0.step_rows(ws@, down, i as int),
            decreases count - i,
        {
            if down {
                self.move_down(ws);
            } else {
                self.move_up(ws);
            }
            i += 1;
        }
    }

    /// Rows of the visible lines from `top` to the cursor's.
    fn rows_above(&self, ws: &Vec<Vec<usize>>, top: usize) -> (n: u128)
        requires
            self.wf(),
        ensures
            n == self@.rows_between(ws@, top as int, self@.line),
            n <= (if top <= self.cur_line { self.cur_line - top } else { 0 }) * (usize::MAX as int),
    {
        let all: Vec<String> = self.all_lines();
        let mut k: usize = self.cur_line;
        let mut n: u128 = 0;
        let ghost m = usize::MAX as int;
        while k > top
            invariant
                self.wf(),
                fold::views(all@) == self@.all_lines(),
                k <= self.cur_line,
                self@.line == self.cur_line,
                top <= self.cur_line ==> top <= k,
                top > self.cur_line ==> k == self.cur_line,
                n == self@.rows_between(ws@, k as int, self@.line),
                m == usize::MAX,
                n <= (self.cur_line - k) * m,
            decreases k,
        {
            k -= 1;
            proof {
                let d = self.cur_line - k - 1;
                assert(d * m + m == (d + 1) * m) by (nonlinear_arith);
                assert((d + 1) * m <= m * m) by (nonlinear_arith)
                    requires
                        0 <= d + 1 <= m,
                ;
                assert(m * m <= u128::MAX) by (nonlinear_arith)
                    requires
                        0 <= m <= 0xffff_ffff_ffff_ffff,
                ;
            }
            if self.folds.is_visible(k, &all) {
                n = n + self.row_count(ws, k) as u128;
            }
        }
        n
    }

    /// Scrolls so that the cursor is in the pane.
    pub fn scroll_to_cursor(&mut self, ws: &Vec<Vec<usize>>)
        requires
            old(self).wf(),
        ensures
            final(self)@ == old(self)@.scrolled(ws@),
            final(self).wf(),
    {
        let all: Vec<String> = self.all_lines();
        let total: usize = all.len();
        let (row, _) = self.cursor_spot(ws);
        let mut top: usize = if self.scroll <= self.cur_line {
            self.scroll
        } else {
            self.cur_line
        };
        let ghost s0 = self@;
        let ghost want = s0.settled(ws@, state::min(s0.scroll, s0.line));
        let mut done: bool = false;
        while !done
            invariant
                self.wf(),
                self@ == s0,
                fold::views(all@) == s0.all_lines(),
                total == s0.line_count(),
                all@.len() == total,
                row == s0.cursor_spot(ws@).0,
                top <= self.cur_line,
                !done ==> want == s0.settled(ws@, top as int),
                done ==> want == top,
            decreases self.cur_line - top, (if done { 0int } else { 1 }),
        {
            let used: u128 = self.rows_above(ws, top);
            proof {
                let m = usize::MAX as int;
                let d = self.cur_line - top;
                assert(d * m <= m * m) by (nonlinear_arith)
                    requires
                        0 <= d <= m,
                ;
                lemma_room();
            }
            if used + row as u128 + 1 <= self.pane_h as u128 {
                done = true;
            } else {
                let mut k: usize = top;
                let mut hit: bool = false;
                while k < total && k + 1 < total && !hit
                    invariant
                        self.wf(),
                        self@ == s0,
                        total == s0.line_count(),
                        fold::views(all@) == s0.all_lines(),
                        top <= k,
                        !hit ==> s0.visible_after(top as int) == s0.visible_after(k as int),
                        hit ==> s0.visible_after(top as int) == Some(k as int) && top < k,
                    decreases total - k, (if hit { 0int } else { 1 }),
                {
                    k += 1;
                    if self.folds.is_visible(k, &all) {
                        hit = true;
                    }
                }
                if !hit || k > self.cur_line {
                    done = true;
                } else {
                    top = k;
                }
            }
        }
        self.scroll = top;
    }

    fn shown_spot(&self, ws: &Vec<Vec<usize>>) -> (p: (usize, u128))
        requires
            self.wf(),
        ensures
            (p.0 as int, p.1 as int) == self@.shown_spot(ws@),
    {
        let (r, c) = self.cursor_spot(ws);
        let w: usize = self.pane_w as usize;
        let g: usize = gutter_width(self.buf.line_count(), self.shows_numbers());
        if matches!(self.mode, Mode::VisualBlock) {
            let cap: usize = if w > g + 1 {
                w - (g + 1)
            } else {
                0
            };
            let at: usize = if self.vblock_cur_vcol <= cap {
                self.vblock_cur_vcol
            } else {
                cap
            };
            return (0, (g + at) as u128);
        }
        let b: usize = self.col_on_line();
        if matches!(self.mode, Mode::Insert | Mode::Replace) && c == 0 && r > 0 && b > 0 {
            let v: Vec<char> = chars_of(&self.buf.line(self.cur_line));
            let i: usize = index_at(&v, b);
            proof {
                lemma_inside(self@);
            }
            let prev: usize = offset_of(&v, i - 1);
            let (q, d) = self.spot(ws, self.cur_line, prev);
            let ts: usize = self.tabstop();
            let cw: u128 = if v[i - 1] == '\t' {
                ts as u128 - d % (ts as u128)
            } else {
                1
            };
            if q < r && r - q == 1 {
                let cap: u128 = if w > 0 {
                    (w - 1) as u128
                } else {
                    0
                };
                let at: u128 = if d >= cap || cw >= cap - d {
                    cap
                } else {
                    d + cw
                };
                return (q, at);
            }
        }
        (r, c)
    }

    /// Row and column of the cursor in the pane, both counted from 0.
    pub fn position_cursor(&self, ws: &Vec<Vec<usize>>) -> (p: (u128, u128))
        requires
            self.wf(),
        ensures
            (p.0 as int, p.1 as int) == self@.cursor_place(ws@),
    {
        let (r, c) = self.shown_spot(ws);
        let used: u128 = self.rows_above(ws, self.scroll);
        proof {
            let m = usize::MAX as int;
            let d = if self.scroll <= self.cur_line {
                self.cur_line - self.scroll
            } else {
                0
            };
            assert(d * m <= m * m) by (nonlinear_arith)
                requires
                    0 <= d <= m,
            ;
            lemma_room();
        }
        (used + r as u128, c)
    }
}

proof fn lemma_room()
    ensures
        (usize::MAX as int) * (usize::MAX as int) + usize::MAX + 1 <= u128::MAX,
{
    assert((usize::MAX as int) * (usize::MAX as int) + usize::MAX + 1 <= u128::MAX)
        by (nonlinear_arith)
        requires
            0 <= usize::MAX <= 0xffff_ffff_ffff_ffff,
    ;
}

/// A typing cursor past the head of its line has a character before it.
proof fn lemma_inside(s: EdV)
    requires
        0 <= s.line,
        text::bd(s.buf.text, s.cursor()),
        s.col_on_line() > 0,
    ensures
        text::at(s.line_text(s.line), s.col_on_line()) >= 1,
{
    let t = s.buf.text;
    let l = s.line_text(s.line);
    let c = s.col_on_line();
    lines::lemma_line_raw(t, s.line);
    text::lemma_at(l, c);
    if l.len() > 0 {
        let a = lines::line_start(t, s.line);
        if s.col > s.line_len() {
            text::lemma_at_off(l, l.len() as int);
        } else if text::at(l, c) == 0 {
            let i = text::at(t, s.cursor());
            text::lemma_at(t, s.cursor());
            if i <= a {
                text::lemma_off_mono(t, i, a);
            } else {
                text::lemma_off_mono(t, a + 1, i);
                assert(text::off(l, 1) == text::off(t, a + 1) - lines::line_off(t, s.line));
            }
        }
    }
}

/// Beside the lines stand their numbers, counted from one, or else how far they
/// are from the cursor's, the same upwards and downwards; the cursor's own line
/// has its number either way.
pub proof fn law_numbers_shown(k: int, cur: int)
    ensures
        number_shown(k, cur, false) == k + 1,
        number_shown(cur, cur, true) == cur + 1,
        k > 0 ==> number_shown(cur + k, cur, true) == k,
        k > 0 ==> number_shown(cur - k, cur, true) == k,
{
}

} // verus!
