//! What is painted: the rows of the text pane, and the lines above and below
//! it. Colours of the text itself come from the highlighter outside.

use vstd::prelude::*;
use vstd::string::*;
use crate::buffer::FileKind;
use crate::chars;
use crate::chars::is_blank;
use crate::cols;
use crate::cols::{cell_width, visual_width_of};
use crate::editor::cursor;
use crate::editor::rows;
use crate::editor::rows::gutter_cell;
use crate::editor::state;
use crate::editor::state::{Editor, EdV};
use crate::fold;
use crate::lines;
use crate::mode;
use crate::mode::Mode;
use crate::spell::{MisspellRange, MisspellV};
use crate::strs;
use crate::strs::{one, repeat};
use crate::text;
use crate::text::{byte_len, char_len, chars_of};

verus! {

/// The text of a row.
pub enum Body {
    /// The row is past the end of the text.
    Filler,
    /// A line as the highlighter gives it.
    Text {
        /// The highlighted line may be taken as it is.
        styled: bool,
        /// The line is outside the paragraph in focus.
        dim: bool,
        /// Byte ranges of misspelt words.
        misses: Vec<(usize, usize)>,
    },
    /// A line piece by piece, and whether each piece is selected.
    Cells(Vec<(String, bool)>),
}

#[verifier::ext_equal]
pub enum BodyV {
    Filler,
    Text { styled: bool, dim: bool, misses: Seq<(int, int)> },
    Cells(Seq<(Seq<char>, bool)>),
}

pub open spec fn spans_view(v: Seq<(usize, usize)>) -> Seq<(int, int)> {
    Seq::new(v.len(), |i: int| (v[i].0 as int, v[i].1 as int))
}

pub open spec fn cells_view(v: Seq<(String, bool)>) -> Seq<(Seq<char>, bool)> {
    Seq::new(v.len(), |i: int| (v[i].0@, v[i].1))
}

impl View for Body {
    type V = BodyV;

    open spec fn view(&self) -> BodyV {
        match self {
            Body::Filler => BodyV::Filler,
            Body::Text { styled, dim, misses } => BodyV::Text {
                styled: *styled,
                dim: *dim,
                misses: spans_view(misses@),
            },
            Body::Cells(c) => BodyV::Cells(cells_view(c@)),
        }
    }
}

/// A row of the pane.
pub struct Row {
    pub line: usize,
    /// The gutter beside it.
    pub number: Option<String>,
    pub body: Body,
    /// Lines that a closed fold hides below it.
    pub folded: Option<usize>,
}

#[verifier::ext_equal]
pub struct RowV {
    pub line: int,
    pub number: Option<Seq<char>>,
    pub body: BodyV,
    pub folded: Option<int>,
}

impl View for Row {
    type V = RowV;

    open spec fn view(&self) -> RowV {
        RowV {
            line: self.line as int,
            number: crate::buffer::str_opt(self.number),
            body: self.body@,
            folded: crate::buffer::int_opt(self.folded),
        }
    }
}

pub open spec fn rows_seen(v: Seq<Row>) -> Seq<RowV> {
    Seq::new(v.len(), |i: int| v[i]@)
}

/// Those of the first `n` misspellings that touch the bytes `off..off + len`,
/// counted from `off`.
pub open spec fn misses_on(m: Seq<MisspellV>, off: int, len: int, n: int) -> Seq<(int, int)>
    decreases n,
{
    if n <= 0 {
        Seq::empty()
    } else {
        let rest = misses_on(m, off, len, n - 1);
        let x = m[n - 1];
        if x.end > off && x.start < off + len {
            rest.push(
                (
                    state::min(state::minus(x.start, off), len),
                    state::min(state::minus(x.end, off), len),
                ),
            )
        } else {
            rest
        }
    }
}

impl EdV {
    /// First line of the paragraph that line `k` is in.
    pub open spec fn para_top(self, k: int) -> int
        decreases k,
    {
        if k <= 0 || chars::blank(self.line_text(k - 1)) {
            k
        } else {
            self.para_top(k - 1)
        }
    }

    /// Last line of the paragraph that line `k` is in.
    pub open spec fn para_bottom(self, k: int) -> int
        decreases self.line_count() - k,
    {
        if k + 1 >= self.line_count() || chars::blank(self.line_text(k + 1)) {
            k
        } else {
            self.para_bottom(k + 1)
        }
    }

    /// The cursor's paragraph, from and to which line.
    pub open spec fn paragraph(self) -> (int, int) {
        let k = state::min(self.line, self.last_line());
        (self.para_top(k), self.para_bottom(k))
    }

    /// Line `k` is greyed because the paragraph in focus is elsewhere.
    pub open spec fn dimmed(self, k: int) -> bool {
        let (lo, hi) = self.paragraph();
        self.options.paragraph_dim && self.options.reading && !(lo <= k <= hi)
    }

    /// The selection touches line `k`.
    pub open spec fn touched(self, k: int) -> bool {
        match self.mode {
            Mode::Visual => {
                let (lo, hi) = self.visual_range();
                let a = lines::line_off(self.buf.text, k);
                hi > a && lo < a + text::blen(self.line_text(k))
            },
            Mode::VisualLine | Mode::VisualBlock => self.top_line() <= k <= self.bottom_line(),
            _ => false,
        }
    }

    /// Display column `c` is within the block.
    pub open spec fn in_block(self, c: int) -> bool {
        self.left_col() <= c <= self.right_col()
    }

    /// Character `i` of line `k`, which the selection touches, is selected.
    pub open spec fn lit(self, k: int, i: int) -> bool {
        let l = self.line_text(k);
        match self.mode {
            Mode::Visual => {
                let (lo, hi) = self.visual_range();
                lo <= lines::line_off(self.buf.text, k) + text::off(l, i) < hi
            },
            Mode::VisualLine => true,
            Mode::VisualBlock => self.in_block(cols::col_after(l, i, self.tabstop())),
            _ => false,
        }
    }

    /// The pieces of character `i` of line `k`: a tab in a block is cut into
    /// its columns.
    pub open spec fn pieces(self, k: int, i: int) -> Seq<(Seq<char>, bool)> {
        let l = self.line_text(k);
        let ts = self.tabstop();
        let c = cols::col_after(l, i, ts);
        if self.mode is VisualBlock && l[i] == '\t' {
            Seq::new(cols::cell('\t', c, ts) as nat, |j: int| (" "@, self.in_block(c + j)))
        } else {
            seq![(seq![l[i]], self.lit(k, i))]
        }
    }

    /// The pieces of the first `n` characters of line `k`.
    pub open spec fn pieces_to(self, k: int, n: int) -> Seq<(Seq<char>, bool)>
        decreases n,
    {
        if n <= 0 {
            Seq::empty()
        } else {
            self.pieces_to(k, n - 1) + self.pieces(k, n - 1)
        }
    }

    /// Selected columns past the end of line `k`: a selection of lines goes
    /// to the edge of the pane, a block to its right side.
    pub open spec fn padding(self, k: int) -> int {
        let l = self.line_text(k);
        let used = cols::col_after(l, l.len() as int, self.tabstop());
        let room = state::minus(self.pane_w as int, used);
        match self.mode {
            Mode::VisualLine => room,
            Mode::VisualBlock => if self.right_col() + 1 > used {
                state::min(self.right_col() + 1 - state::max(used, self.left_col()), room)
            } else {
                0
            },
            _ => 0,
        }
    }

    pub open spec fn cells(self, k: int) -> Seq<(Seq<char>, bool)> {
        let c = self.pieces_to(k, self.line_text(k).len() as int);
        let n = self.padding(k);
        if n > 0 {
            c.push((strs::repeated(" "@, n), true))
        } else {
            c
        }
    }

    /// Byte ranges of the misspelt words of line `k`.
    pub open spec fn misses(self, k: int) -> Seq<(int, int)> {
        misses_on(
            self.missp,
            lines::line_off(self.buf.text, k),
            text::blen(self.line_text(k)),
            self.missp.len() as int,
        )
    }

    pub open spec fn body(self, k: int) -> BodyV {
        if self.touched(k) {
            BodyV::Cells(self.cells(k))
        } else {
            BodyV::Text {
                styled: self.buf.kind is Source && self.misses(k).len() == 0 && !self.dimmed(k),
                dim: self.dimmed(k),
                misses: self.misses(k),
            }
        }
    }

    /// Lines that the fold at line `k` hides, when it is closed.
    pub open spec fn hidden_below(self, k: int) -> Option<int> {
        if self.folds.innermost(k + 1, self.all_lines(), k + 1) == Some(k) {
            Some(fold::end_of(self.all_lines(), k) - k)
        } else {
            None
        }
    }

    pub open spec fn row(self, k: int) -> RowV {
        if k >= self.line_count() {
            RowV { line: k, number: None, body: BodyV::Filler, folded: None }
        } else {
            RowV {
                line: k,
                number: if self.numbered() {
                    Some(
                        rows::gutter_text(
                            k,
                            self.line,
                            self.line_count(),
                            self.options.relative_numbers,
                        ),
                    )
                } else {
                    None
                },
                body: self.body(k),
                folded: self.hidden_below(k),
            }
        }
    }

    /// First visible line at or after `k`; past the end of the text every
    /// line counts.
    pub open spec fn visible_from(self, k: int) -> int
        decreases self.line_count() - k,
    {
        if k >= self.line_count() || self.folds.visible(k, self.all_lines()) {
            k
        } else {
            self.visible_from(k + 1)
        }
    }

    /// `n` rows from line `top` on.
    pub open spec fn painted(self, top: int, n: int) -> Seq<RowV>
        decreases n,
    {
        if n <= 0 {
            Seq::empty()
        } else {
            let k = self.visible_from(top);
            seq![self.row(k)] + self.painted(
                if k < self.line_count() {
                    k + 1
                } else {
                    k
                },
                n - 1,
            )
        }
    }
}

proof fn lemma_visible_from(s: EdV, k: int)
    ensures
        s.visible_from(k) >= k,
        s.visible_from(k) < s.line_count() ==> s.folds.visible(s.visible_from(k), s.all_lines()),
    decreases s.line_count() - k,
{
    if k < s.line_count() && !s.folds.visible(k, s.all_lines()) {
        lemma_visible_from(s, k + 1);
    }
}

/// The pane is painted to its last row, and no row shows a line that a
/// closed fold hides or that is above the head of the pane.
pub proof fn law_hidden_lines_are_not_painted(s: EdV, top: int, n: int, i: int)
    requires
        0 <= i < n,
    ensures
        s.painted(top, n).len() == n,
        s.painted(top, n)[i].line >= top,
        s.painted(top, n)[i].line < s.line_count() ==> s.folds.visible(
            s.painted(top, n)[i].line,
            s.all_lines(),
        ),
    decreases n,
{
    let k = s.visible_from(top);
    let next = if k < s.line_count() {
        k + 1
    } else {
        k
    };
    lemma_visible_from(s, top);
    if n == 1 {
        assert(s.painted(next, 0).len() == 0);
    } else {
        law_hidden_lines_are_not_painted(
            s,
            next,
            n - 1,
            if i > 0 {
                i - 1
            } else {
                0
            },
        );
    }
}

impl Editor {
    /// First and last line of the cursor's paragraph.
    pub fn current_paragraph_bounds(&self) -> (r: (usize, usize))
        requires
            self.wf(),
        ensures
            (r.0 as int, r.1 as int) == self@.paragraph(),
    {
        let total: usize = self.buf.line_count();
        let cur: usize = if self.cur_line <= total - 1 {
            self.cur_line
        } else {
            total - 1
        };
        let mut lo: usize = cur;
        while lo > 0 && !is_blank(&self.buf.line(lo - 1))
            invariant
                lo <= cur,
                self@.para_top(cur as int) == self@.para_top(lo as int),
            decreases lo,
        {
            lo -= 1;
        }
        let mut hi: usize = cur;
        while hi < total - 1 && !is_blank(&self.buf.line(hi + 1))
            invariant
                cur <= hi < total,
                total == self@.line_count(),
                self@.para_bottom(cur as int) == self@.para_bottom(hi as int),
            decreases total - hi,
        {
            hi += 1;
        }
        (lo, hi)
    }

    fn is_dimmed(&self, k: usize) -> (r: bool)
        requires
            self.wf(),
        ensures
            r == self@.dimmed(k as int),
    {
        if !self.options.paragraph_dim || !self.options.reading {
            return false;
        }
        let (lo, hi) = self.current_paragraph_bounds();
        k < lo || k > hi
    }

    fn is_touched(&self, k: usize) -> (r: bool)
        requires
            self.wf(),
        ensures
            r == self@.touched(k as int),
    {
        match self.mode {
            Mode::Visual => {
                let (lo, hi) = self.visual_range();
                let a: usize = self.buf.line_byte_offset(k);
                let n: usize = byte_len(&self.buf.line(k));
                hi > a && (lo < a || lo - a < n)
            },
            Mode::VisualLine | Mode::VisualBlock => {
                let (l1, l2) = self.visual_lines();
                l1 <= k && k <= l2
            },
            _ => false,
        }
    }

    fn is_in_block(&self, c: usize, j: usize) -> (r: bool)
        ensures
            r == self@.in_block(c + j),
    {
        let (v1, v2) = self.visual_cols();
        let at: u128 = c as u128 + j as u128;
        v1 as u128 <= at && at <= v2 as u128
    }

    /// Cuts a tab at column `c` into its columns.
    fn push_tab(&self, out: &mut Vec<(String, bool)>, c: usize, n: usize)
        ensures
            cells_view(final(out)@) == cells_view(old(out)@) + Seq::new(
                n as nat,
                |j: int| (" "@, self@.in_block(c + j)),
            ),
    {
        let ghost base = cells_view(out@);
        let mut j: usize = 0;
        assert(base + Seq::new(0, |j: int| (" "@, self@.in_block(c + j))) =~= base);
        while j < n
            invariant
                j <= n,
                cells_view(out@) == base + Seq::new(
                    j as nat,
                    |j: int| (" "@, self@.in_block(c + j)),
                ),
            decreases n - j,
        {
            let ghost before = out@;
            out.push((" ".to_owned(), self.is_in_block(c, j)));
            assert(cells_view(out@) =~= cells_view(before).push((" "@, self@.in_block(c + j))));
            assert(cells_view(out@) =~= base + Seq::new(
                (j + 1) as nat,
                |j: int| (" "@, self@.in_block(c + j)),
            ));
            j += 1;
        }
    }

    fn is_lit(&self, lo: usize, hi: usize, at: u128, c: usize) -> (r: bool)
        ensures
            r == match self.mode {
                Mode::Visual => lo <= at < hi,
                Mode::VisualLine => true,
                Mode::VisualBlock => self@.in_block(c as int),
                _ => false,
            },
    {
        match self.mode {
            Mode::Visual => lo as u128 <= at && at < hi as u128,
            Mode::VisualLine => true,
            Mode::VisualBlock => self.is_in_block(c, 0),
            _ => false,
        }
    }

    fn cells(&self, k: usize) -> (out: Vec<(String, bool)>)
        requires
            self.wf(),
        ensures
            cells_view(out@) == self@.cells(k as int),
    {
        let line: String = self.buf.line(k);
        let v: Vec<char> = chars_of(&line);
        let (lo, hi) = self.visual_range();
        let a: usize = self.buf.line_byte_offset(k);
        let ts: usize = self.tabstop();
        let block: bool = matches!(self.mode, Mode::VisualBlock);
        let mut out: Vec<(String, bool)> = Vec::new();
        let mut i: usize = 0;
        let mut col: usize = 0;
        let mut at: u128 = a as u128;
        assert(cells_view(out@) =~= Seq::empty());
        while i < v.len()
            invariant
                self.wf(),
                i <= v.len(),
                v@ == self@.line_text(k as int),
                (lo as int, hi as int) == self@.visual_range(),
                a == lines::line_off(self@.buf.text, k as int),
                ts == self@.tabstop(),
                ts > 0,
                block == (self.mode is VisualBlock),
                col == cols::col_after(v@, i as int, ts as int),
                at == a + text::off(v@, i as int),
                text::blen(v@) <= usize::MAX,
                cells_view(out@) == self@.pieces_to(k as int, i as int),
            decreases v.len() - i,
        {
            let ghost before = out@;
            let cw: usize = cell_width(v[i], col, ts);
            proof {
                text::lemma_off_mono(v@, i + 1, v@.len() as int);
            }
            if block && v[i] == '\t' {
                self.push_tab(&mut out, col, cw);
                assert(cells_view(out@) =~= cells_view(before) + self@.pieces(k as int, i as int));
            } else {
                let lit: bool = self.is_lit(lo, hi, at, col);
                out.push((one(v[i]), lit));
                assert(cells_view(out@) =~= cells_view(before) + self@.pieces(k as int, i as int));
            }
            at = at + char_len(v[i]) as u128;
            col = col.saturating_add(cw);
            i += 1;
        }
        let n: usize = self.padding(k);
        if n > 0 {
            let ghost before = out@;
            out.push((repeat(" ", n), true));
            assert(cells_view(out@) =~= cells_view(before).push((
                strs::repeated(" "@, n as int),
                true,
            )));
        }
        out
    }

    fn padding(&self, k: usize) -> (n: usize)
        ensures
            n == self@.padding(k as int),
    {
        let used: usize = visual_width_of(&self.buf.line(k), self.tabstop());
        let w: usize = self.pane_w as usize;
        let room: usize = if w > used {
            w - used
        } else {
            0
        };
        match self.mode {
            Mode::VisualLine => room,
            Mode::VisualBlock => {
                let (v1, v2) = self.visual_cols();
                if v2 >= used {
                    let from: usize = if used >= v1 {
                        used
                    } else {
                        v1
                    };
                    if v2 - from < room {
                        v2 - from + 1
                    } else {
                        room
                    }
                } else {
                    0
                }
            },
            _ => 0,
        }
    }

    fn misses(&self, k: usize) -> (out: Vec<(usize, usize)>)
        ensures
            spans_view(out@) == self@.misses(k as int),
    {
        let off: usize = self.buf.line_byte_offset(k);
        let len: usize = byte_len(&self.buf.line(k));
        let mut out: Vec<(usize, usize)> = Vec::new();
        let mut i: usize = 0;
        assert(spans_view(out@) =~= Seq::empty());
        while i < self.misspellings.len()
            invariant
                i <= self.misspellings.len(),
                off == lines::line_off(self@.buf.text, k as int),
                len == text::blen(self@.line_text(k as int)),
                spans_view(out@) == misses_on(self@.missp, off as int, len as int, i as int),
            decreases self.misspellings.len() - i,
        {
            let ghost before = out@;
            let m: &MisspellRange = &self.misspellings[i];
            assert(self@.missp[i as int] == m@);
            if m.end > off && (m.start < off || m.start - off < len) {
                let s: usize = clamp_to(m.start, off, len);
                let e: usize = clamp_to(m.end, off, len);
                out.push((s, e));
                assert(spans_view(out@) =~= spans_view(before).push((s as int, e as int)));
            }
            i += 1;
        }
        out
    }

    fn body(&self, k: usize) -> (b: Body)
        requires
            self.wf(),
        ensures
            b@ == self@.body(k as int),
    {
        if self.is_touched(k) {
            return Body::Cells(self.cells(k));
        }
        let misses: Vec<(usize, usize)> = self.misses(k);
        assert(spans_view(misses@).len() == misses@.len());
        let dim: bool = self.is_dimmed(k);
        let source: bool = matches!(self.buf.kind_ref(), FileKind::Source(_));
        let styled: bool = source && misses.len() == 0 && !dim;
        Body::Text { styled, dim, misses }
    }

    fn row(&self, k: usize, all: &Vec<String>) -> (r: Row)
        requires
            self.wf(),
            fold::views(all@) == self@.all_lines(),
            all@.len() == self@.line_count(),
        ensures
            r@ == self@.row(k as int),
    {
        let total: usize = all.len();
        if k >= total {
            return Row { line: k, number: None, body: Body::Filler, folded: None };
        }
        let number: Option<String> = if self.shows_numbers() {
            Some(gutter_cell(k, self.cur_line, total, self.options.relative_numbers))
        } else {
            None
        };
        let folds: Vec<usize> = self.folds.closed_folds_containing(k + 1, all);
        let folded: Option<usize> = if folds.len() > 0 && folds[0] == k {
            let end: usize = fold::fold_end(k, all);
            proof {
                fold::lemma_extent(self@.all_lines(), fold::level(self@.all_lines()[k as int]), k + 1, k as int);
            }
            Some(end - k)
        } else {
            None
        };
        Row { line: k, number, body: self.body(k), folded }
    }

    /// The rows of the text pane, from the line at its head on.
    pub fn render_main(&self) -> (out: Vec<Row>)
        requires
            self.wf(),
        ensures
            rows_seen(out@) == self@.painted(self@.scroll, self.pane_h as int),
    {
        let all: Vec<String> = self.all_lines();
        let n: usize = self.pane_h as usize;
        let mut out: Vec<Row> = Vec::new();
        let mut i: usize = 0;
        let mut k: usize = self.scroll;
        let ghost want = self@.painted(self@.scroll, n as int);
        assert(rows_seen(out@) + want =~= want);
        while i < n
            invariant
                self.wf(),
                fold::views(all@) == self@.all_lines(),
                all@.len() == self@.line_count(),
                i <= n,
                want == rows_seen(out@) + self@.painted(k as int, n - i),
            decreases n - i,
        {
            let ghost k0 = k as int;
            while k < all.len() && !self.folds.is_visible(k, &all)
                invariant
                    self.wf(),
                    fold::views(all@) == self@.all_lines(),
                    all@.len() == self@.line_count(),
                    self@.visible_from(k0) == self@.visible_from(k as int),
                decreases all.len() - k,
            {
                k += 1;
            }
            let ghost before = out@;
            out.push(self.row(k, &all));
            assert(rows_seen(out@) =~= rows_seen(before).push(self@.row(k as int)));
            if k < all.len() {
                k += 1;
            }
            assert(rows_seen(before) + self@.painted(k0, n - i) =~= rows_seen(out@)
                + self@.painted(k as int, n - i - 1));
            i += 1;
        }
        assert(want =~= rows_seen(out@));
        out
    }
}

fn clamp_to(b: usize, off: usize, len: usize) -> (n: usize)
    ensures
        n == state::min(state::minus(b as int, off as int), len as int),
{
    if b < off {
        0
    } else if b - off <= len {
        b - off
    } else {
        len
    }
}

/// The paragraph in focus goes from the cursor's line as far as lines with text
/// go in either direction; all other lines are greyed, and none when the focus
/// is off.
pub proof fn law_focus(s: EdV, top: int, bottom: int, k: int)
    requires
        0 <= top <= s.line <= bottom < s.line_count(),
        forall|j: int|
            top <= j <= bottom && j != s.line ==> !chars::blank(#[trigger] s.line_text(j)),
        top == 0 || chars::blank(s.line_text(top - 1)),
        bottom == s.line_count() - 1 || chars::blank(s.line_text(bottom + 1)),
    ensures
        s.paragraph() == (top, bottom),
        s.dimmed(k) <==> s.options.reading && s.options.paragraph_dim && (k < top || bottom < k),
{
    lemma_focus_top(s, top, s.line);
    lemma_focus_bottom(s, bottom, s.line);
}

proof fn lemma_focus_top(s: EdV, top: int, k: int)
    requires
        0 <= top <= k,
        forall|j: int| top <= j < k ==> !chars::blank(#[trigger] s.line_text(j)),
        top == 0 || chars::blank(s.line_text(top - 1)),
    ensures
        s.para_top(k) == top,
    decreases k,
{
    if top < k {
        assert(!chars::blank(s.line_text(k - 1)));
        lemma_focus_top(s, top, k - 1);
    }
}

proof fn lemma_focus_bottom(s: EdV, bottom: int, k: int)
    requires
        k <= bottom < s.line_count(),
        forall|j: int| k < j <= bottom ==> !chars::blank(#[trigger] s.line_text(j)),
        bottom == s.line_count() - 1 || chars::blank(s.line_text(bottom + 1)),
    ensures
        s.para_bottom(k) == bottom,
    decreases bottom - k,
{
    if k < bottom {
        assert(!chars::blank(s.line_text(k + 1)));
        lemma_focus_bottom(s, bottom, k + 1);
    }
}

/// Just the selected characters are lit, from the first one to the last.
pub proof fn law_selected_lit(s: EdV, a: int, b: int, k: int, i: int)
    requires
        crate::editor::selections::selects(s, a, b),
        0 <= k < s.line_count(),
        0 <= i < s.line_text(k).len(),
    ensures
        s.lit(k, i) <==> a <= lines::line_start(s.buf.text, k) + i <= b,
        s.lit(k, i) ==> s.touched(k),
{
    let t = s.buf.text;
    let l = s.line_text(k);
    let st = lines::line_start(t, k);
    lines::lemma_line_raw(t, k);
    assert(text::off(l, i) == text::off(t, st + i) - lines::line_off(t, k));
    assert(text::off(l, 0) == text::off(t, st + 0) - lines::line_off(t, k));
    crate::editor::selections::lemma_selects(s, a, b);
    let p = st + i;
    if p <= b {
        text::lemma_off_mono(t, p, b + 1);
    } else {
        text::lemma_off_mono(t, b + 1, p);
    }
    if p < a {
        text::lemma_off_mono(t, p, a);
    } else {
        text::lemma_off_mono(t, a, p);
    }
    text::lemma_off_mono(l, i, l.len() as int);
    text::lemma_off_mono(l, 0, i);
}

/// A misspelling that lies on the line is marked there, at its place on the
/// line; what is marked never goes past the line.
pub proof fn law_misses_marked(m: Seq<MisspellV>, off: int, len: int, n: int, i: int)
    requires
        0 <= i < n <= m.len(),
        0 <= off,
        0 <= len,
    ensures
        off <= m[i].start < m[i].end <= off + len ==> misses_on(m, off, len, n).contains(
            (m[i].start - off, m[i].end - off),
        ),
        forall|j: int|
            0 <= j < misses_on(m, off, len, n).len() ==> 0 <= (#[trigger] misses_on(
                m,
                off,
                len,
                n,
            )[j]).0 <= len && 0 <= misses_on(m, off, len, n)[j].1 <= len,
        misses_on(m, off, len, n).len() <= n,
    decreases n,
{
    let rest = misses_on(m, off, len, n - 1);
    let all = misses_on(m, off, len, n);
    if i < n - 1 {
        law_misses_marked(m, off, len, n - 1, i);
        if off <= m[i].start < m[i].end <= off + len {
            let x = (m[i].start - off, m[i].end - off);
            let j = choose|j: int| 0 <= j < rest.len() && rest[j] == x;
            assert(all[j] == x);
        }
    } else {
        if n > 1 {
            law_misses_marked(m, off, len, n - 1, 0);
        }
        if off <= m[i].start < m[i].end <= off + len {
            assert(all[rest.len() as int] == (m[i].start - off, m[i].end - off));
        }
    }
}

} // verus!
