//! Operators, single-character edits and puts.

use vstd::prelude::*;
use vstd::string::*;
use crate::buffer;
use crate::chars;
use crate::cols;
use crate::cols::{byte_at_or_past_col, display_col};
use crate::editor::cursor;
use crate::editor::motions;
use crate::editor::motions::step_byte;
use crate::editor::state;
use crate::editor::state::{Editor, EdV, LastChange, LastChangeV};
use crate::fold;
use crate::layout;
use crate::layout::{reformat_paragraphs, shift_text};
use crate::lines;
use crate::motion;
use crate::motion::find_nth;
use crate::register::{YankKind, YankV};
use crate::strs;
use crate::strs::{cat2, cat3, count_char, dec, one, repeat, split};
use crate::text;
use crate::text::{byte_len, chars_of, index_at, offset_of, same};

verus! {

/// How much was yanked or deleted, in words.
pub open spec fn amount(kind: crate::register::YankKind, t: Seq<char>) -> Seq<char> {
    match kind {
        YankKind::Charwise => if t.len() == 1 {
            "1 char"@
        } else {
            strs::dec_of(t.len() as int) + " chars"@
        },
        YankKind::Linewise => {
            let n = strs::count_of(t, '\n', t.len() as int);
            if n <= 1 {
                "1 line"@
            } else {
                strs::dec_of(n) + " lines"@
            }
        },
        YankKind::Block => {
            let n = strs::count_of(t, '\n', t.len() as int) + 1;
            if n == 1 {
                "1 block row"@
            } else {
                strs::dec_of(n) + " block rows"@
            }
        },
    }
}

pub open spec fn into_register(reg: Option<char>) -> Seq<char> {
    match reg {
        Some(c) => " into \""@ + seq![c],
        None => ""@,
    }
}

pub open spec fn yank_message(
    verb: Seq<char>,
    reg: Option<char>,
    kind: YankKind,
    t: Seq<char>,
) -> Seq<char> {
    " "@ + amount(kind, t) + " "@ + verb + into_register(reg)
}

/// A text that ends with a line feed.
pub open spec fn with_lf(s: Seq<char>) -> Seq<char> {
    if s.len() > 0 && s.last() == '\n' {
        s
    } else {
        s.push('\n')
    }
}

/// Byte column of the first character that is not white space; 0 when there
/// is none.
pub open spec fn ink_col(l: Seq<char>) -> int {
    let i = text::skip_fwd(l, 0, chars::space_fn());
    if i < l.len() {
        text::off(l, i)
    } else {
        0
    }
}

impl EdV {
    /// The cursor stays, rounded down to a character.
    pub open spec fn settle(self) -> EdV {
        self.place(self.line, self.col)
    }

    pub open spec fn say_yank(self, verb: Seq<char>, kind: YankKind, t: Seq<char>) -> EdV {
        self.say(
            yank_message(verb, self.pending.register, kind, t),
            if verb == "yanked"@ {
                46
            } else {
                178
            },
        )
    }

    pub open spec fn cut(self, t: Seq<char>, kind: YankKind) -> EdV {
        EdV { regs: self.regs.cut(self.pending.register, YankV { text: t, kind }), ..self }
    }

    pub open spec fn yank(self, t: Seq<char>, kind: YankKind) -> EdV {
        EdV { regs: self.regs.yank(self.pending.register, YankV { text: t, kind }), ..self }
    }

    /// The text of a byte range, limited and rounded.
    pub open spec fn taken(self, a: int, b: int) -> Seq<char> {
        let t = self.buf.text;
        let lo = state::legal(t, a);
        buffer::slice(t, lo, state::max(lo, state::legal(t, b)))
    }

    /// An operator on the bytes `a..b`: `d` deletes, `c` deletes and goes on
    /// to insert, `y` yanks.
    #[verifier::opaque]
    pub open spec fn op_charwise(self, op: char, a: int, b: int) -> EdV {
        let t = self.taken(a, b);
        let k = YankKind::Charwise;
        if a >= b {
            self
        } else if op == 'd' {
            self.cut(t, k).edit(a, b, Seq::empty()).goto(a).say_yank("deleted"@, k, t)
        } else if op == 'c' {
            self.cut(t, k).edit(a, b, Seq::empty()).enter_insert().goto(a).say_yank(
                "changed"@,
                k,
                t,
            )
        } else if op == 'y' {
            self.yank(t, k).say_yank("yanked"@, k, t)
        } else {
            self
        }
    }

    /// Bytes of the lines `from..=to`.
    pub open spec fn lines_start(self, from: int) -> int {
        lines::line_off(self.buf.text, from)
    }

    pub open spec fn lines_end(self, to: int) -> int {
        lines::line_off(self.buf.text, to + 1)
    }

    /// The pending operator on `extra + 1` lines from `from` on: besides `d`,
    /// `c` and `y`, `Q` fills paragraphs and `>` and `<` shift.
    #[verifier::opaque]
    pub open spec fn op_linewise(self, from: int, extra: int) -> EdV {
        let to = state::min(state::plus(from, extra), self.last_line());
        let a = self.lines_start(from);
        let b = self.lines_end(to);
        let t = with_lf(self.taken(a, b));
        let k = YankKind::Linewise;
        match self.pending.operator {
            None => self,
            Some(op) => if op == 'd' {
                self.lines_cut(from, a, b, t)
            } else if op == 'c' {
                self.lines_changed(from, a, b, t)
            } else if op == 'y' {
                self.yank(t, k).say_yank("yanked"@, k, t)
            } else if op == 'Q' {
                self.lines_redone(a, b, t, layout::reformatted(t, 72)).place(from, 0).keep()
            } else if op == '>' || op == '<' {
                let r = layout::shifted_text(t, op == '>', self.buf.kind, 0);
                let s = self.lines_redone(a, b, t, r);
                s.place(from, ink_col(s.line_text(from))).keep()
            } else {
                self
            },
        }
    }

    /// The lines `t` at `a..b` deleted, with the cursor on the line that takes
    /// their place.
    #[verifier::opaque]
    pub open spec fn lines_cut(self, from: int, a: int, b: int, t: Seq<char>) -> EdV {
        let k = YankKind::Linewise;
        let s = self.cut(t, k).edit(a, b, Seq::empty());
        s.place(state::min(from, s.last_line()), 0).keep().say_yank("deleted"@, k, t)
    }

    /// The lines `t` at `a..b` emptied to be typed anew.
    #[verifier::opaque]
    pub open spec fn lines_changed(self, from: int, a: int, b: int, t: Seq<char>) -> EdV {
        let k = YankKind::Linewise;
        self.cut(t, k).edit(a, b, "\n"@).place(from, 0).keep().enter_insert().say_yank(
            "changed"@,
            k,
            t,
        )
    }

    /// The lines `t` at `a..b` replaced by `r` where that differs.
    #[verifier::opaque]
    pub open spec fn lines_redone(self, a: int, b: int, t: Seq<char>, r: Seq<char>) -> EdV {
        if r != t {
            self.edit(a, b, r)
        } else {
            self
        }
    }

    /// Yanks the lines `from..=to`.
    #[verifier::opaque]
    pub open spec fn yank_lines(self, from: int, to: int) -> EdV {
        let t = with_lf(
            self.taken(
                self.lines_start(from),
                self.lines_end(state::min(to, self.last_line())),
            ),
        );
        self.yank(t, YankKind::Linewise).say_yank("yanked"@, YankKind::Linewise, t)
    }

    /// Byte offset after the character at the cursor.
    pub open spec fn after_char(self) -> int {
        let l = self.line_text(self.line);
        lines::line_off(self.buf.text, self.line) + text::off(l, text::at(l, self.col) + 1)
    }

    /// The character at the cursor replaced; nothing past the end of a line.
    #[verifier::opaque]
    pub open spec fn replace_char(self, c: char) -> EdV {
        if self.col >= self.line_len() {
            self
        } else {
            let s = self.edit(self.cursor(), self.after_char(), seq![c]).settle();
            EdV { last: Some(LastChangeV::Replace { c, count: 1 }), ..s }
        }
    }

    /// `f` and `t`: to the `n`th `c` ahead on the line, or to the character
    /// before it.
    #[verifier::opaque]
    pub open spec fn find_char(self, c: char, before: bool, n: int) -> EdV {
        match motion::nth_on_line(self.buf.text, self.cursor(), c, true, n) {
            None => self,
            Some(b) => self.goto(
                if before && b > 0 {
                    text::floor(self.buf.text, b - 1)
                } else {
                    b
                },
            ),
        }
    }

    /// Where an operator with `f`, `t`, `F` or `T` and the `n`th `c` works up
    /// to: past the character found with `f`, up to it with `t`, and from it
    /// or from past it on with `F` and `T`.
    #[verifier::opaque]
    pub open spec fn find_bound(self, how: char, c: char, n: int) -> Option<int> {
        let t = self.buf.text;
        let found = if how == 'f' || how == 't' || how == 'F' || how == 'T' {
            motion::nth_on_line(t, self.cursor(), c, how == 'f' || how == 't', n)
        } else {
            None
        };
        match found {
            Some(b) => Some(
                if how == 'f' || how == 'T' {
                    motions::next_byte(t, b)
                } else {
                    b
                },
            ),
            None => None,
        }
    }

    /// `F` and `T`: to the `n`th `c` back on the line, or to the character
    /// after it.
    #[verifier::opaque]
    pub open spec fn find_char_back(self, c: char, after: bool, n: int) -> EdV {
        let t = self.buf.text;
        match motion::nth_on_line(t, self.cursor(), c, false, n) {
            None => self,
            Some(b) => self.goto(
                if after {
                    motions::next_byte(t, b)
                } else {
                    b
                },
            ),
        }
    }
}

impl Editor {
    pub fn settle(&mut self)
        requires
            old(self).ok(),
            old(self)@.buf.calm(),
        ensures
            final(self)@ == old(self)@.settle(),
            final(self).wf(),
    {
        self.place(self.cur_line, self.cur_col);
    }

    /// Reports a yank, delete or change in the status line.
    pub fn say_yank(&mut self, verb: &str, reg: Option<char>, kind: YankKind, t: &str)
        requires
            old(self).ok(),
            reg == old(self).pending.register,
        ensures
            final(self)@ == old(self)@.say_yank(verb@, kind, t@),
            final(self).ok(),
            old(self).wf() ==> final(self).wf(),
    {
        let label: String = match kind {
            YankKind::Charwise => {
                let n: usize = chars_of(t).len();
                if n == 1 {
                    "1 char".to_owned()
                } else {
                    cat2(&dec(n as u128), " chars")
                }
            },
            YankKind::Linewise => {
                let n: usize = count_char(t, '\n');
                if n <= 1 {
                    "1 line".to_owned()
                } else {
                    cat2(&dec(n as u128), " lines")
                }
            },
            YankKind::Block => {
                let n: u128 = count_char(t, '\n') as u128 + 1;
                if n == 1 {
                    "1 block row".to_owned()
                } else {
                    cat2(&dec(n), " block rows")
                }
            },
        };
        let part: String = match reg {
            Some(c) => cat2(" into \"", &one(c)),
            None => "".to_owned(),
        };
        let head: String = cat3(" ", &label, " ");
        let msg: String = cat3(&head, verb, &part);
        let color: u8 = if same(verb, "yanked") {
            46
        } else {
            178
        };
        self.set_status(&msg, color);
    }

    /// The text of a byte range, limited and rounded.
    pub fn taken(&self, a: usize, b: usize) -> (s: String)
        ensures
            s@ == self@.taken(a as int, b as int),
    {
        let lo: usize = self.legal_byte(a);
        let h: usize = self.legal_byte(b);
        let hi: usize = if h > lo {
            h
        } else {
            lo
        };
        self.buf.slice(lo, hi)
    }

    /// An operator on a range of bytes.
    pub fn execute_op_charwise(&mut self, op: char, start: usize, end: usize)
        requires
            old(self).wf(),
        ensures
            final(self)@ == old(self)@.op_charwise(op, start as int, end as int),
            final(self).wf(),
    {
        proof {
            reveal(EdV::op_charwise);
        }
        if start >= end {
            return;
        }
        let t: String = self.taken(start, end);
        let reg: Option<char> = self.pending.register;
        let k: YankKind = YankKind::Charwise;
        if op == 'd' {
            self.regs.cut(reg, t.clone(), k);
            self.edit(start, end, &String::new());
            self.cursor_to_byte(start);
            self.say_yank("deleted", reg, k, &t);
        } else if op == 'c' {
            self.regs.cut(reg, t.clone(), k);
            self.edit(start, end, &String::new());
            self.enter_insert();
            self.cursor_to_byte(start);
            self.say_yank("changed", reg, k, &t);
        } else if op == 'y' {
            self.regs.yank(reg, t.clone(), k);
            self.say_yank("yanked", reg, k, &t);
        }
    }

    /// The text of the lines `from..=to` with a line feed at the end.
    fn line_block(&self, from: usize, to: usize) -> (r: (usize, usize, String))
        requires
            to < usize::MAX,
        ensures
            r.0 == self@.lines_start(from as int),
            r.1 == self@.lines_end(to as int),
            r.2@ == with_lf(self@.taken(r.0 as int, r.1 as int)),
    {
        let start: usize = self.buf.line_byte_offset(from);
        let end: usize = self.buf.line_byte_offset(to + 1);
        let mut t: String = self.taken(start, end);
        let v: Vec<char> = chars_of(&t);
        if v.len() == 0 || v[v.len() - 1] != '\n' {
            t.push('\n');
        }
        (start, end, t)
    }

    fn cut_lines(&mut self, from: usize, start: usize, end: usize, t: &String)
        requires
            old(self).wf(),
        ensures
            final(self)@ == old(self)@.lines_cut(from as int, start as int, end as int, t@),
            final(self).wf(),
    {
        proof {
            reveal(EdV::lines_cut);
        }
        let reg: Option<char> = self.pending.register;
        let k: YankKind = YankKind::Linewise;
        self.regs.cut(reg, t.clone(), k);
        self.edit(start, end, &String::new());
        let last: usize = self.buf.line_count() - 1;
        let line: usize = if from <= last {
            from
        } else {
            last
        };
        self.place(line, 0);
        self.keep();
        self.say_yank("deleted", reg, k, t);
    }

    fn retype_lines(&mut self, from: usize, start: usize, end: usize, t: &String)
        requires
            old(self).wf(),
        ensures
            final(self)@ == old(self)@.lines_changed(from as int, start as int, end as int, t@),
            final(self).wf(),
    {
        proof {
            reveal(EdV::lines_changed);
        }
        let reg: Option<char> = self.pending.register;
        let k: YankKind = YankKind::Linewise;
        self.regs.cut(reg, t.clone(), k);
        self.edit(start, end, "\n");
        self.place(from, 0);
        self.keep();
        self.enter_insert();
        self.say_yank("changed", reg, k, t);
    }

    fn redo_lines(&mut self, start: usize, end: usize, t: &String, r: &String)
        requires
            old(self).wf(),
        ensures
            final(self)@ == old(self)@.lines_redone(start as int, end as int, t@, r@),
            final(self).ok(),
            final(self)@.buf.calm(),
    {
        proof {
            reveal(EdV::lines_redone);
        }
        if !same(r, t) {
            self.edit(start, end, r);
        }
    }

    /// The pending operator on `extra + 1` lines from `from` on.
    pub fn execute_op_linewise(&mut self, from: usize, extra: usize)
        requires
            old(self).wf(),
        ensures
            final(self)@ == old(self)@.op_linewise(from as int, extra as int),
            final(self).wf(),
    {
        proof {
            reveal(EdV::op_linewise);
        }
        let op: char = match self.pending.operator {
            None => {
                return;
            },
            Some(op) => op,
        };
        let last: usize = self.buf.line_count() - 1;
        let sum: usize = from.saturating_add(extra);
        let to: usize = if sum <= last {
            sum
        } else {
            last
        };
        let (start, end, t) = self.line_block(from, to);
        if op == 'd' {
            self.cut_lines(from, start, end, &t);
        } else if op == 'c' {
            self.retype_lines(from, start, end, &t);
        } else if op == 'y' {
            let reg: Option<char> = self.pending.register;
            self.regs.yank(reg, t.clone(), YankKind::Linewise);
            self.say_yank("yanked", reg, YankKind::Linewise, &t);
        } else if op == 'Q' {
            let r: String = reformat_paragraphs(&t, 72);
            self.redo_lines(start, end, &t, &r);
            self.place(from, 0);
            self.keep();
        } else if op == '>' || op == '<' {
            let r: String = shift_text(&t, op == '>', self.buf.kind_ref());
            self.redo_lines(start, end, &t, &r);
            let col: usize = first_ink(&self.buf.line(from));
            self.place(from, col);
            self.keep();
        }
    }

    /// Yanks the lines `from..=to`.
    pub fn execute_op_linewise_yank(&mut self, from: usize, to: usize)
        requires
            old(self).wf(),
        ensures
            final(self)@ == old(self)@.yank_lines(from as int, to as int),
            final(self).wf(),
    {
        proof {
            reveal(EdV::yank_lines);
        }
        let last: usize = self.buf.line_count() - 1;
        let end: usize = if to <= last {
            to
        } else {
            last
        };
        let (_a, _b, t) = self.line_block(from, end);
        let reg: Option<char> = self.pending.register;
        self.regs.yank(reg, t.clone(), YankKind::Linewise);
        self.say_yank("yanked", reg, YankKind::Linewise, &t);
    }

    /// Byte offset after the character at the cursor.
    pub fn after_char(&self) -> (b: usize)
        requires
            self.wf(),
            self@.col < self@.line_len(),
        ensures
            b == self@.after_char(),
            b <= text::blen(self@.buf.text),
    {
        let line: String = self.buf.line(self.cur_line);
        let v: Vec<char> = chars_of(&line);
        let i: usize = index_at(&v, self.cur_col);
        let total: usize = self.buf.len_bytes();
        proof {
            text::lemma_at(line@, self@.col);
            lines::lemma_line_raw(self@.buf.text, self@.line);
            text::lemma_off_mono(line@, i + 1, line@.len() as int);
        }
        self.buf.line_byte_offset(self.cur_line) + offset_of(&v, i + 1)
    }

    /// Replaces the character at the cursor.
    pub fn do_replace_char(&mut self, c: char)
        requires
            old(self).wf(),
        ensures
            final(self)@ == old(self)@.replace_char(c),
            final(self).wf(),
    {
        proof {
            reveal(EdV::replace_char);
        }
        if self.cur_col >= self.current_line_len() {
            return;
        }
        let a: usize = self.cursor_byte();
        let b: usize = self.after_char();
        self.edit(a, b, &one(c));
        self.settle();
        self.last_change = Some(LastChange::Replace { c, count: 1 });
    }

    /// To the `n`th `c` ahead on the line, or before it.
    pub fn do_find_forward(&mut self, c: char, before: bool, n: usize)
        requires
            old(self).wf(),
        ensures
            final(self)@ == old(self)@.find_char(c, before, n as int),
            final(self).wf(),
    {
        proof {
            reveal(EdV::find_char);
        }
        let cur: usize = self.cursor_byte();
        if let Some(b) = find_nth(&self.buf, cur, c, true, n) {
            let target: usize = if before && b > 0 {
                let v: Vec<char> = self.buf.chars();
                let i: usize = index_at(&v, b - 1);
                offset_of(&v, i)
            } else {
                b
            };
            self.cursor_to_byte(target);
        }
    }

    /// To the `n`th `c` back on the line, or after it.
    pub fn do_find_backward(&mut self, c: char, after: bool, n: usize)
        requires
            old(self).wf(),
        ensures
            final(self)@ == old(self)@.find_char_back(c, after, n as int),
            final(self).wf(),
    {
        proof {
            reveal(EdV::find_char_back);
        }
        let cur: usize = self.cursor_byte();
        if let Some(b) = find_nth(&self.buf, cur, c, false, n) {
            let target: usize = if after {
                step_byte(&self.buf.chars(), b)
            } else {
                b
            };
            self.cursor_to_byte(target);
        }
    }
}

impl Editor {
    /// Where an operator with `f`, `t`, `F` or `T` works up to.
    pub fn find_bound(&self, how: char, c: char, n: usize) -> (r: Option<usize>)
        requires
            self.wf(),
        ensures
            buffer::int_opt(r) == self@.find_bound(how, c, n as int),
    {
        proof {
            reveal(EdV::find_bound);
        }
        let cur: usize = self.cursor_byte();
        let found: Option<usize> = if how == 'f' || how == 't' || how == 'F' || how == 'T' {
            find_nth(&self.buf, cur, c, how == 'f' || how == 't', n)
        } else {
            None
        };
        match found {
            Some(b) => if how == 'f' || how == 'T' {
                Some(step_byte(&self.buf.chars(), b))
            } else {
                Some(b)
            },
            None => None,
        }
    }
}

/// Byte column of the first character that is not white space.
pub fn first_ink(line: &str) -> (c: usize)
    ensures
        c == ink_col(line@),
{
    let v: Vec<char> = chars_of(line);
    let i: usize = strs::ink_start(&v, 0);
    if i < v.len() {
        offset_of(&v, i)
    } else {
        0
    }
}

// ── Puts ────────────────────────────────────────────────────────────────

pub open spec fn spaces(n: int) -> Seq<char> {
    strs::repeated(" "@, n)
}

pub open spec fn at_least_one(n: int) -> int {
    if n < 1 {
        1
    } else {
        n
    }
}

/// A line feed, unless the text ends with one.
pub open spec fn missing_lf(t: Seq<char>) -> Seq<char> {
    if t.len() > 0 && t.last() == '\n' {
        ""@
    } else {
        "\n"@
    }
}

impl EdV {
    /// Row of a block put: `chunk` at display column `v` of line `k`, which
    /// is padded with blanks or appended if need be.
    pub open spec fn put_row(self, k: int, chunk: Seq<char>, v: int, ts: int) -> EdV {
        let t = self.buf.text;
        let l = self.line_text(k);
        let start = lines::line_off(t, k);
        let w = cols::column(l, text::blen(l), ts);
        if k >= self.line_count() {
            self.edit(text::blen(t), text::blen(t), missing_lf(t) + spaces(v) + chunk)
        } else if w >= v {
            let at = start + text::off(l, cols::index_at_col(l, v, ts));
            self.edit(at, at, chunk)
        } else {
            let end = start + text::blen(l);
            self.edit(end, end, spaces(v - w) + chunk)
        }
    }

    /// The rows of a block put from index `i` on.
    pub open spec fn put_rows(
        self,
        rows: Seq<Seq<char>>,
        i: int,
        v: int,
        count: int,
        ts: int,
    ) -> EdV
        decreases rows.len() - i,
    {
        if i < 0 || i >= rows.len() {
            self
        } else {
            self.put_row(
                state::plus(self.line, i),
                strs::repeated(rows[i], at_least_one(count)),
                v,
                ts,
            ).put_rows(rows, i + 1, v, count, ts)
        }
    }

    /// Display column that a block is put at.
    pub open spec fn put_col(self, after: bool) -> int {
        let l = self.line_text(self.line);
        let c = cols::column(l, state::min(self.col, text::blen(l)), self.tabstop());
        if after && self.col < text::blen(l) {
            state::plus(c, 1)
        } else {
            c
        }
    }

    /// The cursor at a display column of its line.
    pub open spec fn at_col(self, v: int) -> EdV {
        let l = self.line_text(self.line);
        self.place(self.line, text::off(l, cols::index_at_col(l, v, self.tabstop()))).keep()
    }

    pub open spec fn put_block(self, t: Seq<char>, after: bool, count: int) -> EdV {
        let v = self.put_col(after);
        self.open_undo().put_rows(
            strs::split_from(t, '\n', 0),
            0,
            v,
            count,
            self.tabstop(),
        ).close_undo().at_col(v)
    }

    pub open spec fn put_chars(self, t: Seq<char>, after: bool) -> EdV {
        let at = if after && self.col < self.line_len() {
            self.after_char()
        } else {
            self.cursor()
        };
        let s = self.edit(at, at, t);
        let end = at + text::blen(t);
        let last = if end > 0 {
            text::floor(s.buf.text, end - 1)
        } else {
            0
        };
        s.goto(state::max(last, at))
    }

    pub open spec fn put_lines(self, t: Seq<char>, after: bool) -> EdV {
        let k = if after {
            state::plus(self.line, 1)
        } else {
            self.line
        };
        let n = text::blen(self.buf.text);
        if k >= self.line_count() {
            let s = self.edit(n, n, missing_lf(self.buf.text) + t);
            s.place(s.last_line(), 0).keep()
        } else {
            let at = lines::line_off(self.buf.text, k);
            self.edit(at, at, t).place(k, 0).keep()
        }
    }

    /// `p` and `P`: puts the register's text after the cursor or before it,
    /// laid out by its kind.
    #[verifier::opaque]
    pub open spec fn put(self, after: bool, count: int) -> EdV {
        let name = match self.pending.register {
            Some(c) => c,
            None => '"',
        };
        match self.regs.get(name) {
            None => self.say(" register empty"@, 244),
            Some(y) => {
                let t = strs::repeated(y.text, at_least_one(count));
                match y.kind {
                    YankKind::Block => self.put_block(y.text, after, count),
                    YankKind::Charwise => self.put_chars(t, after),
                    YankKind::Linewise => self.put_lines(t, after),
                }
            },
        }
    }
}

impl Editor {
    /// Whether the text ends with a line feed.
    pub(crate) fn ends_with_lf(&self) -> (r: bool)
        ensures
            r == (self@.buf.text.len() > 0 && self@.buf.text.last() == '\n'),
    {
        let v: Vec<char> = self.buf.chars();
        v.len() > 0 && v[v.len() - 1] == '\n'
    }

    fn missing_lf(&self) -> (s: &'static str)
        ensures
            s@ == missing_lf(self@.buf.text),
    {
        if self.ends_with_lf() {
            ""
        } else {
            "\n"
        }
    }

    fn put_row(&mut self, k: usize, chunk: &str, v: usize, ts: usize)
        requires
            old(self).ok(),
            ts > 0,
        ensures
            final(self)@ == old(self)@.put_row(k as int, chunk@, v as int, ts as int),
            final(self).ok(),
            final(self)@.buf.depth == old(self)@.buf.depth,
    {
        let total: usize = self.buf.len_bytes();
        if k >= self.buf.line_count() {
            let blanks: String = repeat(" ", v);
            let payload: String = cat3(self.missing_lf(), &blanks, chunk);
            self.edit(total, total, &payload);
            return;
        }
        let l: String = self.buf.line(k);
        let n: usize = byte_len(&l);
        let start: usize = self.buf.line_byte_offset(k);
        let w: usize = display_col(&l, n, ts);
        proof {
            lines::lemma_line_raw(self@.buf.text, k as int);
        }
        if w >= v {
            let (b, _c) = byte_at_or_past_col(&l, v, ts);
            self.edit(start + b, start + b, chunk);
        } else {
            let blanks: String = repeat(" ", v - w);
            let payload: String = cat2(&blanks, chunk);
            self.edit(start + n, start + n, &payload);
        }
    }

    /// Puts the cursor at a display column of its line.
    pub fn cursor_to_col(&mut self, v: usize)
        requires
            old(self).ok(),
            old(self)@.buf.calm(),
        ensures
            final(self)@ == old(self)@.at_col(v as int),
            final(self).wf(),
    {
        let ts: usize = self.tabstop();
        let l: String = self.buf.line(self.cur_line);
        let (b, _c) = byte_at_or_past_col(&l, v, ts);
        self.place(self.cur_line, b);
        self.keep();
    }

    fn put_block(&mut self, t: &str, after: bool, count: usize)
        requires
            old(self).wf(),
        ensures
            final(self)@ == old(self)@.put_block(t@, after, count as int),
            final(self).wf(),
    {
        let ts: usize = self.tabstop();
        let rows: Vec<String> = split(t, '\n');
        let l: String = self.buf.line(self.cur_line);
        let n: usize = byte_len(&l);
        let c: usize = display_col(
            &l,
            if self.cur_col <= n {
                self.cur_col
            } else {
                n
            },
            ts,
        );
        let v: usize = if after && self.cur_col < n {
            c.saturating_add(1)
        } else {
            c
        };
        self.open_undo();
        let ghost s0 = self@;
        let ghost rv = fold::views(rows@);
        let top: usize = self.cur_line;
        let times: usize = if count < 1 {
            1
        } else {
            count
        };
        let mut i: usize = 0;
        while i < rows.len()
            invariant
                i <= rows.len(),
                rv == fold::views(rows@),
                self.ok(),
                self@.buf.depth == 1,
                ts > 0,
                self@.line == top,
                times == at_least_one(count as int),
                self@.put_rows(rv, i as int, v as int, count as int, ts as int) == s0.put_rows(
                    rv,
                    0,
                    v as int,
                    count as int,
                    ts as int,
                ),
                self@.buf.kind == s0.buf.kind,
            decreases rows.len() - i,
        {
            assert(rv[i as int] == rows@[i as int]@);
            let chunk: String = repeat(&rows[i], times);
            self.put_row(top.saturating_add(i), &chunk, v, ts);
            i += 1;
        }
        self.close_undo();
        self.cursor_to_col(v);
    }

    fn put_chars(&mut self, t: &str, after: bool)
        requires
            old(self).wf(),
        ensures
            final(self)@ == old(self)@.put_chars(t@, after),
            final(self).wf(),
    {
        let at: usize = if after && self.cur_col < self.current_line_len() {
            self.after_char()
        } else {
            self.cursor_byte()
        };
        let ghost before = self@;
        self.edit(at, at, t);
        let total: usize = self.buf.len_bytes();
        proof {
            cursor::lemma_legal(before.buf.text, at as int);
            lemma_after_char(before);
            buffer::lemma_apply_wf(before.buf, at as int, at as int, t@);
        }
        let end: usize = at + byte_len(t);
        let last: usize = if end > 0 {
            let v: Vec<char> = self.buf.chars();
            let i: usize = index_at(&v, end - 1);
            offset_of(&v, i)
        } else {
            0
        };
        self.cursor_to_byte(
            if last >= at {
                last
            } else {
                at
            },
        );
    }

    fn put_lines(&mut self, t: &str, after: bool)
        requires
            old(self).wf(),
        ensures
            final(self)@ == old(self)@.put_lines(t@, after),
            final(self).wf(),
    {
        let k: usize = if after {
            self.cur_line.saturating_add(1)
        } else {
            self.cur_line
        };
        if k >= self.buf.line_count() {
            let total: usize = self.buf.len_bytes();
            let payload: String = cat2(self.missing_lf(), t);
            self.edit(total, total, &payload);
            let last: usize = self.buf.line_count() - 1;
            self.place(last, 0);
        } else {
            let at: usize = self.buf.line_byte_offset(k);
            self.edit(at, at, t);
            self.place(k, 0);
        }
        self.keep();
    }

    /// Puts the text of the pending register.
    pub fn do_paste(&mut self, after: bool, count: usize)
        requires
            old(self).wf(),
        ensures
            final(self)@ == old(self)@.put(after, count as int),
            final(self).wf(),
    {
        proof {
            reveal(EdV::put);
        }
        let name: char = match self.pending.register {
            Some(c) => c,
            None => '"',
        };
        let y = match self.regs.get(name) {
            None => {
                self.set_status(" register empty", 244);
                return;
            },
            Some(y) => y.copy(),
        };
        if y.kind == YankKind::Block {
            self.put_block(&y.text, after, count);
            return;
        }
        let times: usize = if count < 1 {
            1
        } else {
            count
        };
        let t: String = repeat(&y.text, times);
        match y.kind {
            YankKind::Linewise => {
                self.put_lines(&t, after);
            },
            _ => {
                self.put_chars(&t, after);
            },
        }
    }
}

/// After the character at the cursor another one starts.
proof fn lemma_after_char(s: EdV)
    requires
        0 <= s.line,
        0 <= s.col,
        text::bd(s.buf.text, s.cursor()),
    ensures
        s.col < s.line_len() ==> text::bd(s.buf.text, s.after_char()),
{
    if s.col < s.line_len() {
        let t = s.buf.text;
        let l = s.line_text(s.line);
        lines::lemma_line_raw(t, s.line);
        text::lemma_at(l, s.col);
        let i = text::at(l, s.col) + 1;
        text::lemma_at_off(t, lines::line_start(t, s.line) + i);
    }
}

} // verus!
