//! Commands of Normal mode that are not motions.

use vstd::prelude::*;
use vstd::string::*;
use crate::chars;
use crate::chars::ascii_upper;
use crate::editor::cursor;
use crate::editor::items;
use crate::editor::motions;
use crate::editor::motions::step_byte;
use crate::editor::state;
use crate::editor::state::{
    Action, ActionV, ChangeMotion, ChangeMotionV, Editor, EdV, LastChange, LastChangeV, Pending,
};
use crate::editor::typing;
use crate::fold;
use crate::fold::fold_end;
use crate::lines;
use crate::motion;
use crate::search::Direction;
use crate::strs;
use crate::strs::{cat2, one};
use crate::text;
use crate::text::{byte_len, char_len, chars_of, index_at, offset_of, piece, same};

verus! {

/// A letter of the Latin alphabet in the other case.
pub open spec fn flipped(c: char) -> char {
    if chars::is_ascii_upper(c) {
        ((c as u32 + 32) as u32) as char
    } else if chars::is_ascii_lower(c) {
        ((c as u32 - 32) as u32) as char
    } else {
        c
    }
}

fn flip_case(c: char) -> (r: char)
    ensures
        r == flipped(c),
{
    if ascii_upper(c) {
        ((c as u8) + 32) as char
    } else if 'a' <= c && c <= 'z' {
        ((c as u8) - 32) as char
    } else {
        c
    }
}

impl EdV {
    /// End of the line that the cursor's byte is on.
    pub open spec fn line_end_here(self) -> int {
        let k = lines::line_at(self.buf.text, self.cursor());
        lines::line_off(self.buf.text, k) + text::blen(self.line_text(k))
    }

    /// The indentation that a new line takes over: tabs, spaces, asterisks.
    pub open spec fn inherited(self) -> Seq<char> {
        let l = self.line_text(self.line);
        l.take(items::lead(l))
    }

    /// `n` lines down.
    #[verifier::opaque]
    pub open spec fn page_down(self, n: int) -> EdV {
        EdV { line: state::min(state::plus(self.line, n), self.last_line()), ..self }.clamp()
    }

    /// `n` lines up.
    #[verifier::opaque]
    pub open spec fn page_up(self, n: int) -> EdV {
        EdV { line: state::minus(self.line, n), ..self }.clamp()
    }

    /// `a`: Insert mode after the character at the cursor.
    #[verifier::opaque]
    pub open spec fn append(self) -> EdV {
        let l = self.line_text(self.line);
        (if self.col < text::blen(l) {
            self.place(self.line, motions::next_byte(l, self.col))
        } else {
            self
        }).enter_insert()
    }

    #[verifier::opaque]
    pub open spec fn insert_first(self) -> EdV {
        self.place(self.line, 0).enter_insert()
    }

    #[verifier::opaque]
    pub open spec fn append_last(self) -> EdV {
        self.place(self.line, self.line_len()).enter_insert()
    }

    /// `o`: a new line below, after the fold when the line is a closed one.
    #[verifier::opaque]
    pub open spec fn open_below(self) -> EdV {
        let k = if self.folds.closed.contains(self.line) {
            fold::end_of(self.all_lines(), self.line)
        } else {
            self.line
        };
        let o = lines::line_off(self.buf.text, k) + text::blen(self.line_text(k));
        let d = self.inherited();
        self.edit(o, o, "\n"@ + d).place(
            state::plus(k, 1),
            text::blen(d),
        ).keep().enter_insert()
    }

    /// `O`: a new line above.
    #[verifier::opaque]
    pub open spec fn open_above(self) -> EdV {
        let o = lines::line_off(self.buf.text, self.line);
        let d = self.inherited();
        self.edit(o, o, d + "\n"@).place(self.line, text::blen(d)).keep().enter_insert()
    }

    /// `x`: the character at the cursor deleted.
    #[verifier::opaque]
    pub open spec fn cross_out(self) -> EdV {
        if self.col < self.line_len() {
            self.edit(self.cursor(), self.after_char(), Seq::empty()).clamp()
        } else {
            self
        }
    }

    pub open spec fn cross_out_times(self, n: int) -> EdV
        decreases n,
    {
        if n <= 0 {
            self
        } else {
            self.cross_out().cross_out_times(n - 1)
        }
    }

    /// `X`: the character before the cursor deleted, on the line.
    #[verifier::opaque]
    pub open spec fn cross_back(self) -> EdV {
        let a = text::floor(self.line_text(self.line), self.col - 1);
        let o = lines::line_off(self.buf.text, self.line);
        if self.col > 0 {
            self.edit(o + a, o + self.col, Seq::empty()).place(self.line, a).keep()
        } else {
            self
        }
    }

    pub open spec fn cross_back_times(self, n: int) -> EdV
        decreases n,
    {
        if n <= 0 {
            self
        } else {
            self.cross_back().cross_back_times(n - 1)
        }
    }

    /// Number of characters that `s` changes.
    pub open spec fn changed_chars(self, count: int) -> int {
        let l = self.line_text(self.line);
        if self.col < text::blen(l) {
            state::min(count, l.len() - text::at(l, self.col))
        } else {
            0
        }
    }

    /// `s`: characters deleted and Insert mode.
    #[verifier::opaque]
    pub open spec fn change_chars(self, count: int) -> EdV {
        let l = self.line_text(self.line);
        let n = self.changed_chars(count);
        let e = if self.col < text::blen(l) {
            text::off(l, text::at(l, self.col) + n)
        } else {
            self.col
        };
        self.op_charwise(
            'c',
            self.cursor(),
            lines::line_off(self.buf.text, self.line) + e,
        ).remember('c', ChangeMotionV::Key("l"@), state::max(n, 1), None)
    }

    /// `D` and `C`: an operator up to the end of the line.
    #[verifier::opaque]
    pub open spec fn op_to_end(self, op: char) -> EdV {
        self.op_charwise(op, self.cursor(), self.line_end_here()).remember(
            op,
            ChangeMotionV::Key("$"@),
            1,
            self.pending.register,
        )
    }

    /// `S`: lines deleted and Insert mode on an empty one.
    #[verifier::opaque]
    pub open spec fn change_lines(self, count: int) -> EdV {
        let extra = state::minus(count, 1);
        let s = EdV {
            pending: Pending { operator: Some('c'), ..self.pending },
            ..self
        }.op_linewise(self.line, extra).remember(
            'c',
            ChangeMotionV::Linewise { extra },
            count,
            None,
        );
        EdV { pending: Pending { operator: self.pending.operator, ..s.pending }, ..s }
    }

    /// `J`: the next line joined to this one.
    #[verifier::opaque]
    pub open spec fn join_line(self) -> EdV {
        let e = self.line_end_here();
        let l = self.line_text(self.line + 1);
        let lead = text::off(l, text::skip_fwd(l, 0, chars::space_fn()));
        self.edit(
            e,
            lines::line_off(self.buf.text, self.line + 1) + lead,
            if chars::blank(l) {
                ""@
            } else {
                " "@
            },
        ).place(
            self.line,
            state::minus(e, lines::line_off(self.buf.text, self.line)),
        ).keep()
    }

    pub open spec fn join_times(self, n: int) -> EdV
        decreases n,
    {
        if n <= 0 || self.line + 1 >= self.line_count() {
            self
        } else {
            self.join_line().join_times(n - 1)
        }
    }

    /// `~`: the case of the letter at the cursor flipped.
    #[verifier::opaque]
    pub open spec fn flip_char(self) -> EdV {
        let l = self.line_text(self.line);
        let c = l[text::at(l, self.col)];
        if self.col < text::blen(l) {
            self.edit(self.cursor(), self.cursor() + text::clen(c), seq![flipped(c)]).place(
                self.line,
                self.col + text::clen(flipped(c)),
            ).keep()
        } else {
            self
        }
    }

    #[verifier::opaque]
    pub open spec fn put_key(self, after: bool, count: int) -> EdV {
        let s = self.put(after, count);
        EdV {
            last: Some(LastChangeV::Paste { after, count, register: s.pending.register }),
            ..s
        }
    }

    /// `*` and `#`: to the word at the cursor elsewhere, or an operator up to
    /// there.
    #[verifier::opaque]
    pub open spec fn word_key(self, key: Seq<char>, d: Direction, n: int) -> EdV {
        match self.pending.operator {
            Some(op) => if self.here_match(d, n) is Some {
                self.op_here(op, d, n).remember(
                    op,
                    ChangeMotionV::Key(key),
                    n,
                    self.pending.register,
                )
            } else {
                self.op_here(op, d, n)
            },
            None => self.search_here(d, n),
        }
    }

    #[verifier::opaque]
    pub open spec fn undo(self) -> EdV {
        let (b, p) = self.buf.undo();
        match p {
            Some(x) => EdV {
                buf: b,
                folds: self.folds.retext(self.buf.text, b.text),
                ..self
            }.goto(x).say(" undo"@, 244),
            None => EdV { buf: b, ..self }.settle().say(" already at oldest change"@, 244),
        }
    }

    #[verifier::opaque]
    pub open spec fn redo(self) -> EdV {
        let (b, p) = self.buf.redo();
        match p {
            Some(x) => EdV {
                buf: b,
                folds: self.folds.retext(self.buf.text, b.text),
                ..self
            }.goto(x).say(" redo"@, 244),
            None => EdV { buf: b, ..self }.settle().say(" already at newest change"@, 244),
        }
    }

    /// `q`: quits, unless that would lose changes.
    pub open spec fn quit_key(self) -> (EdV, ActionV) {
        if self.buf.dirty {
            typing::quiet(
                self.say(" unsaved changes — :wq to save+quit, Q to discard"@, 196),
            )
        } else {
            (self, ActionV::Quit)
        }
    }

    /// Commands that move the cursor or lines by pages and lines.
    #[verifier::opaque]
    pub open spec fn page_action(self, key: Seq<char>, count: int) -> Option<(EdV, ActionV)> {
        if key == "K"@ {
            Some((self, ActionV::Lookup))
        } else if key == "PgDOWN"@ {
            Some(typing::quiet(self.page_down(self.pane_h as int)))
        } else if key == "C-D"@ {
            Some(typing::quiet(self.page_down((self.pane_h / 2) as int)))
        } else if key == "PgUP"@ {
            Some(typing::quiet(self.page_up(self.pane_h as int)))
        } else if key == "C-U"@ {
            Some(typing::quiet(self.page_up((self.pane_h / 2) as int)))
        } else if key == "C-UP"@ {
            Some(typing::quiet(self.line_up_times(count)))
        } else if key == "C-DOWN"@ {
            Some(typing::quiet(self.line_down_times(count)))
        } else if key == "C-A"@ {
            Some(typing::quiet(self.change_number(state::min(count, i64::MAX as int))))
        } else if key == "C-X"@ {
            Some(typing::quiet(self.change_number(-state::min(count, i64::MAX as int))))
        } else {
            None
        }
    }

    /// Commands that enter Insert or Replace mode.
    #[verifier::opaque]
    pub open spec fn enter_action(self, key: Seq<char>, count: int) -> Option<(EdV, ActionV)> {
        if key == "i"@ {
            Some(typing::quiet(self.enter_insert()))
        } else if key == "a"@ {
            Some(typing::quiet(self.append()))
        } else if key == "I"@ {
            Some(typing::quiet(self.insert_first()))
        } else if key == "A"@ {
            Some(typing::quiet(self.append_last()))
        } else if key == "o"@ {
            Some(typing::quiet(self.open_below()))
        } else if key == "O"@ {
            Some(typing::quiet(self.open_above()))
        } else if key == "R"@ {
            Some(typing::quiet(self.enter_replace()))
        } else if key == "s"@ {
            Some(typing::quiet(self.change_chars(count)))
        } else if key == "S"@ {
            Some(typing::quiet(self.change_lines(count)))
        } else if key == "C"@ {
            Some(typing::quiet(self.op_to_end('c')))
        } else {
            None
        }
    }

    /// Commands that edit the text in place.
    #[verifier::opaque]
    pub open spec fn edit_action(self, key: Seq<char>, count: int) -> Option<(EdV, ActionV)> {
        if key == "x"@ {
            Some(typing::quiet(self.cross_out_times(count)))
        } else if key == "X"@ {
            Some(typing::quiet(self.cross_back_times(count)))
        } else if key == "D"@ {
            Some(typing::quiet(self.op_to_end('d')))
        } else if key == "Y"@ {
            Some(
                typing::quiet(
                    self.yank_lines(self.line, state::plus(self.line, state::minus(count, 1))),
                ),
            )
        } else if key == "J"@ {
            Some(typing::quiet(self.join_times(state::max(count, 1))))
        } else if key == "~"@ {
            Some(typing::quiet(self.flip_char()))
        } else if key == "p"@ {
            Some(typing::quiet(self.put_key(true, count)))
        } else if key == "P"@ {
            Some(typing::quiet(self.put_key(false, count)))
        } else {
            None
        }
    }

    /// Commands that search, undo, ask or quit.
    #[verifier::opaque]
    pub open spec fn other_action(self, key: Seq<char>, count: int) -> Option<(EdV, ActionV)> {
        if key == "/"@ {
            Some((self, ActionV::AskSearch(Direction::Forward)))
        } else if key == "?"@ {
            Some((self, ActionV::AskSearch(Direction::Backward)))
        } else if key == "*"@ {
            Some(typing::quiet(self.word_key(key, Direction::Forward, count)))
        } else if key == "#"@ {
            Some(typing::quiet(self.word_key(key, Direction::Backward, count)))
        } else if key == "u"@ {
            Some(typing::quiet(self.undo()))
        } else if key == "C-R"@ {
            Some(typing::quiet(self.redo()))
        } else if key == ":"@ {
            Some((self, ActionV::AskCommand))
        } else if key == "q"@ {
            Some(self.quit_key())
        } else if key == "Q"@ {
            Some((self, ActionV::Quit))
        } else {
            None
        }
    }

    /// A command of Normal mode that is no motion.
    #[verifier::opaque]
    pub open spec fn normal_action(self, key: Seq<char>, count: int) -> (EdV, ActionV) {
        if let Some(r) = self.page_action(key, count) {
            r
        } else if let Some(r) = self.enter_action(key, count) {
            r
        } else if let Some(r) = self.edit_action(key, count) {
            r
        } else if let Some(r) = self.other_action(key, count) {
            r
        } else {
            typing::quiet(self)
        }
    }
}

impl Editor {
    fn line_end_here(&self) -> (b: usize)
        requires
            self.wf(),
        ensures
            b == self@.line_end_here(),
            b <= text::blen(self@.buf.text),
    {
        motion::line_end(&self.buf, self.cursor_byte())
    }

    /// The indentation that a new line takes over.
    pub fn indent_to_inherit(&self) -> (s: String)
        ensures
            s@ == self@.inherited(),
    {
        let l: String = self.buf.line(self.cur_line);
        let v: Vec<char> = chars_of(&l);
        let n: usize = items::lead_len(&v);
        let s: String = piece(&v, 0, n);
        assert(s@ =~= l@.take(n as int));
        s
    }

    fn page_down(&mut self, n: usize)
        requires
            old(self).wf(),
        ensures
            final(self)@ == old(self)@.page_down(n as int),
            final(self).wf(),
    {
        proof {
            reveal(EdV::page_down);
        }
        let last: usize = self.buf.line_count() - 1;
        let k: usize = self.cur_line.saturating_add(n);
        self.cur_line = if k < last {
            k
        } else {
            last
        };
        self.clamp_col_to_line();
    }

    fn page_up(&mut self, n: usize)
        requires
            old(self).wf(),
        ensures
            final(self)@ == old(self)@.page_up(n as int),
            final(self).wf(),
    {
        proof {
            reveal(EdV::page_up);
        }
        self.cur_line = if self.cur_line > n {
            self.cur_line - n
        } else {
            0
        };
        self.clamp_col_to_line();
    }

    fn append(&mut self)
        requires
            old(self).wf(),
        ensures
            final(self)@ == old(self)@.append(),
            final(self).wf(),
    {
        proof {
            reveal(EdV::append);
        }
        let l: String = self.buf.line(self.cur_line);
        if self.cur_col < byte_len(&l) {
            let c: usize = step_byte(&chars_of(&l), self.cur_col);
            self.place(self.cur_line, c);
        }
        self.enter_insert();
    }

    fn insert_first(&mut self)
        requires
            old(self).wf(),
        ensures
            final(self)@ == old(self)@.insert_first(),
            final(self).wf(),
    {
        proof {
            reveal(EdV::insert_first);
        }
        self.place(self.cur_line, 0);
        self.enter_insert();
    }

    fn append_last(&mut self)
        requires
            old(self).wf(),
        ensures
            final(self)@ == old(self)@.append_last(),
            final(self).wf(),
    {
        proof {
            reveal(EdV::append_last);
        }
        let n: usize = self.current_line_len();
        self.place(self.cur_line, n);
        self.enter_insert();
    }

    fn open_below(&mut self)
        requires
            old(self).wf(),
        ensures
            final(self)@ == old(self)@.open_below(),
            final(self).wf(),
    {
        proof {
            reveal(EdV::open_below);
        }
        let k: usize = if self.folds.is_closed(self.cur_line) {
            fold_end(self.cur_line, &self.all_lines())
        } else {
            self.cur_line
        };
        let total: usize = self.buf.len_bytes();
        proof {
            lines::lemma_line_raw(self@.buf.text, k as int);
        }
        let o: usize = self.buf.line_byte_offset(k) + byte_len(&self.buf.line(k));
        let d: String = self.indent_to_inherit();
        self.edit(o, o, &cat2("\n", &d));
        self.place(k.saturating_add(1), byte_len(&d));
        self.keep();
        self.enter_insert();
    }

    fn open_above(&mut self)
        requires
            old(self).wf(),
        ensures
            final(self)@ == old(self)@.open_above(),
            final(self).wf(),
    {
        proof {
            reveal(EdV::open_above);
        }
        let o: usize = self.buf.line_byte_offset(self.cur_line);
        let d: String = self.indent_to_inherit();
        self.edit(o, o, &cat2(&d, "\n"));
        self.place(self.cur_line, byte_len(&d));
        self.keep();
        self.enter_insert();
    }

    fn cross_out(&mut self)
        requires
            old(self).wf(),
        ensures
            final(self)@ == old(self)@.cross_out(),
            final(self).wf(),
    {
        proof {
            reveal(EdV::cross_out);
        }
        if self.cur_col < self.current_line_len() {
            let c: usize = self.cursor_byte();
            let e: usize = self.after_char();
            self.edit(c, e, &String::new());
            self.clamp_col_to_line();
        }
    }

    fn cross_out_times(&mut self, count: usize)
        requires
            old(self).wf(),
        ensures
            final(self)@ == old(self)@.cross_out_times(count as int),
            final(self).wf(),
    {
        let ghost s0 = self@;
        let mut k: usize = 0;
        while k < count
            invariant
                k <= count,
                self.wf(),
                s0.cross_out_times(count as int) == self@.cross_out_times(count - k),
            decreases count - k,
        {
            self.cross_out();
            k += 1;
        }
    }

    fn cross_back(&mut self)
        requires
            old(self).wf(),
        ensures
            final(self)@ == old(self)@.cross_back(),
            final(self).wf(),
    {
        proof {
            reveal(EdV::cross_back);
        }
        if self.cur_col > 0 {
            let l: String = self.buf.line(self.cur_line);
            let a: usize = cursor::floor_on(&l, self.cur_col - 1);
            let total: usize = self.buf.len_bytes();
            let o: u128 = self.buf.line_byte_offset(self.cur_line) as u128;
            self.edit_wide(o + a as u128, o + self.cur_col as u128, &String::new());
            self.place(self.cur_line, a);
            self.keep();
        }
    }

    fn cross_back_times(&mut self, count: usize)
        requires
            old(self).wf(),
        ensures
            final(self)@ == old(self)@.cross_back_times(count as int),
            final(self).wf(),
    {
        let ghost s0 = self@;
        let mut k: usize = 0;
        while k < count
            invariant
                k <= count,
                self.wf(),
                s0.cross_back_times(count as int) == self@.cross_back_times(count - k),
            decreases count - k,
        {
            self.cross_back();
            k += 1;
        }
    }

    fn change_chars(&mut self, count: usize)
        requires
            old(self).wf(),
        ensures
            final(self)@ == old(self)@.change_chars(count as int),
            final(self).wf(),
    {
        proof {
            reveal(EdV::change_chars);
        }
        let c: usize = self.cursor_byte();
        let l: String = self.buf.line(self.cur_line);
        let v: Vec<char> = chars_of(&l);
        let total: usize = self.buf.len_bytes();
        proof {
            lines::lemma_line_raw(self@.buf.text, self@.line);
            text::lemma_at(l@, self@.col);
        }
        let (n, e) = if self.cur_col < byte_len(&l) {
            let i: usize = index_at(&v, self.cur_col);
            let left: usize = v.len() - i;
            let n: usize = if count < left {
                count
            } else {
                left
            };
            proof {
                text::lemma_off_mono(l@, i + n, l@.len() as int);
            }
            (n, offset_of(&v, i + n))
        } else {
            (0, self.cur_col)
        };
        let end: usize = self.buf.line_byte_offset(self.cur_line) + e;
        self.execute_op_charwise('c', c, end);
        self.remember(
            'c',
            ChangeMotion::Key("l".to_owned()),
            if n > 1 {
                n
            } else {
                1
            },
            None,
        );
    }

    fn word_key(&mut self, key: &str, d: Direction, n: usize)
        requires
            old(self).wf(),
        ensures
            final(self)@ == old(self)@.word_key(key@, d, n as int),
            final(self).wf(),
    {
        proof {
            reveal(EdV::word_key);
            reveal(EdV::op_here);
        }
        match self.pending.operator {
            Some(op) => {
                let register: Option<char> = self.pending.register;
                if let Some(b) = self.seek_here(d, n) {
                    self.op_to_byte(op, b);
                    self.remember(op, ChangeMotion::Key(key.to_owned()), n, register);
                }
            },
            None => {
                self.search_word_under_cursor(d, n);
            },
        }
    }

    fn op_to_end(&mut self, op: char)
        requires
            old(self).wf(),
        ensures
            final(self)@ == old(self)@.op_to_end(op),
            final(self).wf(),
    {
        proof {
            reveal(EdV::op_to_end);
        }
        let c: usize = self.cursor_byte();
        let e: usize = self.line_end_here();
        let register: Option<char> = self.pending.register;
        self.execute_op_charwise(op, c, e);
        self.remember(op, ChangeMotion::Key("$".to_owned()), 1, register);
    }

    fn change_lines(&mut self, count: usize)
        requires
            old(self).wf(),
        ensures
            final(self)@ == old(self)@.change_lines(count as int),
            final(self).wf(),
    {
        proof {
            reveal(EdV::change_lines);
        }
        let extra: usize = if count > 0 {
            count - 1
        } else {
            0
        };
        let saved: Option<char> = self.pending.operator;
        self.set_pending(Pending { operator: Some('c'), ..self.pending });
        self.execute_op_linewise(self.cur_line, extra);
        self.remember('c', ChangeMotion::Linewise { extra }, count, None);
        self.set_pending(Pending { operator: saved, ..self.pending });
    }

    fn join_line(&mut self)
        requires
            old(self).wf(),
            old(self)@.line + 1 < old(self)@.line_count(),
        ensures
            final(self)@ == old(self)@.join_line(),
            final(self).wf(),
    {
        proof {
            reveal(EdV::join_line);
        }
        let count: usize = self.buf.line_count();
        let e: usize = self.line_end_here();
        let next: usize = self.cur_line + 1;
        let l: String = self.buf.line(next);
        let v: Vec<char> = chars_of(&l);
        let n: usize = strs::ink_start(&v, 0);
        let lead: usize = offset_of(&v, n);
        let o: u128 = self.buf.line_byte_offset(next) as u128 + lead as u128;
        let start: usize = self.buf.line_byte_offset(self.cur_line);
        self.edit_wide(
            e as u128,
            o,
            if chars::is_blank(&l) {
                ""
            } else {
                " "
            },
        );
        self.place(
            self.cur_line,
            if e > start {
                e - start
            } else {
                0
            },
        );
        self.keep();
    }

    fn join_times(&mut self, count: usize)
        requires
            old(self).wf(),
        ensures
            final(self)@ == old(self)@.join_times(count as int),
            final(self).wf(),
    {
        let ghost s0 = self@;
        let mut k: usize = 0;
        while k < count
            invariant
                k <= count,
                self.wf(),
                s0 == old(self)@,
                s0.join_times(count as int) == self@.join_times(count - k),
            decreases count - k,
        {
            let last: usize = self.buf.line_count() - 1;
            if self.cur_line >= last {
                return;
            }
            self.join_line();
            k += 1;
        }
    }

    fn flip_char(&mut self)
        requires
            old(self).wf(),
        ensures
            final(self)@ == old(self)@.flip_char(),
            final(self).wf(),
    {
        proof {
            reveal(EdV::flip_char);
        }
        let l: String = self.buf.line(self.cur_line);
        if self.cur_col < byte_len(&l) {
            let v: Vec<char> = chars_of(&l);
            let i: usize = index_at(&v, self.cur_col);
            proof {
                text::lemma_at(l@, self@.col);
            }
            let c: char = v[i];
            let f: char = flip_case(c);
            let a: u128 = self.cursor_byte() as u128;
            self.edit_wide(a, a + char_len(c) as u128, &one(f));
            self.place_wide(self.cur_line, self.cur_col as u128 + char_len(f) as u128);
            self.keep();
        }
    }

    fn put_key(&mut self, after: bool, count: usize)
        requires
            old(self).wf(),
        ensures
            final(self)@ == old(self)@.put_key(after, count as int),
            final(self).wf(),
    {
        proof {
            reveal(EdV::put_key);
        }
        self.do_paste(after, count);
        self.set_last(LastChange::Paste { after, count, register: self.pending.register });
    }

    /// Takes the last change back.
    pub fn undo(&mut self)
        requires
            old(self).wf(),
        ensures
            final(self)@ == old(self)@.undo(),
            final(self).wf(),
    {
        proof {
            reveal(EdV::undo);
        }
        let was: Vec<char> = self.buf.chars();
        match self.buf.undo() {
            Some(b) => {
                let now: Vec<char> = self.buf.chars();
                self.folds.follow_text(&was, &now);
                self.cursor_to_byte(b);
                self.set_status(" undo", 244);
            },
            None => {
                self.settle();
                self.set_status(" already at oldest change", 244);
            },
        }
    }

    /// Makes the change that was taken back again.
    pub fn redo(&mut self)
        requires
            old(self).wf(),
        ensures
            final(self)@ == old(self)@.redo(),
            final(self).wf(),
    {
        proof {
            reveal(EdV::redo);
        }
        let was: Vec<char> = self.buf.chars();
        match self.buf.redo() {
            Some(b) => {
                let now: Vec<char> = self.buf.chars();
                self.folds.follow_text(&was, &now);
                self.cursor_to_byte(b);
                self.set_status(" redo", 244);
            },
            None => {
                self.settle();
                self.set_status(" already at newest change", 244);
            },
        }
    }

    fn page_action(&mut self, key: &str, count: usize) -> (r: Option<Action>)
        requires
            old(self).wf(),
        ensures
            typing::did(r, final(self)@, old(self)@, old(self)@.page_action(key@, count as int)),
            final(self).wf(),
    {
        proof {
            reveal(EdV::page_action);
        }
        let delta: i64 = if count as u128 > i64::MAX as u128 {
            i64::MAX
        } else {
            count as i64
        };
        if same(key, "K") {
            return Some(Action::Lookup);
        } else if same(key, "PgDOWN") {
            self.page_down(self.pane_h as usize);
        } else if same(key, "C-D") {
            self.page_down((self.pane_h / 2) as usize);
        } else if same(key, "PgUP") {
            self.page_up(self.pane_h as usize);
        } else if same(key, "C-U") {
            self.page_up((self.pane_h / 2) as usize);
        } else if same(key, "C-UP") {
            self.move_lines(true, count);
        } else if same(key, "C-DOWN") {
            self.move_lines(false, count);
        } else if same(key, "C-A") {
            self.change_number(delta);
        } else if same(key, "C-X") {
            self.change_number(-delta);
        } else {
            return None;
        }
        Some(Action::Nothing)
    }

    fn enter_action(&mut self, key: &str, count: usize) -> (r: Option<Action>)
        requires
            old(self).wf(),
        ensures
            typing::did(r, final(self)@, old(self)@, old(self)@.enter_action(key@, count as int)),
            final(self).wf(),
    {
        proof {
            reveal(EdV::enter_action);
        }
        if same(key, "i") {
            self.enter_insert();
        } else if same(key, "a") {
            self.append();
        } else if same(key, "I") {
            self.insert_first();
        } else if same(key, "A") {
            self.append_last();
        } else if same(key, "o") {
            self.open_below();
        } else if same(key, "O") {
            self.open_above();
        } else if same(key, "R") {
            self.enter_replace();
        } else if same(key, "s") {
            self.change_chars(count);
        } else if same(key, "S") {
            self.change_lines(count);
        } else if same(key, "C") {
            self.op_to_end('c');
        } else {
            return None;
        }
        Some(Action::Nothing)
    }

    fn edit_action(&mut self, key: &str, count: usize) -> (r: Option<Action>)
        requires
            old(self).wf(),
        ensures
            typing::did(r, final(self)@, old(self)@, old(self)@.edit_action(key@, count as int)),
            final(self).wf(),
    {
        proof {
            reveal(EdV::edit_action);
        }
        if same(key, "x") {
            self.cross_out_times(count);
        } else if same(key, "X") {
            self.cross_back_times(count);
        } else if same(key, "D") {
            self.op_to_end('d');
        } else if same(key, "Y") {
            let extra: usize = if count > 0 {
                count - 1
            } else {
                0
            };
            self.execute_op_linewise_yank(self.cur_line, self.cur_line.saturating_add(extra));
        } else if same(key, "J") {
            self.join_times(
                if count > 1 {
                    count
                } else {
                    1
                },
            );
        } else if same(key, "~") {
            self.flip_char();
        } else if same(key, "p") {
            self.put_key(true, count);
        } else if same(key, "P") {
            self.put_key(false, count);
        } else {
            return None;
        }
        Some(Action::Nothing)
    }

    fn other_action(&mut self, key: &str, count: usize) -> (r: Option<Action>)
        requires
            old(self).wf(),
        ensures
            typing::did(r, final(self)@, old(self)@, old(self)@.other_action(key@, count as int)),
            final(self).wf(),
    {
        proof {
            reveal(EdV::other_action);
        }
        if same(key, "/") {
            return Some(Action::AskSearch(Direction::Forward));
        } else if same(key, "?") {
            return Some(Action::AskSearch(Direction::Backward));
        } else if same(key, "*") {
            self.word_key(key, Direction::Forward, count);
        } else if same(key, "#") {
            self.word_key(key, Direction::Backward, count);
        } else if same(key, "u") {
            self.undo();
        } else if same(key, "C-R") {
            self.redo();
        } else if same(key, ":") {
            return Some(Action::AskCommand);
        } else if same(key, "q") {
            if self.buf.is_dirty() {
                self.set_status(" unsaved changes — :wq to save+quit, Q to discard", 196);
            } else {
                return Some(Action::Quit);
            }
        } else if same(key, "Q") {
            return Some(Action::Quit);
        } else {
            return None;
        }
        Some(Action::Nothing)
    }

    /// A command of Normal mode that is no motion.
    pub fn handle_normal_action(&mut self, key: &str, count: usize) -> (act: Action)
        requires
            old(self).wf(),
        ensures
            typing::gave(final(self)@, act@, old(self)@.normal_action(key@, count as int)),
            final(self).wf(),
    {
        proof {
            reveal(EdV::normal_action);
        }
        if let Some(a) = self.page_action(key, count) {
            return a;
        }
        if let Some(a) = self.enter_action(key, count) {
            return a;
        }
        if let Some(a) = self.edit_action(key, count) {
            return a;
        }
        if let Some(a) = self.other_action(key, count) {
            return a;
        }
        Action::Nothing
    }
}

/// The guard of `q`: with changes that are not saved the editor does not
/// quit and the text stays; without any it quits.
pub proof fn law_quit_keeps_changes(s: EdV)
    ensures
        s.buf.dirty ==> s.quit_key().1 is Nothing && s.quit_key().0.buf == s.buf,
        !s.buf.dirty ==> s.quit_key().1 is Quit,
{
}

} // verus!
