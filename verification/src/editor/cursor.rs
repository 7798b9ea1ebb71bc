//! The cursor: where it may stand and how it moves.

use vstd::prelude::*;
use vstd::string::*;
use crate::buffer;
use crate::buffer::FileKind;
use crate::editor::state;
use crate::editor::state::{
    ChangeMotion, Editor, EdV, LastChange, Options, Pending, Prefixes,
};
use crate::fold;
use crate::fold::FoldsV;
use crate::lines;
use crate::mode::Mode;
use crate::text;
use crate::text::{byte_len, chars_of, index_at, offset_of, piece, same};

verus! {

pub proof fn lemma_legal(t: Seq<char>, b: int)
    ensures
        text::bd(t, state::legal(t, b)),
        0 <= state::legal(t, b) <= text::blen(t),
        text::bd(t, b) ==> state::legal(t, b) == b,
        0 <= b ==> state::legal(t, b) <= b,
        text::blen(t) >= 0,
{
    text::lemma_off_mono(t, 0, t.len() as int);
    let c = if b < 0 {
        0
    } else if b > text::blen(t) {
        text::blen(t)
    } else {
        b
    };
    text::lemma_at(t, c);
    text::lemma_at_off(t, text::at(t, c));
    text::lemma_off_mono(t, 0, text::at(t, c));
}

pub proof fn lemma_legal_mono(t: Seq<char>, a: int, b: int)
    requires
        a <= b,
    ensures
        state::legal(t, a) <= state::legal(t, b),
{
    text::lemma_off_mono(t, 0, t.len() as int);
    let n = text::blen(t);
    let x = if a < 0 {
        0
    } else if a > n {
        n
    } else {
        a
    };
    let y = if b < 0 {
        0
    } else if b > n {
        n
    } else {
        b
    };
    text::lemma_at_mono(t, x, y);
    text::lemma_at(t, x);
    text::lemma_at(t, y);
    text::lemma_off_mono(t, text::at(t, x), text::at(t, y));
}

/// The start of a line is a place in the text.
pub proof fn lemma_line_off(t: Seq<char>, k: int)
    requires
        0 <= k,
    ensures
        text::bd(t, lines::line_off(t, k)),
        0 <= lines::line_off(t, k) <= text::blen(t),
{
    lines::lemma_line_start(t, k);
    text::lemma_at_off(t, lines::line_start(t, k));
}

/// Wherever the cursor is placed, it stands at a character.
pub proof fn lemma_place(s: EdV, line: int, col: int)
    requires
        0 <= line,
        0 <= col,
    ensures
        s.place(line, col).col >= 0,
        s.place(line, col).col <= col,
        text::bd(s.buf.text, s.place(line, col).cursor()),
        text::bd(s.buf.text, lines::line_off(s.buf.text, line) + col) ==> s.place(line, col).col
            == col,
{
    let t = s.buf.text;
    let o = lines::line_off(t, line);
    lemma_line_off(t, line);
    lemma_legal(t, o + col);
    lemma_legal(t, o);
    lemma_legal_mono(t, o, o + col);
}

pub proof fn lemma_clamp(s: EdV)
    requires
        0 <= s.line,
        0 <= s.col,
    ensures
        0 <= s.clamp().col <= s.col,
        text::bd(s.buf.text, s.clamp().cursor()),
{
    let t = s.buf.text;
    lines::lemma_line_raw(t, s.line);
    let l = s.line_text(s.line);
    text::lemma_off_mono(l, 0, l.len() as int);
    let c = state::min(s.col, s.col_cap(s.line));
    lines::lemma_line_col(t, s.line, c);
    text::lemma_at(l, c);
    text::lemma_off_mono(l, 0, text::at(l, c));
}

pub proof fn lemma_goto(s: EdV, b: int)
    requires
        0 <= b,
    ensures
        0 <= s.goto(b).line < s.line_count(),
        0 <= s.goto(b).col,
        text::bd(s.buf.text, s.goto(b).cursor()),
{
    let t = s.buf.text;
    let p = state::min(b, text::blen(t));
    text::lemma_off_mono(t, 0, t.len() as int);
    text::lemma_at(t, p);
    let i = text::at(t, p);
    lines::lemma_line_of(t, i);
    let k = lines::line_at(t, p);
    lines::lemma_line_start(t, k);
    text::lemma_off_mono(t, lines::line_start(t, k), i);
    lemma_clamp(EdV { line: k, col: p - lines::line_off(t, k), ..s });
}

pub proof fn lemma_land(s: EdV, b: int)
    ensures
        0 <= s.land(b).line < s.line_count(),
        0 <= s.land(b).col,
        text::bd(s.buf.text, s.land(b).cursor()),
        s.land(b).cursor() == state::legal(s.buf.text, b),
{
    let t = s.buf.text;
    lemma_legal(t, b);
    let p = state::legal(t, b);
    text::lemma_at(t, p);
    let i = text::at(t, p);
    lines::lemma_line_of(t, i);
    let k = lines::line_at(t, p);
    lines::lemma_line_start(t, k);
    text::lemma_off_mono(t, lines::line_start(t, k), i);
}

impl EdV {
    /// The cursor one character to the left, or at the end of the line above.
    pub open spec fn left(self) -> EdV {
        let s = if self.col > 0 {
            EdV { col: text::floor(self.line_text(self.line), self.col - 1), ..self }
        } else if self.line > 0 {
            let up = EdV { line: self.line - 1, ..self };
            EdV { col: text::floor(up.line_text(up.line), up.col_cap(up.line)), ..up }
        } else {
            self
        };
        s.keep()
    }

    /// The cursor one character to the right, or at the start of the line
    /// below.
    pub open spec fn right(self) -> EdV {
        let l = self.line_text(self.line);
        let cap = self.col_cap(self.line);
        let s = if self.col < cap {
            self.place(
                self.line,
                state::min(text::off(l, text::at(l, self.col) + 1), cap),
            )
        } else if self.line + 1 < self.line_count() {
            EdV { line: self.line + 1, col: 0, ..self }
        } else {
            self
        };
        s.keep()
    }

    /// First visible line after `k`.
    pub open spec fn visible_after(self, k: int) -> Option<int>
        decreases self.line_count() - k,
    {
        if k + 1 >= self.line_count() {
            None
        } else if self.folds.visible(k + 1, self.all_lines()) {
            Some(k + 1)
        } else {
            self.visible_after(k + 1)
        }
    }

    /// Last visible line before `k`.
    pub open spec fn visible_before(self, k: int) -> Option<int>
        decreases k,
    {
        if k <= 0 {
            None
        } else if self.folds.visible(k - 1, self.all_lines()) {
            Some(k - 1)
        } else {
            self.visible_before(k - 1)
        }
    }

    /// `n` visible lines down from `k`, as far as there are any.
    pub open spec fn down_from(self, k: int, n: int) -> int
        decreases n,
    {
        if n <= 0 {
            k
        } else {
            match self.visible_after(k) {
                Some(j) => self.down_from(j, n - 1),
                None => k,
            }
        }
    }

    /// `n` visible lines up from `k`, as far as there are any.
    pub open spec fn up_from(self, k: int, n: int) -> int
        decreases n,
    {
        if n <= 0 {
            k
        } else {
            match self.visible_before(k) {
                Some(j) => self.up_from(j, n - 1),
                None => k,
            }
        }
    }
}

fn same_step(a: Option<usize>, b: Option<usize>) -> (r: bool)
    ensures
        r == (buffer::int_opt(a) == buffer::int_opt(b)),
{
    match a {
        Some(x) => match b {
            Some(y) => x == y,
            None => false,
        },
        None => b.is_none(),
    }
}

/// A text that leaves what follows it at the start of a line: none, or one that
/// ends in a line feed.
fn feeds_line(r: &str) -> (b: bool)
    ensures
        b == (r@.len() == 0 || r@.last() == '\n'),
{
    let v: Vec<char> = chars_of(r);
    v.len() == 0 || v[v.len() - 1] == '\n'
}

impl Editor {
    pub fn set_status(&mut self, msg: &str, c: u8)
        requires
            old(self).ok(),
        ensures
            final(self)@ == old(self)@.say(msg@, c),
            final(self).ok(),
            old(self).wf() ==> final(self).wf(),
    {
        self.status = Some((msg.to_owned(), c));
    }

    pub fn set_mode(&mut self, m: Mode)
        requires
            old(self).ok(),
        ensures
            final(self)@ == (EdV { mode: m, ..old(self)@ }),
            final(self).ok(),
            old(self).wf() ==> final(self).wf(),
    {
        self.mode = m;
    }

    pub fn set_pending(&mut self, p: Pending)
        requires
            old(self).ok(),
        ensures
            final(self)@ == (EdV { pending: p, ..old(self)@ }),
            final(self).ok(),
            old(self).wf() ==> final(self).wf(),
    {
        self.pending = p;
    }

    pub fn set_prefixes(&mut self, p: Prefixes)
        requires
            old(self).ok(),
        ensures
            final(self)@ == (EdV { prefixes: p, ..old(self)@ }),
            final(self).ok(),
            old(self).wf() ==> final(self).wf(),
    {
        self.prefixes = p;
    }

    pub fn set_options(&mut self, o: Options)
        requires
            old(self).ok(),
        ensures
            final(self)@ == (EdV { options: o, ..old(self)@ }),
            final(self).ok(),
            old(self).wf() ==> final(self).wf(),
    {
        self.options = o;
    }

    pub fn set_last(&mut self, c: LastChange)
        requires
            old(self).ok(),
        ensures
            final(self)@ == (EdV { last: Some(c@), ..old(self)@ }),
            final(self).ok(),
            old(self).wf() ==> final(self).wf(),
    {
        self.last_change = Some(c);
    }

    pub(crate) fn remember(
        &mut self,
        op: char,
        motion: ChangeMotion,
        count: usize,
        register: Option<char>,
    )
        requires
            old(self).wf(),
        ensures
            final(self)@ == old(self)@.remember(op, motion@, count as int, register),
            final(self).wf(),
    {
        self.last_change = Some(
            LastChange::Op { op, motion, count, register, insert_text: String::new() },
        );
        self.prefixes = Prefixes { changing: op == 'c', ..self.prefixes };
        proof {
            assert(self@.last->0->insert_text =~= Seq::<char>::empty());
        }
    }

    /// Byte offset of the cursor.
    pub fn cursor_byte(&self) -> (b: usize)
        requires
            self.wf(),
        ensures
            b == self@.cursor(),
            b <= text::blen(self@.buf.text),
    {
        let total: usize = self.buf.len_bytes();
        self.buf.line_byte_offset(self.cur_line) + self.cur_col
    }

    /// Limits a byte offset to the text and rounds it down to a character.
    pub fn legal_byte(&self, b: usize) -> (r: usize)
        ensures
            r == state::legal(self@.buf.text, b as int),
            text::bd(self@.buf.text, r as int),
    {
        let total: usize = self.buf.len_bytes();
        let c: usize = if b > total {
            total
        } else {
            b
        };
        let v: Vec<char> = self.buf.chars();
        let i: usize = index_at(&v, c);
        proof {
            lemma_legal(self@.buf.text, b as int);
        }
        offset_of(&v, i)
    }

    /// Replaces a range of bytes, limited to the text and rounded to
    /// characters.
    pub fn edit(&mut self, a: usize, b: usize, r: &str)
        requires
            old(self).ok(),
        ensures
            final(self)@ == old(self)@.edit(a as int, b as int, r@),
            final(self).ok(),
            final(self)@.buf.depth == old(self)@.buf.depth,
    {
        let lo: usize = self.legal_byte(a);
        let h: usize = self.legal_byte(b);
        let hi: usize = if h > lo {
            h
        } else {
            lo
        };
        let k: usize = self.buf.byte_to_line(lo);
        let m: usize = self.buf.byte_to_line(hi);
        let whole: bool = self.buf.line_byte_offset(k) == lo && self.buf.line_byte_offset(m) == hi
            && feeds_line(r);
        let before: usize = self.buf.line_count();
        self.buf.apply(lo, hi, r);
        let after: usize = self.buf.line_count();
        proof {
            reveal(FoldsV::follow);
        }
        self.folds.shift(
            if whole {
                k as i128 - 1
            } else {
                k as i128
            },
            after as i128 - before as i128,
        );
    }

    pub fn open_undo(&mut self)
        requires
            old(self).ok(),
            old(self)@.buf.calm(),
        ensures
            final(self)@ == old(self)@.open_undo(),
            final(self).ok(),
            final(self)@.buf.depth == 1,
    {
        self.buf.begin_compound();
    }

    pub fn close_undo(&mut self)
        requires
            old(self).ok(),
        ensures
            final(self)@ == old(self)@.close_undo(),
            final(self).ok(),
            final(self)@.buf.calm(),
            final(self)@.buf.text == old(self)@.buf.text,
    {
        self.buf.end_compound();
    }

    /// Puts the cursor at a line and column, rounded down to a character.
    pub fn place(&mut self, line: usize, col: usize)
        requires
            old(self).ok(),
            old(self)@.buf.calm(),
        ensures
            final(self)@ == old(self)@.place(line as int, col as int),
            final(self).wf(),
    {
        proof {
            lemma_place(self@, line as int, col as int);
            lemma_line_off(self@.buf.text, line as int);
        }
        let start: usize = self.buf.line_byte_offset(line);
        let total: usize = self.buf.len_bytes();
        let b: usize = if col <= total - start {
            start + col
        } else {
            total
        };
        proof {
            if start + col > total {
                assert(state::legal(self@.buf.text, start + col) == state::legal(
                    self@.buf.text,
                    total as int,
                ));
            }
        }
        let p: usize = self.legal_byte(b);
        self.cur_line = line;
        self.cur_col = p - start;
    }

    /// Remembers the cursor's column for vertical motion.
    pub fn keep(&mut self)
        requires
            old(self).ok(),
        ensures
            final(self)@ == old(self)@.keep(),
            final(self).ok(),
            old(self).wf() ==> final(self).wf(),
    {
        self.want_col = self.cur_col;
    }

    /// Length of the cursor's line in bytes.
    pub fn current_line_len(&self) -> (n: usize)
        ensures
            n == self@.line_len(),
    {
        byte_len(&self.buf.line(self.cur_line))
    }

    /// Where the cursor may stand at most: after the last character while
    /// text is being typed, on it otherwise.
    pub fn col_cap(&self) -> (n: usize)
        ensures
            n == self@.col_cap(self@.line),
    {
        let len: usize = self.current_line_len();
        match self.mode {
            Mode::Insert | Mode::Replace => len,
            _ => if len > 0 {
                len - 1
            } else {
                0
            },
        }
    }

    /// Brings the cursor within the limits of its line.
    pub fn clamp_col_to_line(&mut self)
        requires
            old(self).ok(),
            old(self)@.buf.calm(),
        ensures
            final(self)@ == old(self)@.clamp(),
            final(self).wf(),
    {
        proof {
            lemma_clamp(self@);
        }
        let cap: usize = self.col_cap();
        let c: usize = if self.cur_col > cap {
            cap
        } else {
            self.cur_col
        };
        self.cur_col = floor_on(&self.buf.line(self.cur_line), c);
    }

    /// Moves the cursor to a byte offset, as far as its line and the mode
    /// allow.
    pub fn cursor_to_byte(&mut self, byte: usize)
        requires
            old(self).ok(),
            old(self)@.buf.calm(),
        ensures
            final(self)@ == old(self)@.goto(byte as int),
            final(self).wf(),
    {
        proof {
            lemma_goto(self@, byte as int);
        }
        let total: usize = self.buf.len_bytes();
        let b: usize = if byte > total {
            total
        } else {
            byte
        };
        let (line, col) = self.buf.byte_to_line_col(b);
        self.cur_line = line;
        self.cur_col = col;
        self.clamp_col_to_line();
        self.want_col = self.cur_col;
    }

    /// Moves the cursor to a byte offset whatever the mode.
    pub fn land(&mut self, byte: usize)
        requires
            old(self).ok(),
            old(self)@.buf.calm(),
        ensures
            final(self)@ == old(self)@.land(byte as int),
            final(self).wf(),
    {
        proof {
            lemma_land(self@, byte as int);
        }
        let p: usize = self.legal_byte(byte);
        let (line, col) = self.buf.byte_to_line_col(p);
        self.cur_line = line;
        self.cur_col = col;
        self.want_col = col;
    }

    /// Rounds the cursor's column down to a character of its line.
    pub fn snap_col_to_boundary(&mut self)
        requires
            old(self).ok(),
            old(self)@.buf.calm(),
        ensures
            final(self)@ == (EdV {
                col: text::floor(old(self)@.line_text(old(self)@.line), old(self)@.col),
                ..old(self)@
            }),
            final(self).wf(),
    {
        proof {
            lines::lemma_line_col(self@.buf.text, self@.line, self@.col);
        }
        self.cur_col = floor_on(&self.buf.line(self.cur_line), self.cur_col);
    }

    /// One character to the left, round the start of the line.
    pub fn move_left_wrap(&mut self)
        requires
            old(self).wf(),
        ensures
            final(self)@ == old(self)@.left(),
            final(self).wf(),
    {
        if self.cur_col > 0 {
            self.cur_col = self.cur_col - 1;
            self.snap_col_to_boundary();
        } else if self.cur_line > 0 {
            self.cur_line = self.cur_line - 1;
            self.cur_col = self.col_cap();
            self.snap_col_to_boundary();
        }
        self.want_col = self.cur_col;
    }

    /// One character to the right, round the end of the line.
    pub fn move_right_wrap(&mut self)
        requires
            old(self).wf(),
        ensures
            final(self)@ == old(self)@.right(),
            final(self).wf(),
    {
        let cap: usize = self.col_cap();
        let n: usize = self.buf.line_count();
        if self.cur_col < cap {
            let line: String = self.buf.line(self.cur_line);
            let v: Vec<char> = chars_of(&line);
            let i: usize = index_at(&v, self.cur_col);
            proof {
                text::lemma_at(line@, self@.col);
            }
            let p: usize = offset_of(&v, i + 1);
            let c: usize = if p < cap {
                p
            } else {
                cap
            };
            self.place(self.cur_line, c);
        } else if self.cur_line < n && self.cur_line + 1 < n {
            let l: usize = self.cur_line + 1;
            self.place(l, 0);
            proof {
                lemma_place(old(self)@, l as int, 0);
                lemma_line_off(old(self)@.buf.text, l as int);
            }
        }
        self.want_col = self.cur_col;
    }

    /// Tab stop of the buffer: 3 in a HyperList, 8 elsewhere.
    pub fn tabstop(&self) -> (n: usize)
        ensures
            n == self@.tabstop(),
            n > 0,
    {
        if self.is_hyperlist() {
            3
        } else {
            8
        }
    }

    /// Whether the buffer is a HyperList.
    pub fn is_hyperlist(&self) -> (r: bool)
        ensures
            r == state::is_hl(self@.buf.kind),
    {
        match self.buf.kind_ref() {
            FileKind::Source(s) => same(s, "hl") || same(s, "woim"),
            _ => false,
        }
    }

    /// The lines of the text, without line feeds.
    pub fn all_lines(&self) -> (v: Vec<String>)
        ensures
            fold::views(v@) == self@.all_lines(),
            v@.len() == self@.line_count(),
    {
        let n: usize = self.buf.line_count();
        let mut v: Vec<String> = Vec::new();
        let mut i: usize = 0;
        while i < n
            invariant
                i <= n,
                n == self@.line_count(),
                v@.len() == i,
                forall|k: int| 0 <= k < i ==> (#[trigger] v@[k])@ == self@.line_text(k),
            decreases n - i,
        {
            v.push(self.buf.line(i));
            i += 1;
        }
        assert(fold::views(v@) =~= self@.all_lines());
        v
    }

    /// `count` visible lines down from `from`, as far as there are any.
    pub fn next_visible_line_down(&self, from: usize, count: usize) -> (r: usize)
        ensures
            r == self@.down_from(from as int, count as int),
            from < self@.line_count() ==> from <= r < self@.line_count(),
    {
        let all: Vec<String> = self.all_lines();
        let n: usize = all.len();
        let mut cur: usize = from;
        let mut steps: usize = 0;
        while steps < count
            invariant
                steps <= count,
                n == self@.line_count(),
                fold::views(all@) == self@.all_lines(),
                self@.down_from(from as int, count as int) == self@.down_from(
                    cur as int,
                    count - steps,
                ),
                from < n ==> from <= cur < n,
            decreases count - steps,
        {
            let mut k: usize = cur;
            let mut hit: bool = false;
            while k < n && k + 1 < n && !hit
                invariant
                    n == self@.line_count(),
                    fold::views(all@) == self@.all_lines(),
                    cur <= k,
                    !hit ==> self@.visible_after(cur as int) == self@.visible_after(k as int),
                    hit ==> self@.visible_after(cur as int) == Some(k as int) && k < n,
                decreases n - k, (if hit { 0int } else { 1 }),
            {
                k += 1;
                if self.folds.is_visible(k, &all) {
                    hit = true;
                }
            }
            if !hit {
                return cur;
            }
            cur = k;
            steps += 1;
        }
        cur
    }

    /// `count` visible lines up from `from`, as far as there are any.
    pub fn next_visible_line_up(&self, from: usize, count: usize) -> (r: usize)
        ensures
            r == self@.up_from(from as int, count as int),
            r <= from,
    {
        let all: Vec<String> = self.all_lines();
        let mut cur: usize = from;
        let mut steps: usize = 0;
        while steps < count
            invariant
                steps <= count,
                cur <= from,
                fold::views(all@) == self@.all_lines(),
                self@.up_from(from as int, count as int) == self@.up_from(
                    cur as int,
                    count - steps,
                ),
            decreases count - steps,
        {
            let mut k: usize = cur;
            let mut hit: bool = false;
            while k > 0 && !hit
                invariant
                    fold::views(all@) == self@.all_lines(),
                    k <= cur,
                    !hit ==> self@.visible_before(cur as int) == self@.visible_before(k as int),
                    hit ==> self@.visible_before(cur as int) == Some(k as int),
                decreases k, (if hit { 0int } else { 1 }),
            {
                k -= 1;
                if self.folds.is_visible(k, &all) {
                    hit = true;
                }
            }
            if !hit {
                return cur;
            }
            cur = k;
            steps += 1;
        }
        cur
    }

    /// Joins what a key changed to the rest of the stay in Replace mode.
    pub fn in_turn(&mut self, was: Option<usize>)
        requires
            old(self).wf(),
        ensures
            final(self)@ == old(self)@.in_turn(buffer::int_opt(was)),
            final(self).wf(),
    {
        proof {
            reveal(EdV::in_turn);
        }
        let head: Option<usize> = self.buf.head_step();
        if !same_step(head, was) {
            self.joined();
            self.keep_turn();
        }
    }

    fn joined(&mut self)
        requires
            old(self).wf(),
        ensures
            final(self)@ == old(self)@.joined(),
            final(self).wf(),
    {
        if let Some(p) = self.prefixes.turn {
            self.buf.join_step(p);
        }
    }

    fn keep_turn(&mut self)
        requires
            old(self).wf(),
        ensures
            final(self)@ == old(self)@.keep_turn(),
            final(self).wf(),
    {
        let turn: Option<usize> = self.buf.head_step();
        proof {
            state::lemma_step_at(turn);
        }
        self.set_prefixes(Prefixes { turn, ..self.prefixes });
    }

    pub fn enter_insert(&mut self)
        requires
            old(self).ok(),
        ensures
            final(self)@ == old(self)@.enter_insert(),
            final(self).ok(),
            old(self).wf() ==> final(self).wf(),
    {
        self.mode = Mode::Insert;
        self.prefixes = Prefixes { changing: false, ..self.prefixes };
        self.capturing_insert = true;
        self.captured_insert = String::new();
    }

    pub fn enter_replace(&mut self)
        requires
            old(self).wf(),
        ensures
            final(self)@ == old(self)@.enter_replace(),
            final(self).wf(),
    {
        self.mode = Mode::Replace;
        self.prefixes = Prefixes { turn: None, changing: false, ..self.prefixes };
        self.capturing_insert = true;
        self.captured_insert = String::new();
    }

    pub(crate) fn uncapture(&mut self, c: char)
        requires
            old(self).wf(),
        ensures
            final(self)@ == old(self)@.uncapture(c),
            final(self).wf(),
    {
        if self.capturing_insert {
            let v: Vec<char> = chars_of(&self.captured_insert);
            if v.len() > 0 && v[v.len() - 1] == c {
                self.captured_insert = piece(&v, 0, v.len() - 1);
                assert(self.captured_insert@ =~= v@.drop_last());
            }
        }
    }

    /// Adds to what is captured for `.`, while capturing.
    pub fn capture(&mut self, s: &str)
        requires
            old(self).ok(),
        ensures
            final(self)@ == old(self)@.capture(s@),
            final(self).ok(),
            old(self).wf() ==> final(self).wf(),
    {
        if self.capturing_insert {
            self.captured_insert.append(s);
        }
    }
}

/// A byte column rounded down to a character of the line.
pub fn floor_on(line: &str, c: usize) -> (r: usize)
    ensures
        r == text::floor(line@, c as int),
        r <= c,
{
    let v: Vec<char> = chars_of(line);
    let i: usize = index_at(&v, c);
    proof {
        text::lemma_at(line@, c as int);
    }
    offset_of(&v, i)
}

} // verus!
