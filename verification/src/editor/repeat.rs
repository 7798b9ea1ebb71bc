//! Operators on ranges, searching, and repeating: changes and macros.

use vstd::prelude::*;
use vstd::string::*;
use crate::chars;
use crate::editor::state;
use crate::editor::state::{
    ChangeMotion, ChangeMotionV, Editor, EdV, Feed, FeedV, LastChange, LastChangeV, Pending,
};
use crate::fold;
use crate::keys;
use crate::keys::parse_macro_text;
use crate::lines;
use crate::marks;
use crate::mode::Mode;
use crate::motion;
use crate::pattern;
use crate::search::Direction;
use crate::strs;
use crate::strs::{cat2, cat3, one, starts_with};
use crate::text;
use crate::text::{byte_len, chars_of, index_at, piece, same};
use crate::textobj;
use crate::textobj::{
    around_pair, around_paragraph, around_quote, around_word, inner_pair, inner_paragraph,
    inner_quote, inner_word,
};

verus! {

/// An operator that works on whole lines whatever the motion.
pub open spec fn whole_lines(op: char) -> bool {
    op == 'Q' || op == '>' || op == '<'
}

/// A motion that an operator follows by whole lines.
pub open spec fn by_lines(key: Seq<char>) -> bool {
    key == "j"@ || key == "DOWN"@ || key == "k"@ || key == "UP"@ || key == "G"@ || key == "-"@
        || key == "C-HOME"@ || key == "C-END"@
}

fn moves_by_lines(key: &str) -> (r: bool)
    ensures
        r == by_lines(key@),
{
    same(key, "j") || same(key, "DOWN") || same(key, "k") || same(key, "UP") || same(key, "G")
        || same(key, "-") || same(key, "C-HOME") || same(key, "C-END")
}

/// The opening and closing character that the key of a text object stands
/// for.
pub open spec fn bracket_pair(target: char) -> Option<(char, char)> {
    if target == '(' || target == ')' || target == 'b' {
        Some(('(', ')'))
    } else if target == '[' || target == ']' {
        Some(('[', ']'))
    } else if target == '{' || target == '}' || target == 'B' {
        Some(('{', '}'))
    } else if target == '<' || target == '>' {
        Some(('<', '>'))
    } else {
        None
    }
}

fn pair_of(target: char) -> (r: Option<(char, char)>)
    ensures
        r == bracket_pair(target),
{
    if target == '(' || target == ')' || target == 'b' {
        Some(('(', ')'))
    } else if target == '[' || target == ']' {
        Some(('[', ']'))
    } else if target == '{' || target == '}' || target == 'B' {
        Some(('{', '}'))
    } else if target == '<' || target == '>' {
        Some(('<', '>'))
    } else {
        None
    }
}

impl EdV {
    /// Line of a byte, or of the end of the text.
    pub open spec fn line_near(self, b: int) -> int {
        lines::line_at(self.buf.text, state::min(b, text::blen(self.buf.text)))
    }

    /// Byte range of a text object at the cursor.
    pub open spec fn object(self, kind: char, target: char) -> Option<(int, int)> {
        let t = self.buf.text;
        let cur = self.cursor();
        let i = text::at(t, cur);
        let inner = kind == 'i';
        if kind != 'i' && kind != 'a' {
            None
        } else if target == 'w' || target == 'W' {
            textobj::byte_range(
                t,
                if inner {
                    textobj::word_at(t, i)
                } else {
                    textobj::word_around(t, i)
                },
            )
        } else if target == '"' || target == '\'' || target == '`' {
            if inner {
                textobj::quote_inside(t, cur, target)
            } else {
                textobj::widened(textobj::quote_inside(t, cur, target), target, target)
            }
        } else if target == 'p' {
            Some(
                if inner {
                    textobj::paragraph(t, cur)
                } else {
                    textobj::paragraph_around(t, cur)
                },
            )
        } else {
            match bracket_pair(target) {
                Some((o, c)) => {
                    let r = textobj::byte_range(t, textobj::pair_inside(t, i, o, c));
                    if inner {
                        r
                    } else {
                        textobj::widened(r, o, c)
                    }
                },
                None => None,
            }
        }
    }

    /// An operator on the lines of the bytes `a` and `b`.
    pub open spec fn op_lines(self, a: int, b: int) -> EdV {
        let l1 = self.line_near(a);
        let l2 = self.line_near(b);
        self.op_linewise(state::min(l1, l2), state::max(l1, l2) - state::min(l1, l2))
    }

    /// An operator on a text object.
    #[verifier::opaque]
    pub open spec fn op_object(self, op: char, a: int, b: int) -> EdV {
        if whole_lines(op) {
            self.op_lines(a, state::max(state::minus(b, 1), a))
        } else {
            self.op_charwise(op, a, b)
        }
    }

    /// An operator from the cursor to where a motion leads.
    #[verifier::opaque]
    pub open spec fn op_to(self, op: char, b: int) -> EdV {
        let a = self.cursor();
        if whole_lines(op) {
            self.op_lines(a, b)
        } else {
            self.op_charwise(op, state::min(a, b), state::max(a, b))
        }
    }

    /// An operator from the cursor to where the motion `key` leads.
    #[verifier::opaque]
    pub open spec fn op_move(self, op: char, key: Seq<char>, b: int) -> EdV {
        if by_lines(key) {
            self.op_lines(self.cursor(), b)
        } else {
            self.op_to(op, b)
        }
    }

    /// An operator from the cursor to a mark: by characters when the jump is
    /// exact, else by lines.
    #[verifier::opaque]
    pub open spec fn op_mark(self, op: char, b: int, exact: bool) -> EdV {
        let c = self.cursor();
        let k = self.line_near(b);
        if exact {
            self.op_charwise(op, state::min(b, c), state::max(b, c))
        } else {
            self.op_linewise(
                state::min(self.line, k),
                state::max(self.line, k) - state::min(self.line, k),
            )
        }
    }

    /// The line that `gg` leads to.
    pub open spec fn top_target(self) -> int {
        match self.pending.count1 {
            Some(n) if n > 0 => state::min(n - 1, self.last_line()),
            _ => 0,
        }
    }

    /// An operator on the lines from the cursor's to the one that `gg` leads
    /// to.
    #[verifier::opaque]
    pub open spec fn op_top(self) -> EdV {
        let k = self.top_target();
        self.op_linewise(
            state::min(self.line, k),
            state::max(self.line, k) - state::min(self.line, k),
        )
    }

    /// Text put in at the cursor, which goes after it.
    #[verifier::opaque]
    pub open spec fn put_typed(self, t: Seq<char>) -> EdV {
        let c = self.cursor();
        self.edit(c, c, t).goto(c + text::blen(t))
    }

    /// The character replaced and the cursor moved on, `n` times.
    pub open spec fn replace_times(self, c: char, n: int) -> EdV
        decreases n,
    {
        if n <= 0 {
            self
        } else {
            self.replace_char(c).right().replace_times(c, n - 1)
        }
    }

    /// The operator of a change made again.
    #[verifier::opaque]
    pub open spec fn redo_op(self, op: char, m: ChangeMotionV, count: int) -> EdV {
        match m {
            ChangeMotionV::Key(k) => if k == "gg"@ {
                self.op_top()
            } else if k == "*"@ {
                self.op_here(op, Direction::Forward, count)
            } else if k == "#"@ {
                self.op_here(op, Direction::Backward, count)
            } else {
                match self.motion(k, count) {
                    Some(b) => self.op_move(op, k, b),
                    None => self,
                }
            },
            ChangeMotionV::TextObject { kind, target } => match self.object(kind, target) {
                Some((a, b)) => self.op_object(op, a, b),
                None => self,
            },
            ChangeMotionV::Linewise { extra } => self.op_linewise(self.line, extra),
            ChangeMotionV::Find { how, target } => match self.find_bound(how, target, count) {
                Some(b) => self.op_to(op, b),
                None => self,
            },
            ChangeMotionV::Mark { name, exact } => match marks::mark_at(self.marks, name) {
                Some(b) => self.op_mark(op, b, exact),
                None => self,
            },
        }
    }

    /// A change by an operator made again, with what was typed after it.
    #[verifier::opaque]
    pub open spec fn repeat_op(
        self,
        op: char,
        motion: ChangeMotionV,
        count: int,
        register: Option<char>,
        t: Seq<char>,
    ) -> EdV {
        let s = EdV {
            pending: Pending {
                operator: Some(op),
                register,
                count1: Some(count as usize),
                ..self.pending
            },
            ..self
        }.redo_op(op, motion, count);
        let p = if op == 'c' && t.len() > 0 {
            s.put_typed(t)
        } else {
            s
        };
        (if op == 'c' {
            EdV { mode: Mode::Normal, ..p }
        } else {
            p
        }).clear_pending()
    }

    #[verifier::opaque]
    pub open spec fn repeat_put(self, after: bool, count: int, register: Option<char>) -> EdV {
        let s = EdV { pending: Pending { register, ..self.pending }, ..self }.put(after, count);
        EdV { pending: Pending { register: self.pending.register, ..s.pending }, ..s }
    }

    /// Ctrl-A or Ctrl-X made again.
    #[verifier::opaque]
    pub open spec fn repeat_action(self, key: Seq<char>, count: int) -> EdV {
        if key == "C-A"@ {
            self.change_number(state::min(count, i64::MAX as int))
        } else if key == "C-X"@ {
            self.change_number(state::max(-count, i64::MIN as int))
        } else {
            self
        }
    }

    /// `.`: the last change made again.
    #[verifier::opaque]
    pub open spec fn repeat_change(self) -> EdV {
        match self.last {
            None => self,
            Some(LastChangeV::Op { op, motion, count, register, insert_text }) => self.repeat_op(
                op,
                motion,
                count,
                register,
                insert_text,
            ),
            Some(LastChangeV::Insert { text, append }) => self.put_typed(text),
            Some(LastChangeV::Replace { c, count }) => self.replace_times(c, count),
            Some(LastChangeV::Paste { after, count, register }) => self.repeat_put(
                after,
                count,
                register,
            ),
            Some(LastChangeV::SimpleAction { key, count, register }) => self.repeat_action(
                key,
                count,
            ),
        }
    }

    // ── Searching ───────────────────────────────────────────────────────

    /// A pattern to search for, submitted.
    #[verifier::opaque]
    pub open spec fn search_for(self, p: Seq<char>, d: Direction) -> EdV {
        let s = EdV { search: self.search.set(p, d), ..self };
        if p.len() == 0 {
            self
        } else {
            match s.match_from(self.cursor(), d) {
                Some(b) => s.goto(b),
                None => s.say(" pattern not found: "@ + p, 196),
            }
        }
    }

    /// The word at the cursor: letters, digits and underscores.
    pub open spec fn search_word(self) -> Seq<char> {
        let k = self.line_near(self.cursor());
        let l = self.line_text(k);
        let i = text::at(l, state::min(self.cursor() - lines::line_off(self.buf.text, k), text::blen(l)));
        l.subrange(text::skip_back(l, i, name_fn()), text::skip_fwd(l, i, name_fn()))
    }

    /// There is a word to search for at the cursor.
    pub open spec fn on_word(self) -> bool {
        self.cursor() < text::blen(self.buf.text) && self.search_word().len() > 0
    }

    /// The word at the cursor taken for the pattern.
    #[verifier::opaque]
    pub open spec fn seek_here(self, d: Direction) -> EdV {
        if self.on_word() {
            EdV {
                search: self.search.set(
                    "\\b"@ + pattern::regex_escaped(self.search_word()) + "\\b"@,
                    d,
                ),
                ..self
            }
        } else {
            self
        }
    }

    /// Where the search for the word at the cursor leads, `n` times.
    pub open spec fn here_match(self, d: Direction, n: int) -> Option<int> {
        if self.on_word() {
            self.seek_here(d).nth_match(self.cursor(), false, n)
        } else {
            None
        }
    }

    /// Searches for the word at the cursor.
    #[verifier::opaque]
    pub open spec fn search_here(self, d: Direction, n: int) -> EdV {
        match self.here_match(d, n) {
            Some(b) => self.seek_here(d).goto(b),
            None => self.seek_here(d),
        }
    }

    /// An operator from the cursor to where the search for its word leads.
    #[verifier::opaque]
    pub open spec fn op_here(self, op: char, d: Direction, n: int) -> EdV {
        match self.here_match(d, n) {
            Some(b) => self.seek_here(d).op_to(op, b),
            None => self.seek_here(d),
        }
    }

    // ── Macros ──────────────────────────────────────────────────────────

    /// Starts to play the macro in a register.
    #[verifier::opaque]
    pub open spec fn replay(self, reg: char) -> EdV {
        if self.replay_depth >= 4 {
            self.say(" macro recursion too deep"@, 196)
        } else {
            match self.regs.get(reg) {
                Some(y) if y.text.len() > 0 => {
                    let ks = keys::decoded(y.text, 0);
                    if ks.len() == 0 {
                        self
                    } else {
                        EdV {
                            last_macro: Some(reg),
                            replay_depth: self.replay_depth + 1,
                            feed: self.feed.push(FeedV::MacroEnd) + macro_feed(ks, 0),
                            ..self
                        }
                    }
                },
                _ => self.say(" register @"@ + seq![reg] + " is empty"@, 244),
            }
        }
    }
}

pub open spec fn name_fn() -> spec_fn(char) -> bool {
    |c: char| chars::is_alnum(c) || c == '_'
}

/// Keys that a macro does not play.
pub open spec fn unplayed(k: Seq<char>) -> bool {
    k == "RESIZE"@ || strs::prefixed(k, "PASTE\0"@)
}

/// The keys from number `i` on as they wait to be fed: the first one last.
pub open spec fn macro_feed(ks: Seq<Seq<char>>, i: int) -> Seq<FeedV>
    decreases ks.len() - i,
{
    if i < 0 || i >= ks.len() {
        Seq::empty()
    } else if unplayed(ks[i]) {
        macro_feed(ks, i + 1)
    } else {
        macro_feed(ks, i + 1).push(FeedV::MacroKey(ks[i]))
    }
}

impl Editor {
    /// Line of a byte, or of the end of the text.
    pub(crate) fn line_of_byte(&self, b: usize) -> (k: usize)
        ensures
            k == self@.line_near(b as int),
            k < self@.line_count(),
    {
        let total: usize = self.buf.len_bytes();
        self.buf.byte_to_line(
            if b <= total {
                b
            } else {
                total
            },
        )
    }

    /// Byte range of a text object at the cursor.
    pub fn text_object(&self, kind: char, target: char) -> (r: Option<(usize, usize)>)
        requires
            self.wf(),
        ensures
            textobj::range_int(r) == self@.object(kind, target),
    {
        let cur: usize = self.cursor_byte();
        let inner: bool = kind == 'i';
        if kind != 'i' && kind != 'a' {
            return None;
        }
        if target == 'w' || target == 'W' {
            return if inner {
                inner_word(&self.buf, cur)
            } else {
                around_word(&self.buf, cur)
            };
        }
        if target == '"' || target == '\'' || target == '`' {
            return if inner {
                inner_quote(&self.buf, cur, target)
            } else {
                around_quote(&self.buf, cur, target)
            };
        }
        if target == 'p' {
            return if inner {
                inner_paragraph(&self.buf, cur)
            } else {
                around_paragraph(&self.buf, cur)
            };
        }
        match pair_of(target) {
            Some((o, c)) => if inner {
                inner_pair(&self.buf, cur, o, c)
            } else {
                around_pair(&self.buf, cur, o, c)
            },
            None => None,
        }
    }

    pub(crate) fn op_on_lines(&mut self, a: usize, b: usize)
        requires
            old(self).wf(),
        ensures
            final(self)@ == old(self)@.op_lines(a as int, b as int),
            final(self).wf(),
    {
        let l1: usize = self.line_of_byte(a);
        let l2: usize = self.line_of_byte(b);
        if l1 <= l2 {
            self.execute_op_linewise(l1, l2 - l1);
        } else {
            self.execute_op_linewise(l2, l1 - l2);
        }
    }

    /// An operator on a text object.
    pub fn op_on_object(&mut self, op: char, a: usize, b: usize)
        requires
            old(self).wf(),
        ensures
            final(self)@ == old(self)@.op_object(op, a as int, b as int),
            final(self).wf(),
    {
        proof {
            reveal(EdV::op_object);
        }
        if op == 'Q' || op == '>' || op == '<' {
            let e: usize = if b > 0 {
                b - 1
            } else {
                0
            };
            self.op_on_lines(
                a,
                if e > a {
                    e
                } else {
                    a
                },
            );
        } else {
            self.execute_op_charwise(op, a, b);
        }
    }

    /// An operator from the cursor to a byte.
    pub fn op_to_byte(&mut self, op: char, b: usize)
        requires
            old(self).wf(),
        ensures
            final(self)@ == old(self)@.op_to(op, b as int),
            final(self).wf(),
    {
        proof {
            reveal(EdV::op_to);
        }
        let a: usize = self.cursor_byte();
        if op == 'Q' || op == '>' || op == '<' {
            self.op_on_lines(a, b);
        } else if a <= b {
            self.execute_op_charwise(op, a, b);
        } else {
            self.execute_op_charwise(op, b, a);
        }
    }

    /// An operator from the cursor to the byte that a motion leads to.
    pub fn op_to_move(&mut self, op: char, key: &str, b: usize)
        requires
            old(self).wf(),
        ensures
            final(self)@ == old(self)@.op_move(op, key@, b as int),
            final(self).wf(),
    {
        proof {
            reveal(EdV::op_move);
        }
        if moves_by_lines(key) {
            self.op_on_lines(self.cursor_byte(), b);
        } else {
            self.op_to_byte(op, b);
        }
    }

    /// An operator from the cursor to a mark.
    pub fn op_to_mark(&mut self, op: char, b: usize, exact: bool)
        requires
            old(self).wf(),
        ensures
            final(self)@ == old(self)@.op_mark(op, b as int, exact),
            final(self).wf(),
    {
        proof {
            reveal(EdV::op_mark);
        }
        if exact {
            let c: usize = self.cursor_byte();
            if b <= c {
                self.execute_op_charwise(op, b, c);
            } else {
                self.execute_op_charwise(op, c, b);
            }
        } else {
            let k: usize = self.line_of_byte(b);
            if self.cur_line <= k {
                self.execute_op_linewise(self.cur_line, k - self.cur_line);
            } else {
                self.execute_op_linewise(k, self.cur_line - k);
            }
        }
    }

    /// The line that `gg` leads to.
    pub(crate) fn top_target(&self) -> (k: usize)
        requires
            self.wf(),
        ensures
            k == self@.top_target(),
            k < self@.line_count(),
    {
        let last: usize = self.buf.line_count() - 1;
        match self.pending.count1 {
            Some(n) => if n > 0 {
                if n - 1 < last {
                    n - 1
                } else {
                    last
                }
            } else {
                0
            },
            None => 0,
        }
    }

    /// An operator on the lines up to the one that `gg` leads to.
    pub fn op_to_top(&mut self)
        requires
            old(self).wf(),
        ensures
            final(self)@ == old(self)@.op_top(),
            final(self).wf(),
    {
        proof {
            reveal(EdV::op_top);
        }
        let k: usize = self.top_target();
        if self.cur_line <= k {
            self.execute_op_linewise(self.cur_line, k - self.cur_line);
        } else {
            self.execute_op_linewise(k, self.cur_line - k);
        }
    }

    fn put_typed(&mut self, t: &str)
        requires
            old(self).wf(),
        ensures
            final(self)@ == old(self)@.put_typed(t@),
            final(self).wf(),
    {
        proof {
            reveal(EdV::put_typed);
        }
        let c: usize = self.cursor_byte();
        let ghost before = self@;
        self.edit(c, c, t);
        let total: usize = self.buf.len_bytes();
        proof {
            text::lemma_at(before.buf.text, c as int);
            crate::editor::cursor::lemma_legal(before.buf.text, c as int);
            crate::editor::typing::lemma_splice_len(
                before.buf.text,
                text::at(before.buf.text, c as int),
                text::at(before.buf.text, c as int),
                t@,
            );
        }
        self.cursor_to_byte(c + byte_len(t));
    }

    fn replace_times(&mut self, c: char, count: usize)
        requires
            old(self).wf(),
        ensures
            final(self)@ == old(self)@.replace_times(c, count as int),
            final(self).wf(),
    {
        let ghost s0 = self@;
        let mut k: usize = 0;
        while k < count
            invariant
                k <= count,
                self.wf(),
                s0.replace_times(c, count as int) == self@.replace_times(c, count - k),
            decreases count - k,
        {
            self.do_replace_char(c);
            self.move_right_wrap();
            k += 1;
        }
    }

    fn redo_op(&mut self, op: char, m: &ChangeMotion, count: usize)
        requires
            old(self).wf(),
        ensures
            final(self)@ == old(self)@.redo_op(op, m@, count as int),
            final(self).wf(),
    {
        proof {
            reveal(EdV::redo_op);
        }
        match m {
            ChangeMotion::Key(k) => {
                if same(k, "gg") {
                    self.op_to_top();
                } else if same(k, "*") {
                    self.op_to_here(op, Direction::Forward, count);
                } else if same(k, "#") {
                    self.op_to_here(op, Direction::Backward, count);
                } else if let Some(b) = self.parse_motion(k, count) {
                    self.op_to_move(op, k, b);
                }
            },
            ChangeMotion::TextObject { kind, target } => {
                if let Some((a, b)) = self.text_object(*kind, *target) {
                    self.op_on_object(op, a, b);
                }
            },
            ChangeMotion::Linewise { extra } => {
                self.execute_op_linewise(self.cur_line, *extra);
            },
            ChangeMotion::Find { how, target } => {
                if let Some(b) = self.find_bound(*how, *target, count) {
                    self.op_to_byte(op, b);
                }
            },
            ChangeMotion::Mark { name, exact } => {
                if let Some(b) = self.marks.get(*name) {
                    self.op_to_mark(op, b, *exact);
                }
            },
        }
    }

    fn repeat_op(
        &mut self,
        op: char,
        motion: &ChangeMotion,
        count: usize,
        register: Option<char>,
        t: &str,
    )
        requires
            old(self).wf(),
        ensures
            final(self)@ == old(self)@.repeat_op(op, motion@, count as int, register, t@),
            final(self).wf(),
    {
        proof {
            reveal(EdV::repeat_op);
        }
        self.set_pending(
            Pending { operator: Some(op), register, count1: Some(count), ..self.pending },
        );
        self.redo_op(op, motion, count);
        if op == 'c' && chars_of(t).len() > 0 {
            self.put_typed(t);
        }
        if op == 'c' {
            self.set_mode(Mode::Normal);
        }
        self.set_pending(Pending::none());
    }

    fn repeat_put(&mut self, after: bool, count: usize, register: Option<char>)
        requires
            old(self).wf(),
        ensures
            final(self)@ == old(self)@.repeat_put(after, count as int, register),
            final(self).wf(),
    {
        proof {
            reveal(EdV::repeat_put);
        }
        let saved: Option<char> = self.pending.register;
        self.set_pending(Pending { register, ..self.pending });
        self.do_paste(after, count);
        self.set_pending(Pending { register: saved, ..self.pending });
    }

    /// Makes the last change again.
    pub fn repeat_last_change(&mut self)
        requires
            old(self).wf(),
        ensures
            final(self)@ == old(self)@.repeat_change(),
            final(self).wf(),
    {
        proof {
            reveal(EdV::repeat_change);
        }
        match copy_change(&self.last_change) {
            None => {},
            Some(LastChange::Op { op, motion, count, register, insert_text }) => {
                self.repeat_op(op, &motion, count, register, &insert_text);
            },
            Some(LastChange::Insert { text, append: _ }) => {
                self.put_typed(&text);
            },
            Some(LastChange::Replace { c, count }) => {
                self.replace_times(c, count);
            },
            Some(LastChange::Paste { after, count, register }) => {
                self.repeat_put(after, count, register);
            },
            Some(LastChange::SimpleAction { key, count, register: _ }) => {
                self.repeat_action(&key, count);
            },
        }
    }

    fn repeat_action(&mut self, key: &str, count: usize)
        requires
            old(self).wf(),
        ensures
            final(self)@ == old(self)@.repeat_action(key@, count as int),
            final(self).wf(),
    {
        proof {
            reveal(EdV::repeat_action);
        }
        if same(key, "C-A") {
            let delta: i64 = if count as u128 > i64::MAX as u128 {
                i64::MAX
            } else {
                count as i64
            };
            self.change_number(delta);
        } else if same(key, "C-X") {
            let delta: i64 = if count as u128 > i64::MAX as u128 {
                i64::MIN
            } else {
                -(count as i64)
            };
            self.change_number(delta);
        }
    }

    /// Searches for a pattern.
    pub fn search_submit(&mut self, p: &str, d: Direction)
        requires
            old(self).wf(),
        ensures
            final(self)@ == old(self)@.search_for(p@, d),
            final(self).wf(),
    {
        proof {
            reveal(EdV::search_for);
        }
        if chars_of(p).len() == 0 {
            return;
        }
        self.set_search(p, d);
        let c: usize = self.cursor_byte();
        match self.search_next_at(c, d) {
            Some(b) => {
                self.cursor_to_byte(b);
            },
            None => {
                self.set_status(&cat2(" pattern not found: ", p), 196);
            },
        }
    }

    fn set_search(&mut self, p: &str, d: Direction)
        requires
            old(self).wf(),
        ensures
            final(self)@ == (EdV { search: old(self)@.search.set(p@, d), ..old(self)@ }),
            final(self).wf(),
    {
        self.search.set(p, d);
    }

    /// The word at the cursor: letters, digits and underscores.
    fn word_to_search(&self) -> (w: String)
        requires
            self.wf(),
        ensures
            w@ == self@.search_word(),
    {
        let c: usize = self.cursor_byte();
        let total: usize = self.buf.len_bytes();
        let (k, col) = self.buf.byte_to_line_col(c);
        let l: String = self.buf.line(k);
        let n: usize = byte_len(&l);
        let v: Vec<char> = chars_of(&l);
        let i: usize = index_at(
            &v,
            if col <= n {
                col
            } else {
                n
            },
        );
        let mut a: usize = i;
        while a > 0 && (v[a - 1].is_alphanumeric() || v[a - 1] == '_')
            invariant
                a <= i <= v.len(),
                text::skip_back(v@, i as int, name_fn()) == text::skip_back(
                    v@,
                    a as int,
                    name_fn(),
                ),
            decreases a,
        {
            a -= 1;
        }
        let mut b: usize = i;
        while b < v.len() && (v[b].is_alphanumeric() || v[b] == '_')
            invariant
                i <= b <= v.len(),
                text::skip_fwd(v@, i as int, name_fn()) == text::skip_fwd(v@, b as int, name_fn()),
            decreases v.len() - b,
        {
            b += 1;
        }
        piece(&v, a, b)
    }

    /// Takes the word at the cursor for the pattern and says where the search
    /// leads.
    pub(crate) fn seek_here(&mut self, d: Direction, n: usize) -> (r: Option<usize>)
        requires
            old(self).wf(),
        ensures
            final(self)@ == old(self)@.seek_here(d),
            crate::buffer::int_opt(r) == old(self)@.here_match(d, n as int),
            final(self).wf(),
    {
        proof {
            reveal(EdV::seek_here);
        }
        let c: usize = self.cursor_byte();
        if c >= self.buf.len_bytes() {
            return None;
        }
        let w: String = self.word_to_search();
        if chars_of(&w).len() == 0 {
            return None;
        }
        let p: String = cat3("\\b", &pattern::escape(&w), "\\b");
        self.set_search(&p, d);
        self.search_next(false, n)
    }

    /// Searches for the word at the cursor.
    pub fn search_word_under_cursor(&mut self, d: Direction, n: usize)
        requires
            old(self).wf(),
        ensures
            final(self)@ == old(self)@.search_here(d, n as int),
            final(self).wf(),
    {
        proof {
            reveal(EdV::search_here);
        }
        if let Some(b) = self.seek_here(d, n) {
            self.cursor_to_byte(b);
        }
    }

    /// An operator from the cursor to where the search for its word leads.
    pub fn op_to_here(&mut self, op: char, d: Direction, n: usize)
        requires
            old(self).wf(),
        ensures
            final(self)@ == old(self)@.op_here(op, d, n as int),
            final(self).wf(),
    {
        proof {
            reveal(EdV::op_here);
        }
        if let Some(b) = self.seek_here(d, n) {
            self.op_to_byte(op, b);
        }
    }

    /// Starts to play the macro in a register.
    pub fn replay_macro(&mut self, reg: char)
        requires
            old(self).wf(),
        ensures
            final(self)@ == old(self)@.replay(reg),
            final(self).wf(),
    {
        proof {
            reveal(EdV::replay);
        }
        if self.replay_depth >= 4 {
            self.set_status(" macro recursion too deep", 196);
            return;
        }
        let t: String = match self.regs.get(reg) {
            Some(y) => y.text.clone(),
            None => String::new(),
        };
        if chars_of(&t).len() == 0 {
            self.set_status(&cat3(" register @", &one(reg), " is empty"), 244);
            return;
        }
        let ks: Vec<String> = parse_macro_text(&t);
        if ks.len() == 0 {
            return;
        }
        self.last_macro = Some(reg);
        self.replay_depth = self.replay_depth + 1;
        push_feed(&mut self.feed, Feed::MacroEnd);
        feed_macro(&mut self.feed, &ks);
    }
}

pub(crate) fn push_feed(feed: &mut Vec<Feed>, f: Feed)
    ensures
        state::feed_view(final(feed)@) == state::feed_view(old(feed)@).push(f@),
{
    let ghost before = feed@;
    let ghost fv = f@;
    feed.push(f);
    assert(state::feed_view(feed@) =~= state::feed_view(before).push(fv));
}

fn feed_macro(feed: &mut Vec<Feed>, ks: &Vec<String>)
    ensures
        state::feed_view(final(feed)@) == state::feed_view(old(feed)@) + macro_feed(
            fold::views(ks@),
            0,
        ),
{
    let ghost base = state::feed_view(feed@);
    let ghost kv = fold::views(ks@);
    let mut i: usize = ks.len();
    assert(base + macro_feed(kv, i as int) =~= base);
    while i > 0
        invariant
            i <= ks.len(),
            kv == fold::views(ks@),
            state::feed_view(feed@) == base + macro_feed(kv, i as int),
        decreases i,
    {
        i -= 1;
        assert(kv[i as int] == ks@[i as int]@);
        if !same(&ks[i], "RESIZE") && !starts_with(&ks[i], "PASTE\0") {
            push_feed(feed, Feed::MacroKey(ks[i].clone()));
            assert(base + macro_feed(kv, i as int) =~= (base + macro_feed(kv, i + 1)).push(
                FeedV::MacroKey(kv[i as int]),
            ));
        }
    }
}

fn copy_change(c: &Option<LastChange>) -> (r: Option<LastChange>)
    ensures
        state::change_opt(r) == state::change_opt(*c),
{
    match c {
        None => None,
        Some(LastChange::Op { op, motion, count, register, insert_text }) => Some(
            LastChange::Op {
                op: *op,
                motion: match motion {
                    ChangeMotion::Key(k) => ChangeMotion::Key(k.clone()),
                    ChangeMotion::TextObject { kind, target } => ChangeMotion::TextObject {
                        kind: *kind,
                        target: *target,
                    },
                    ChangeMotion::Linewise { extra } => ChangeMotion::Linewise { extra: *extra },
                    ChangeMotion::Find { how, target } => ChangeMotion::Find {
                        how: *how,
                        target: *target,
                    },
                    ChangeMotion::Mark { name, exact } => ChangeMotion::Mark {
                        name: *name,
                        exact: *exact,
                    },
                },
                count: *count,
                register: *register,
                insert_text: insert_text.clone(),
            },
        ),
        Some(LastChange::Replace { c, count }) => Some(
            LastChange::Replace { c: *c, count: *count },
        ),
        Some(LastChange::Insert { text, append }) => Some(
            LastChange::Insert { text: text.clone(), append: *append },
        ),
        Some(LastChange::Paste { after, count, register }) => Some(
            LastChange::Paste { after: *after, count: *count, register: *register },
        ),
        Some(LastChange::SimpleAction { key, count, register }) => Some(
            LastChange::SimpleAction { key: key.clone(), count: *count, register: *register },
        ),
    }
}

/// A search looks for what was typed, in its direction, from the cursor on, and
/// the cursor goes to where the match starts; an empty pattern changes nothing,
/// and the text never changes.
pub proof fn law_searched(s: EdV, p: Seq<char>, d: Direction)
    requires
        p.len() > 0,
        pattern::regex_error(p) is None,
        0 <= s.cursor() <= text::blen(s.buf.text),
    ensures
        ({
            let t = s.buf.text;
            let r = s.search_for(p, d);
            &&& r.search.pattern == p
            &&& r.search.direction == d
            &&& r.buf == s.buf
            &&& d is Forward ==> match pattern::regex_find(p, t, s.cursor()) {
                Some(m) => r == (EdV { search: r.search, ..s }).goto(m.0),
                None => true,
            }
            &&& d is Backward && pattern::regex_spans(p, t.take(text::at(t, s.cursor()))).len() > 0
                ==> r == (EdV { search: r.search, ..s }).goto(
                pattern::regex_spans(p, t.take(text::at(t, s.cursor()))).last().0,
            )
        }),
{
    reveal(EdV::search_for);
}

/// The word that `*` and `#` search for is the whole run of letters, digits and
/// underscores around the cursor.
pub proof fn law_search_word(s: EdV, i: int, a: int, b: int)
    requires
        0 <= i < s.buf.text.len(),
        s.cursor() == text::off(s.buf.text, i),
        ({
            let l = lines::line_text(s.buf.text, lines::line_of(s.buf.text, i));
            let j = i - lines::line_start(s.buf.text, lines::line_of(s.buf.text, i));
            &&& 0 <= a <= j < b <= l.len()
            &&& forall|k: int| a <= k < b ==> chars::is_alnum(#[trigger] l[k]) || l[k] == '_'
            &&& a > 0 ==> !chars::is_alnum(l[a - 1]) && l[a - 1] != '_'
            &&& b < l.len() ==> !chars::is_alnum(l[b]) && l[b] != '_'
        }),
    ensures
        s.search_word() == lines::line_text(
            s.buf.text,
            lines::line_of(s.buf.text, i),
        ).subrange(a, b),
{
    let t = s.buf.text;
    let k = lines::line_of(t, i);
    let l = lines::line_text(t, k);
    let st = lines::line_start(t, k);
    let j = i - st;
    text::lemma_at_off(t, i);
    text::lemma_off_mono(t, i, t.len() as int);
    lines::lemma_line_of(t, i);
    lines::lemma_line_raw(t, k);
    assert(text::off(l, j) == text::off(t, st + j) - lines::line_off(t, k));
    text::lemma_at_off(l, j);
    text::lemma_off_mono(l, j, l.len() as int);
    let f = name_fn();
    text::lemma_skip_back(l, j, f);
    text::lemma_skip_fwd(l, j, f);
    let x = text::skip_back(l, j, f);
    let y = text::skip_fwd(l, j, f);
    if x < a {
        assert(f(l[a - 1]));
    } else if a < x {
        assert(f(l[x - 1]));
    }
    if y < b {
        assert(f(l[y]));
    } else if b < y {
        assert(f(l[b]));
    }
}

} // verus!
