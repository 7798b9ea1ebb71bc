//! Insert and Replace mode.

use vstd::prelude::*;
use vstd::string::*;
use crate::buffer;
use crate::chars;
use crate::cols;
use crate::cols::byte_at_or_past_col;
use crate::editor::cursor;
use crate::editor::motions;
use crate::editor::motions::step_byte;
use crate::editor::state;
use crate::editor::state::{
    Action, ActionV, BlockInsert, BlockV, Editor, EdV, LastChange, LastChangeV, Prefixes,
};
use crate::lines;
use crate::mode::Mode;
use crate::picker::InitialTab;
use crate::strs;
use crate::strs::{cat2, cat3, first_char, has_char, one, rfind_chars, sole_char, trim};
use crate::text;
use crate::text::{byte_len, chars_of, index_at, offset_of, piece, same};

verus! {

/// What a group of keys makes of an editor: whether the key is one of the
/// group, the state after it and what the shell has to do.
pub open spec fn did(
    r: Option<Action>,
    after: EdV,
    before: EdV,
    want: Option<(EdV, ActionV)>,
) -> bool {
    match want {
        Some((s, a)) => match r {
            Some(x) => after == s && x@ == a,
            None => false,
        },
        None => r is None && after == before,
    }
}

/// The state after a key and what the shell has to do are those wanted.
pub open spec fn gave(after: EdV, act: ActionV, want: (EdV, ActionV)) -> bool {
    after == want.0 && act == want.1
}

pub open spec fn quiet(s: EdV) -> (EdV, ActionV) {
    (s, ActionV::Nothing)
}

/// A character that can be part of an abbreviation.
pub open spec fn abbrev_char(c: char) -> bool {
    chars::is_alnum(c) || c == '-' || c == '_'
}

pub open spec fn abbrev_fn() -> spec_fn(char) -> bool {
    |c: char| abbrev_char(c)
}

pub fn is_abbrev_char(c: char) -> (r: bool)
    ensures
        r == abbrev_char(c),
{
    c.is_alphanumeric() || c == '-' || c == '_'
}

/// What an abbreviation stands for, from entry `k` on.
pub open spec fn expansion_of(a: Seq<(Seq<char>, Seq<char>)>, t: Seq<char>, k: int) -> Option<
    Seq<char>,
>
    decreases a.len() - k,
{
    if k < 0 || k >= a.len() {
        None
    } else if a[k].0 == t {
        Some(a[k].1)
    } else {
        expansion_of(a, t, k + 1)
    }
}

/// `s` with the last occurrence of `t` replaced.
pub open spec fn last_replaced(s: Seq<char>, t: Seq<char>, r: Seq<char>) -> Seq<char> {
    match strs::rfind_from(s, t, s.len() as int) {
        Some(i) => s.take(i) + r + s.skip(i + t.len()),
        None => s,
    }
}

/// Last tab or space before index `i`, no earlier than `lead`.
pub open spec fn break_before(l: Seq<char>, i: int, lead: int) -> Option<int>
    decreases i,
{
    if i <= lead || i <= 0 {
        None
    } else if l[i - 1] == ' ' || l[i - 1] == '\t' {
        Some(i - 1)
    } else {
        break_before(l, i - 1, lead)
    }
}

/// Where to break a line that has grown past `width`.
pub open spec fn break_place(l: Seq<char>, i: int, lead: int, width: int) -> Option<int> {
    match break_before(l, state::min(i, width + 1), lead) {
        Some(b) => Some(b),
        None => break_before(l, i, lead),
    }
}

fn find_break(v: &Vec<char>, i: usize, lead: usize) -> (r: Option<usize>)
    requires
        i <= v@.len(),
    ensures
        buffer::int_opt(r) == break_before(v@, i as int, lead as int),
        r matches Some(b) ==> lead <= b < i,
{
    let mut k: usize = i;
    while k > lead && v[k - 1] != ' ' && v[k - 1] != '\t'
        invariant
            k <= i <= v.len(),
            break_before(v@, i as int, lead as int) == break_before(v@, k as int, lead as int),
        decreases k,
    {
        k -= 1;
    }
    if k <= lead {
        None
    } else {
        Some(k - 1)
    }
}

fn place_to_break(v: &Vec<char>, i: usize, lead: usize, width: usize) -> (r: Option<usize>)
    requires
        i <= v@.len(),
    ensures
        buffer::int_opt(r) == break_place(v@, i as int, lead as int, width as int),
        r matches Some(b) ==> lead <= b < i,
{
    let near: usize = if i <= width {
        i
    } else {
        width + 1
    };
    match find_break(v, near, lead) {
        Some(b) => Some(b),
        None => find_break(v, i, lead),
    }
}

pub open spec fn is_escape(k: Seq<char>) -> bool {
    k == "ESC"@ || k == "C-["@ || k == "C-C"@
}

pub open spec fn is_enter(k: Seq<char>) -> bool {
    k == "ENTER"@ || k == "\n"@ || k == "\r"@ || k == "C-M"@ || k == "C-J"@
}

pub open spec fn is_back(k: Seq<char>) -> bool {
    k == "BACK"@ || k == "BACKSPACE"@ || k == "C-H"@
}

pub(crate) fn escape_key(k: &str) -> (r: bool)
    ensures
        r == is_escape(k@),
{
    same(k, "ESC") || same(k, "C-[") || same(k, "C-C")
}

pub(crate) fn enter_key(k: &str) -> (r: bool)
    ensures
        r == is_enter(k@),
{
    same(k, "ENTER") || same(k, "\n") || same(k, "\r") || same(k, "C-M") || same(k, "C-J")
}

pub(crate) fn back_key(k: &str) -> (r: bool)
    ensures
        r == is_back(k@),
{
    same(k, "BACK") || same(k, "BACKSPACE") || same(k, "C-H")
}

impl EdV {
    /// The word before the cursor and the `n` bytes in front of it, replaced
    /// by what it abbreviates.
    #[verifier::opaque]
    pub open spec fn expand(self, n: int) -> EdV {
        let t = self.buf.text;
        let i = text::at(t, state::minus(self.cursor(), n));
        let a = text::skip_back(t, i, abbrev_fn());
        let w = t.subrange(a, i);
        if self.cursor() < n || a >= i {
            self
        } else {
            match expansion_of(self.abbrev, w, 0) {
                Some(r) => {
                    let s = self.edit(text::off(t, a), text::off(t, i), r).land(
                        text::off(t, a) + text::blen(r) + n,
                    );
                    if self.capturing {
                        EdV { captured: last_replaced(self.captured, w, r), ..s }
                    } else {
                        s
                    }
                },
                None => self,
            }
        }
    }

    /// The line broken at a blank before the cursor when it is longer than the
    /// text width: at the last one that leaves no more than the width before
    /// it, or, where the line starts with a longer word, at the last one.
    #[verifier::opaque]
    pub open spec fn wrap_line(self) -> EdV {
        let l = self.line_text(self.line);
        let cur = state::min(self.col, text::blen(l));
        let lead = text::skip_fwd(l, 0, motions::tab_or_space());
        if l.len() <= self.options.textwidth {
            self
        } else {
            match break_place(l, text::at(l, cur), lead, self.options.textwidth as int) {
                Some(b) => {
                    let o = lines::line_off(self.buf.text, self.line) + text::off(l, b);
                    self.edit(o, o + 1, "\n"@).place(
                        state::plus(self.line, 1),
                        state::minus(cur, text::off(l, b) + 1),
                    ).keep()
                },
                None => self,
            }
        }
    }

    /// The text copied into the first `n` lines of a block, from the last one
    /// up. Lines that do not reach the column stay as they are.
    pub open spec fn copy_down(self, vcol: int, ks: Seq<int>, n: int, t: Seq<char>) -> EdV
        decreases n,
    {
        if n <= 0 {
            self
        } else {
            let k = ks[n - 1];
            let l = self.line_text(k);
            let i = cols::index_at_col(l, vcol, self.tabstop());
            let o = lines::line_off(self.buf.text, k) + text::off(l, i);
            let s = if k < self.line_count() && cols::col_after(l, i, self.tabstop()) >= vcol {
                self.edit(o, o, t)
            } else {
                self
            };
            s.copy_down(vcol, ks, n - 1, t)
        }
    }

    #[verifier::opaque]
    pub open spec fn copy_block(self, b: BlockV, t: Seq<char>) -> EdV {
        if t.len() == 0 {
            self
        } else {
            self.open_undo().copy_down(b.vcol, b.lines, b.lines.len() as int, t).close_undo().settle()
        }
    }

    /// What was typed becomes part of the change operator that it was typed
    /// after, and else the last change by itself.
    pub open spec fn captured_change(self) -> EdV {
        let c = self.captured;
        if self.capturing {
            EdV {
                captured: Seq::empty(),
                capturing: false,
                prefixes: Prefixes { changing: false, ..self.prefixes },
                last: match self.last {
                    Some(
                        LastChangeV::Op { op, motion, count, register, insert_text },
                    ) if self.prefixes.changing => Some(
                        LastChangeV::Op { op, motion, count, register, insert_text: c },
                    ),
                    _ => if c.len() > 0 {
                        Some(LastChangeV::Insert { text: c, append: false })
                    } else {
                        self.last
                    },
                },
                ..self
            }
        } else {
            self
        }
    }

    /// The spelling has to be looked at again.
    pub open spec fn recheck(self) -> EdV {
        if self.options.spell {
            EdV { spell_stale: true, ..self }
        } else {
            self
        }
    }

    /// Leaves Insert mode.
    #[verifier::opaque]
    pub open spec fn leave_insert(self) -> EdV {
        let s = EdV { mode: Mode::Normal, ..self }.clamp();
        let d = EdV { block: None, ..s.captured_change() };
        let t = if self.capturing {
            self.captured
        } else {
            Seq::empty()
        };
        (match self.block {
            Some(b) => if t.len() > 0 && !t.contains('\n') {
                d.copy_block(b, t)
            } else {
                d
            },
            None => d,
        }).recheck()
    }

    /// Text put in at the cursor as one undo step.
    #[verifier::opaque]
    pub open spec fn inserted(self, t: Seq<char>) -> EdV {
        let c = self.cursor();
        if t.len() == 0 {
            self
        } else {
            self.open_undo().edit(c, c, t).close_undo().land(c + text::blen(t)).capture(t)
        }
    }

    /// The text of a register put in at the cursor.
    #[verifier::opaque]
    pub open spec fn insert_register(self, name: char) -> (EdV, ActionV) {
        if name == '=' {
            (self, ActionV::AskExpression)
        } else {
            match self.regs.get(name) {
                Some(y) => quiet(self.inserted(y.text)),
                None => quiet(self.say(" register "@ + seq![name] + " empty"@, 244)),
            }
        }
    }

    pub open spec fn to_line_start(self) -> EdV {
        self.place(self.line, 0).keep()
    }

    pub open spec fn to_line_end(self) -> EdV {
        self.place(self.line, self.col_cap(self.line)).keep()
    }

    pub open spec fn to_text_start(self) -> EdV {
        self.place(0, 0).keep()
    }

    pub open spec fn to_text_end(self) -> EdV {
        self.place(self.last_line(), text::blen(self.line_text(self.last_line()))).keep()
    }

    /// Keys that move the cursor while text is being typed.
    #[verifier::opaque]
    pub open spec fn typing_move(self, key: Seq<char>) -> Option<(EdV, ActionV)> {
        if key == "LEFT"@ {
            Some(quiet(self.left()))
        } else if key == "RIGHT"@ {
            Some(quiet(self.right()))
        } else if key == "UP"@ {
            Some((self, ActionV::StepRows { down: false, count: 1 }))
        } else if key == "DOWN"@ {
            Some((self, ActionV::StepRows { down: true, count: 1 }))
        } else if key == "HOME"@ {
            Some(quiet(self.to_line_start()))
        } else if key == "END"@ {
            Some(quiet(self.to_line_end()))
        } else if key == "C-HOME"@ {
            Some(quiet(self.to_text_start()))
        } else if key == "C-END"@ {
            Some(quiet(self.to_text_end()))
        } else {
            None
        }
    }

    /// Keys of Insert mode alone that move the cursor or the line.
    #[verifier::opaque]
    pub open spec fn insert_move(self, key: Seq<char>) -> Option<(EdV, ActionV)> {
        if key == "PgUP"@ {
            Some((self, ActionV::StepRows { down: false, count: (self.pane_h / 2) as int }))
        } else if key == "PgDOWN"@ {
            Some((self, ActionV::StepRows { down: true, count: (self.pane_h / 2) as int }))
        } else if key == "C-UP"@ {
            Some(quiet(self.line_up()))
        } else if key == "C-DOWN"@ {
            Some(quiet(self.line_down()))
        } else {
            None
        }
    }

    /// The character before the cursor taken out.
    #[verifier::opaque]
    pub open spec fn backspace(self) -> EdV {
        let c = self.cursor();
        if c > 0 {
            let a = text::floor(self.buf.text, c - 1);
            self.edit(a, c, Seq::empty()).land(a).uncapture(
                self.buf.text[text::at(self.buf.text, c - 1)],
            )
        } else {
            self
        }
    }

    /// The character at the cursor taken out.
    #[verifier::opaque]
    pub open spec fn delete_char(self) -> EdV {
        let c = self.cursor();
        if c < text::blen(self.buf.text) {
            self.edit(c, motions::next_byte(self.buf.text, c), Seq::empty()).settle()
        } else {
            self
        }
    }

    /// A line break put in at the cursor.
    #[verifier::opaque]
    pub open spec fn broken(self) -> EdV {
        let c = self.cursor();
        self.edit(c, c, "\n"@).place(state::plus(self.line, 1), 0).keep().capture("\n"@)
    }

    /// Keys that change the text around the cursor in Insert mode.
    #[verifier::opaque]
    pub open spec fn insert_edit(self, key: Seq<char>) -> Option<(EdV, ActionV)> {
        if is_back(key) {
            Some(quiet(self.backspace()))
        } else if key == "DEL"@ {
            Some(quiet(self.delete_char()))
        } else if key == "C-Y"@ {
            Some(quiet(self.copy_char(false)))
        } else if key == "C-E"@ {
            Some(quiet(self.copy_char(true)))
        } else if key == "C-K"@ {
            Some((self, ActionV::Pick(InitialTab::All)))
        } else if key == "C-T"@ {
            Some(
                quiet(
                    if self.options.autonumber {
                        self.number_in()
                    } else {
                        self.indent()
                    },
                ),
            )
        } else if key == "C-D"@ {
            Some(
                quiet(
                    if self.options.autonumber {
                        self.number_out()
                    } else {
                        self.outdent()
                    },
                ),
            )
        } else if is_enter(key) {
            Some(
                quiet(
                    if self.options.autonumber {
                        self.numbered_newline()
                    } else {
                        self.broken().expand(1)
                    },
                ),
            )
        } else if key == "TAB"@ || key == "\t"@ {
            Some(quiet(self.typed("\t"@)))
        } else {
            None
        }
    }

    /// A printable character typed in Insert mode.
    #[verifier::opaque]
    pub open spec fn insert_char(self, key: Seq<char>) -> EdV {
        match strs::sole(key) {
            Some(c) => if chars::is_ctrl(c) {
                self
            } else {
                let s = self.typed(key);
                let e = if abbrev_char(c) {
                    s
                } else {
                    s.expand(text::blen(key))
                };
                if self.options.textwidth > 0 && c == ' ' {
                    e.wrap_line()
                } else {
                    e
                }
            },
            None => self,
        }
    }

    /// The key after Ctrl-R.
    #[verifier::opaque]
    pub open spec fn after_ctrl_r(self, key: Seq<char>) -> (EdV, ActionV) {
        let s = EdV { prefixes: Prefixes { insert_register: false, ..self.prefixes }, ..self };
        if key == "ESC"@ || key == "C-C"@ {
            quiet(s)
        } else {
            match strs::head(key) {
                Some(c) => s.insert_register(c),
                None => quiet(s),
            }
        }
    }

    /// A key in Insert mode.
    #[verifier::opaque]
    pub open spec fn insert_key(self, key: Seq<char>) -> (EdV, ActionV) {
        if self.prefixes.insert_register {
            self.after_ctrl_r(key)
        } else if key == "INS"@ {
            quiet(
                EdV {
                    mode: Mode::Replace,
                    prefixes: Prefixes { turn: None, ..self.prefixes },
                    ..self
                },
            )
        } else if key == "C-R"@ {
            quiet(EdV { prefixes: Prefixes { insert_register: true, ..self.prefixes }, ..self })
        } else if is_escape(key) {
            quiet(self.leave_insert())
        } else if let Some(r) = self.typing_move(key) {
            r
        } else if let Some(r) = self.insert_move(key) {
            r
        } else if let Some(r) = self.insert_edit(key) {
            r
        } else {
            quiet(self.insert_char(key))
        }
    }

    /// The character at the cursor overwritten; at the end of the line the
    /// text is appended.
    #[verifier::opaque]
    pub open spec fn overtyped(self, s: Seq<char>) -> EdV {
        let l = self.line_text(self.line);
        let c = self.cursor();
        let e = if self.col >= text::blen(l) {
            c
        } else {
            lines::line_off(self.buf.text, self.line) + motions::next_byte(l, self.col)
        };
        self.edit(c, e, s).place(self.line, self.col + text::blen(s)).keep().capture(s)
    }

    /// Leaves Replace mode.
    #[verifier::opaque]
    pub open spec fn leave_replace(self) -> EdV {
        EdV { mode: Mode::Normal, ..self }.clamp().captured_change().recheck()
    }

    /// The cursor one character back, as Backspace in Replace mode takes it.
    #[verifier::opaque]
    pub open spec fn step_back(self) -> EdV {
        if self.col > 0 {
            EdV { col: text::floor(self.line_text(self.line), self.col - 1), ..self }.settle().keep()
        } else if self.line > 0 {
            self.place(self.line - 1, self.col_cap(self.line - 1)).keep()
        } else {
            self
        }
    }

    /// A key in Replace mode.
    #[verifier::opaque]
    pub open spec fn replace_key(self, key: Seq<char>) -> (EdV, ActionV) {
        if key == "INS"@ {
            quiet(EdV { mode: Mode::Insert, ..self })
        } else if is_escape(key) {
            quiet(self.leave_replace())
        } else if let Some(r) = self.typing_move(key) {
            r
        } else if is_back(key) {
            quiet(self.step_back())
        } else if key == "DEL"@ {
            quiet(self.delete_char().in_turn(self.buf.head))
        } else if is_enter(key) {
            quiet(self.broken().in_turn(self.buf.head))
        } else if key == "TAB"@ || key == "\t"@ {
            quiet(self.overtyped("\t"@).in_turn(self.buf.head))
        } else {
            match strs::sole(key) {
                Some(c) if !chars::is_ctrl(c) => quiet(
                    self.overtyped(key).in_turn(self.buf.head),
                ),
                _ => quiet(self),
            }
        }
    }

    /// Text pasted by the terminal, with its line ends made plain.
    #[verifier::opaque]
    pub open spec fn pasted(self, raw: Seq<char>) -> EdV {
        let t = plain_breaks(raw, 0);
        let c = self.cursor();
        if raw.len() == 0 {
            self
        } else {
            let s = self.edit(c, c, t).goto(c + text::blen(t));
            if self.mode is Insert {
                s.capture(t)
            } else {
                s
            }
        }
    }

    /// The value of the expression that was asked for, or what went wrong.
    #[verifier::opaque]
    pub open spec fn expression(self, raw: Seq<char>, value: Option<Seq<char>>) -> EdV {
        let s = strs::trimmed(raw);
        if s.len() == 0 {
            self
        } else {
            match value {
                Some(v) => self.inserted(v),
                None => self.say(" bad expression: "@ + s, 196),
            }
        }
    }
}

/// `s` from index `i` on, with each carriage return, alone or before a line
/// feed, made a line feed.
pub open spec fn plain_breaks(s: Seq<char>, i: int) -> Seq<char>
    decreases s.len() - i,
{
    if i < 0 || i >= s.len() {
        Seq::empty()
    } else if s[i] == '\r' {
        if i + 1 < s.len() && s[i + 1] == '\n' {
            seq!['\n'] + plain_breaks(s, i + 2)
        } else {
            seq!['\n'] + plain_breaks(s, i + 1)
        }
    } else {
        seq![s[i]] + plain_breaks(s, i + 1)
    }
}

fn with_plain_breaks(s: &str) -> (r: String)
    ensures
        r@ == plain_breaks(s@, 0),
{
    let v: Vec<char> = chars_of(s);
    let mut out: String = String::new();
    let mut i: usize = 0;
    assert(out@ + plain_breaks(s@, 0) =~= plain_breaks(s@, 0));
    while i < v.len()
        invariant
            i <= v.len(),
            v@ == s@,
            out@ + plain_breaks(s@, i as int) == plain_breaks(s@, 0),
        decreases v.len() - i,
    {
        let ghost before = out@;
        if v[i] == '\r' {
            out.push('\n');
            if i + 1 < v.len() && v[i + 1] == '\n' {
                assert(out@ + plain_breaks(s@, i + 2) =~= before + (seq!['\n'] + plain_breaks(
                    s@,
                    i + 2,
                )));
                i += 2;
            } else {
                assert(out@ + plain_breaks(s@, i + 1) =~= before + (seq!['\n'] + plain_breaks(
                    s@,
                    i + 1,
                )));
                i += 1;
            }
        } else {
            out.push(v[i]);
            assert(out@ + plain_breaks(s@, i + 1) =~= before + (seq![v@[i as int]] + plain_breaks(
                s@,
                i + 1,
            )));
            i += 1;
        }
    }
    assert(out@ + plain_breaks(s@, i as int) =~= out@);
    out
}

impl Editor {
    /// What an abbreviation stands for.
    pub fn expansion(&self, t: &str) -> (r: Option<String>)
        ensures
            buffer::str_opt(r) == expansion_of(self@.abbrev, t@, 0),
    {
        let mut k: usize = 0;
        while k < self.abbrev.len()
            invariant
                k <= self.abbrev.len(),
                expansion_of(self@.abbrev, t@, 0) == expansion_of(self@.abbrev, t@, k as int),
            decreases self.abbrev.len() - k,
        {
            assert(self@.abbrev[k as int] == (self.abbrev@[k as int].0@, self.abbrev@[k as int].1@));
            if same(&self.abbrev[k].0, t) {
                return Some(self.abbrev[k].1.clone());
            }
            k += 1;
        }
        None
    }

    /// Replaces the word before the cursor by what it abbreviates.
    pub fn try_expand_abbrev(&mut self, n: usize)
        requires
            old(self).wf(),
        ensures
            final(self)@ == old(self)@.expand(n as int),
            final(self).wf(),
    {
        proof {
            reveal(EdV::expand);
        }
        let c: usize = self.cursor_byte();
        if c < n {
            return;
        }
        let v: Vec<char> = self.buf.chars();
        let total: usize = self.buf.len_bytes();
        let i: usize = index_at(&v, c - n);
        let ghost t = self@.buf.text;
        let mut a: usize = i;
        while a > 0 && is_abbrev_char(v[a - 1])
            invariant
                a <= i <= v.len(),
                text::skip_back(v@, i as int, abbrev_fn()) == text::skip_back(
                    v@,
                    a as int,
                    abbrev_fn(),
                ),
            decreases a,
        {
            a -= 1;
        }
        if a >= i {
            return;
        }
        let w: String = piece(&v, a, i);
        if let Some(r) = self.expansion(&w) {
            let lo: usize = offset_of(&v, a);
            let hi: usize = offset_of(&v, i);
            let ghost before = self@;
            self.edit(lo, hi, &r);
            let after: usize = self.buf.len_bytes();
            proof {
                text::lemma_off_mono(t, a as int, i as int);
                text::lemma_at(t, c - n);
                text::lemma_at_off(t, a as int);
                text::lemma_at_off(t, i as int);
                cursor::lemma_legal(t, lo as int);
                cursor::lemma_legal(t, hi as int);
                lemma_splice_len(t, a as int, i as int, r@);
            }
            self.land_wide(lo as u128 + byte_len(&r) as u128 + n as u128);
            if self.capturing_insert {
                self.captured_insert = replace_last(&self.captured_insert, &w, &r);
            }
        }
    }

    /// Puts the cursor at a byte offset given as a sum that may be too large
    /// to hold.
    pub(crate) fn land_wide(&mut self, b: u128)
        requires
            old(self).ok(),
            old(self)@.buf.calm(),
        ensures
            final(self)@ == old(self)@.land(b as int),
            final(self).wf(),
    {
        let total: usize = self.buf.len_bytes();
        let x: usize = if b > usize::MAX as u128 {
            usize::MAX
        } else {
            b as usize
        };
        assert(state::legal(self@.buf.text, x as int) == state::legal(self@.buf.text, b as int));
        self.land(x);
    }

    /// Breaks the line when it is longer than the text width.
    pub fn auto_wrap(&mut self)
        requires
            old(self).wf(),
        ensures
            final(self)@ == old(self)@.wrap_line(),
            final(self).wf(),
    {
        proof {
            reveal(EdV::wrap_line);
        }
        let l: String = self.buf.line(self.cur_line);
        let v: Vec<char> = chars_of(&l);
        if v.len() <= self.options.textwidth {
            return;
        }
        let n: usize = byte_len(&l);
        let cur: usize = if self.cur_col <= n {
            self.cur_col
        } else {
            n
        };
        let mut lead: usize = 0;
        while lead < v.len() && (v[lead] == ' ' || v[lead] == '\t')
            invariant
                lead <= v.len(),
                text::skip_fwd(v@, 0, motions::tab_or_space()) == text::skip_fwd(
                    v@,
                    lead as int,
                    motions::tab_or_space(),
                ),
            decreases v.len() - lead,
        {
            lead += 1;
        }
        let i: usize = match place_to_break(&v, index_at(&v, cur), lead, self.options.textwidth) {
            Some(b) => b + 1,
            None => {
                return;
            },
        };
        let b: usize = offset_of(&v, i - 1);
        let total: usize = self.buf.len_bytes();
        proof {
            lines::lemma_line_raw(self@.buf.text, self@.line);
            text::lemma_off_mono(l@, i - 1, l@.len() as int);
            text::lemma_off_mono(l@, 0, i - 1);
        }
        let o: u128 = self.buf.line_byte_offset(self.cur_line) as u128 + b as u128;
        self.edit_wide(o, o + 1, "\n");
        let next: usize = self.cur_line.saturating_add(1);
        self.place(
            next,
            if cur > b {
                cur - b - 1
            } else {
                0
            },
        );
        self.keep();
    }

    /// Copies the text into the other lines of a block.
    pub fn replicate_block_insert(&mut self, b: &BlockInsert, t: &str)
        requires
            old(self).wf(),
        ensures
            final(self)@ == old(self)@.copy_block(state::block_opt(Some(*b))->0, t@),
            final(self).wf(),
    {
        proof {
            reveal(EdV::copy_block);
        }
        if chars_of(t).len() == 0 {
            return;
        }
        let ghost bv = state::block_opt(Some(*b))->0;
        self.open_undo();
        let ghost s0 = self@;
        let mut n: usize = b.lines.len();
        while n > 0
            invariant
                n <= b.lines.len(),
                bv == state::block_opt(Some(*b))->0,
                self.ok(),
                self@.buf.depth == 1,
                s0.copy_down(bv.vcol, bv.lines, bv.lines.len() as int, t@) == self@.copy_down(
                    bv.vcol,
                    bv.lines,
                    n as int,
                    t@,
                ),
            decreases n,
        {
            let k: usize = b.lines[n - 1];
            assert(bv.lines[n - 1] == k);
            let ts: usize = self.tabstop();
            if k < self.buf.line_count() {
                let l: String = self.buf.line(k);
                let (byte, col) = byte_at_or_past_col(&l, b.vcol, ts);
                if col >= b.vcol {
                    let o: u128 = self.buf.line_byte_offset(k) as u128 + byte as u128;
                    self.edit_wide(o, o, t);
                }
            }
            n -= 1;
        }
        self.close_undo();
        self.settle();
    }

    fn take_captured(&mut self)
        requires
            old(self).wf(),
        ensures
            final(self)@ == old(self)@.captured_change(),
            final(self).wf(),
    {
        if !self.capturing_insert {
            return;
        }
        let mut c: String = String::new();
        std::mem::swap(&mut c, &mut self.captured_insert);
        self.capturing_insert = false;
        let mut last: Option<LastChange> = None;
        std::mem::swap(&mut last, &mut self.last_change);
        let n: usize = chars_of(&c).len();
        let changing: bool = self.prefixes.changing;
        self.prefixes = Prefixes { changing: false, ..self.prefixes };
        self.last_change = match last {
            Some(LastChange::Op { op, motion, count, register, insert_text }) => if changing {
                Some(LastChange::Op { op, motion, count, register, insert_text: c })
            } else if n > 0 {
                Some(LastChange::Insert { text: c, append: false })
            } else {
                Some(LastChange::Op { op, motion, count, register, insert_text })
            },
            other => if n > 0 {
                Some(LastChange::Insert { text: c, append: false })
            } else {
                other
            },
        };
    }

    pub(crate) fn mark_stale(&mut self)
        requires
            old(self).wf(),
        ensures
            final(self)@ == old(self)@.recheck(),
            final(self).wf(),
    {
        if self.options.spell {
            self.spell_stale = true;
        }
    }

    /// Leaves Insert mode.
    pub fn leave_insert(&mut self)
        requires
            old(self).wf(),
        ensures
            final(self)@ == old(self)@.leave_insert(),
            final(self).wf(),
    {
        proof {
            reveal(EdV::leave_insert);
        }
        self.mode = Mode::Normal;
        self.clamp_col_to_line();
        let t: String = if self.capturing_insert {
            self.captured_insert.clone()
        } else {
            String::new()
        };
        let mut block: Option<BlockInsert> = None;
        std::mem::swap(&mut block, &mut self.block_insert);
        self.take_captured();
        if let Some(b) = block {
            if chars_of(&t).len() > 0 && !has_char(&t, '\n') {
                self.replicate_block_insert(&b, &t);
            }
        }
        self.mark_stale();
    }

    /// Puts text in at the cursor as one undo step.
    pub fn insert_text_at_cursor(&mut self, t: &str)
        requires
            old(self).wf(),
        ensures
            final(self)@ == old(self)@.inserted(t@),
            final(self).wf(),
    {
        proof {
            reveal(EdV::inserted);
        }
        if chars_of(t).len() == 0 {
            return;
        }
        let c: usize = self.cursor_byte();
        self.open_undo();
        self.edit(c, c, t);
        self.close_undo();
        self.land_wide(c as u128 + byte_len(t) as u128);
        self.capture(t);
    }

    /// Puts the text of a register in at the cursor.
    pub fn insert_from_register(&mut self, name: char) -> (act: Action)
        requires
            old(self).wf(),
        ensures
            (final(self)@, act@) == old(self)@.insert_register(name),
            final(self).wf(),
    {
        proof {
            reveal(EdV::insert_register);
        }
        if name == '=' {
            return Action::AskExpression;
        }
        let t: Option<String> = match self.regs.get(name) {
            Some(y) => Some(y.text.clone()),
            None => None,
        };
        match t {
            Some(t) => {
                self.insert_text_at_cursor(&t);
            },
            None => {
                self.set_status(&cat3(" register ", &one(name), " empty"), 244);
            },
        }
        Action::Nothing
    }

    fn typing_move_key(&mut self, key: &str) -> (r: Option<Action>)
        requires
            old(self).wf(),
        ensures
            did(r, final(self)@, old(self)@, old(self)@.typing_move(key@)),
            final(self).wf(),
    {
        proof {
            reveal(EdV::typing_move);
        }
        if same(key, "LEFT") {
            self.move_left_wrap();
        } else if same(key, "RIGHT") {
            self.move_right_wrap();
        } else if same(key, "UP") {
            return Some(Action::StepRows { down: false, count: 1 });
        } else if same(key, "DOWN") {
            return Some(Action::StepRows { down: true, count: 1 });
        } else if same(key, "HOME") {
            self.place(self.cur_line, 0);
            self.keep();
        } else if same(key, "END") {
            let c: usize = self.col_cap();
            self.place(self.cur_line, c);
            self.keep();
        } else if same(key, "C-HOME") {
            self.place(0, 0);
            self.keep();
        } else if same(key, "C-END") {
            let k: usize = self.buf.line_count() - 1;
            let n: usize = byte_len(&self.buf.line(k));
            self.place(k, n);
            self.keep();
        } else {
            return None;
        }
        Some(Action::Nothing)
    }

    fn insert_move_key(&mut self, key: &str) -> (r: Option<Action>)
        requires
            old(self).wf(),
        ensures
            did(r, final(self)@, old(self)@, old(self)@.insert_move(key@)),
            final(self).wf(),
    {
        proof {
            reveal(EdV::insert_move);
        }
        if same(key, "PgUP") {
            return Some(Action::StepRows { down: false, count: (self.pane_h / 2) as usize });
        } else if same(key, "PgDOWN") {
            return Some(Action::StepRows { down: true, count: (self.pane_h / 2) as usize });
        } else if same(key, "C-UP") {
            self.move_line_up();
        } else if same(key, "C-DOWN") {
            self.move_line_down();
        } else {
            return None;
        }
        Some(Action::Nothing)
    }

    /// Takes the character before the cursor out.
    pub fn backspace(&mut self)
        requires
            old(self).wf(),
        ensures
            final(self)@ == old(self)@.backspace(),
            final(self).wf(),
    {
        proof {
            reveal(EdV::backspace);
        }
        let c: usize = self.cursor_byte();
        if c > 0 {
            let v: Vec<char> = self.buf.chars();
            let i: usize = index_at(&v, c - 1);
            let a: usize = offset_of(&v, i);
            proof {
                text::lemma_at(v@, c - 1);
            }
            let gone: char = v[i];
            self.edit(a, c, &String::new());
            self.land(a);
            self.uncapture(gone);
        }
    }

    /// Takes the character at the cursor out.
    pub fn delete_forward(&mut self)
        requires
            old(self).wf(),
        ensures
            final(self)@ == old(self)@.delete_char(),
            final(self).wf(),
    {
        proof {
            reveal(EdV::delete_char);
        }
        let c: usize = self.cursor_byte();
        if c < self.buf.len_bytes() {
            let e: usize = self.next_char_end(c);
            self.edit(c, e, &String::new());
            self.settle();
        }
    }

    /// End of the character at a byte offset.
    pub(crate) fn next_char_end(&self, b: usize) -> (e: usize)
        requires
            b <= text::blen(self@.buf.text),
        ensures
            e == motions::next_byte(self@.buf.text, b as int),
    {
        let total: usize = self.buf.len_bytes();
        step_byte(&self.buf.chars(), b)
    }

    /// Puts a line break in at the cursor.
    pub fn break_line(&mut self)
        requires
            old(self).wf(),
        ensures
            final(self)@ == old(self)@.broken(),
            final(self).wf(),
    {
        proof {
            reveal(EdV::broken);
        }
        let c: usize = self.cursor_byte();
        self.edit(c, c, "\n");
        let next: usize = self.cur_line.saturating_add(1);
        self.place(next, 0);
        self.keep();
        self.capture("\n");
    }

    fn insert_edit_key(&mut self, key: &str) -> (r: Option<Action>)
        requires
            old(self).wf(),
        ensures
            did(r, final(self)@, old(self)@, old(self)@.insert_edit(key@)),
            final(self).wf(),
    {
        proof {
            reveal(EdV::insert_edit);
        }
        if back_key(key) {
            self.backspace();
        } else if same(key, "DEL") {
            self.delete_forward();
        } else if same(key, "C-Y") {
            self.copy_char_from(false);
        } else if same(key, "C-E") {
            self.copy_char_from(true);
        } else if same(key, "C-K") {
            return Some(Action::Pick(InitialTab::All));
        } else if same(key, "C-T") {
            if self.options.autonumber {
                self.autonum_indent_in();
            } else {
                self.insert_indent();
            }
        } else if same(key, "C-D") {
            if self.options.autonumber {
                self.autonum_indent_out();
            } else {
                self.insert_outdent();
            }
        } else if enter_key(key) {
            if self.options.autonumber {
                self.autonum_newline();
            } else {
                self.break_line();
                self.try_expand_abbrev(1);
            }
        } else if same(key, "TAB") || same(key, "\t") {
            self.type_text("\t");
        } else {
            return None;
        }
        Some(Action::Nothing)
    }

    /// Types a printable character.
    fn insert_char(&mut self, key: &str)
        requires
            old(self).wf(),
        ensures
            final(self)@ == old(self)@.insert_char(key@),
            final(self).wf(),
    {
        proof {
            reveal(EdV::insert_char);
        }
        if let Some(c) = sole_char(key) {
            if !c.is_control() {
                let width: usize = self.options.textwidth;
                self.type_text(key);
                if !is_abbrev_char(c) {
                    self.try_expand_abbrev(byte_len(key));
                }
                if width > 0 && c == ' ' {
                    self.auto_wrap();
                }
            }
        }
    }

    /// The key after Ctrl-R.
    fn register_key(&mut self, key: &str) -> (act: Action)
        requires
            old(self).wf(),
        ensures
            gave(final(self)@, act@, old(self)@.after_ctrl_r(key@)),
            final(self).wf(),
    {
        proof {
            reveal(EdV::after_ctrl_r);
        }
        self.set_prefixes(Prefixes { insert_register: false, ..self.prefixes });
        if same(key, "ESC") || same(key, "C-C") {
            return Action::Nothing;
        }
        match first_char(key) {
            Some(c) => self.insert_from_register(c),
            None => Action::Nothing,
        }
    }

    /// A key in Insert mode, past the key maps.
    pub fn handle_insert(&mut self, key: &str) -> (act: Action)
        requires
            old(self).wf(),
        ensures
            gave(final(self)@, act@, old(self)@.insert_key(key@)),
            final(self).wf(),
    {
        proof {
            reveal(EdV::insert_key);
        }
        if self.prefixes.insert_register {
            return self.register_key(key);
        }
        if same(key, "INS") {
            self.set_mode(Mode::Replace);
            self.set_prefixes(Prefixes { turn: None, ..self.prefixes });
            return Action::Nothing;
        }
        if same(key, "C-R") {
            self.set_prefixes(Prefixes { insert_register: true, ..self.prefixes });
            return Action::Nothing;
        }
        if escape_key(key) {
            self.leave_insert();
            return Action::Nothing;
        }
        if let Some(a) = self.typing_move_key(key) {
            return a;
        }
        if let Some(a) = self.insert_move_key(key) {
            return a;
        }
        if let Some(a) = self.insert_edit_key(key) {
            return a;
        }
        self.insert_char(key);
        Action::Nothing
    }

    /// Overwrites the character at the cursor.
    pub fn replace_char_at_cursor(&mut self, s: &str)
        requires
            old(self).wf(),
        ensures
            final(self)@ == old(self)@.overtyped(s@),
            final(self).wf(),
    {
        proof {
            reveal(EdV::overtyped);
        }
        let l: String = self.buf.line(self.cur_line);
        let n: usize = byte_len(&l);
        let c: usize = self.cursor_byte();
        let total: usize = self.buf.len_bytes();
        let e: u128 = if self.cur_col >= n {
            c as u128
        } else {
            self.buf.line_byte_offset(self.cur_line) as u128 + step_byte(
                &chars_of(&l),
                self.cur_col,
            ) as u128
        };
        self.edit_wide(c as u128, e, s);
        self.place_wide(self.cur_line, self.cur_col as u128 + byte_len(s) as u128);
        self.keep();
        self.capture(s);
    }

    /// Leaves Replace mode.
    pub fn leave_replace(&mut self)
        requires
            old(self).wf(),
        ensures
            final(self)@ == old(self)@.leave_replace(),
            final(self).wf(),
    {
        proof {
            reveal(EdV::leave_replace);
        }
        self.mode = Mode::Normal;
        self.clamp_col_to_line();
        self.take_captured();
        self.mark_stale();
    }

    /// Takes the cursor one character back.
    fn step_back(&mut self)
        requires
            old(self).wf(),
        ensures
            final(self)@ == old(self)@.step_back(),
            final(self).wf(),
    {
        proof {
            reveal(EdV::step_back);
        }
        if self.cur_col > 0 {
            let l: String = self.buf.line(self.cur_line);
            let c: usize = cursor::floor_on(&l, self.cur_col - 1);
            self.cur_col = c;
            self.settle();
            self.keep();
        } else if self.cur_line > 0 {
            let k: usize = self.cur_line - 1;
            let n: usize = byte_len(&self.buf.line(k));
            let c: usize = match self.mode {
                Mode::Insert | Mode::Replace => n,
                _ => if n > 0 {
                    n - 1
                } else {
                    0
                },
            };
            self.place(k, c);
            self.keep();
        }
    }

    /// A key in Replace mode, past the key maps.
    pub fn handle_replace(&mut self, key: &str) -> (act: Action)
        requires
            old(self).wf(),
        ensures
            gave(final(self)@, act@, old(self)@.replace_key(key@)),
            final(self).wf(),
    {
        proof {
            reveal(EdV::replace_key);
        }
        if same(key, "INS") {
            self.set_mode(Mode::Insert);
            return Action::Nothing;
        }
        if escape_key(key) {
            self.leave_replace();
            return Action::Nothing;
        }
        if let Some(a) = self.typing_move_key(key) {
            return a;
        }
        let was: Option<usize> = self.buf.head_step();
        if back_key(key) {
            self.step_back();
        } else if same(key, "DEL") {
            self.delete_forward();
            self.in_turn(was);
        } else if enter_key(key) {
            self.break_line();
            self.in_turn(was);
        } else if same(key, "TAB") || same(key, "\t") {
            self.replace_char_at_cursor("\t");
            self.in_turn(was);
        } else {
            if let Some(c) = sole_char(key) {
                if !c.is_control() {
                    self.replace_char_at_cursor(key);
                    self.in_turn(was);
                }
            }
        }
        Action::Nothing
    }

    /// Takes text pasted by the terminal.
    pub fn handle_paste(&mut self, raw: &str)
        requires
            old(self).wf(),
        ensures
            final(self)@ == old(self)@.pasted(raw@),
            final(self).wf(),
    {
        proof {
            reveal(EdV::pasted);
        }
        if chars_of(raw).len() == 0 {
            return;
        }
        let t: String = with_plain_breaks(raw);
        let c: usize = self.cursor_byte();
        let ghost before = self@;
        self.edit(c, c, &t);
        let total: usize = self.buf.len_bytes();
        proof {
            text::lemma_at(before.buf.text, c as int);
            cursor::lemma_legal(before.buf.text, c as int);
            lemma_splice_len(
                before.buf.text,
                text::at(before.buf.text, c as int),
                text::at(before.buf.text, c as int),
                t@,
            );
        }
        self.cursor_to_byte(c + byte_len(&t));
        match self.mode {
            Mode::Insert => {
                self.capture(&t);
            },
            _ => {},
        }
    }

    /// Takes the value of the expression that was asked for.
    pub fn expression_result(&mut self, raw: &str, value: Option<String>)
        requires
            old(self).wf(),
        ensures
            final(self)@ == old(self)@.expression(raw@, buffer::str_opt(value)),
            final(self).wf(),
    {
        proof {
            reveal(EdV::expression);
        }
        let s: String = trim(raw);
        if chars_of(&s).len() == 0 {
            return;
        }
        match value {
            Some(v) => {
                self.insert_text_at_cursor(&v);
            },
            None => {
                self.set_status(&cat2(" bad expression: ", &s), 196);
            },
        }
    }
}

/// Length of a text with the characters `a..i` replaced.
pub(crate) proof fn lemma_splice_len(t: Seq<char>, a: int, i: int, r: Seq<char>)
    requires
        0 <= a <= i <= t.len(),
    ensures
        text::blen(buffer::splice(t, text::off(t, a), text::off(t, i), r)) == text::blen(t) - (
        text::off(t, i) - text::off(t, a)) + text::blen(r),
{
    text::lemma_at_off(t, a);
    text::lemma_at_off(t, i);
    let n = buffer::splice(t, text::off(t, a), text::off(t, i), r);
    assert(n =~= t.take(a) + r + t.skip(i));
    text::lemma_blen_add(t.take(a), r);
    text::lemma_blen_add(t.take(a) + r, t.skip(i));
    assert(t =~= t.take(i) + t.skip(i));
    text::lemma_blen_add(t.take(i), t.skip(i));
    text::lemma_off_take(t, a, a);
    text::lemma_off_take(t, i, i);
}

/// `s` with the last occurrence of `t` replaced.
fn replace_last(s: &str, t: &str, r: &str) -> (out: String)
    ensures
        out@ == last_replaced(s@, t@, r@),
{
    let v: Vec<char> = chars_of(s);
    let p: Vec<char> = chars_of(t);
    match rfind_chars(&v, &p) {
        Some(i) => {
            let a: String = piece(&v, 0, i);
            let b: String = piece(&v, i + p.len(), v.len());
            assert(a@ =~= s@.take(i as int));
            assert(b@ =~= s@.skip(i + t@.len()));
            cat3(&a, r, &b)
        },
        None => s.to_owned(),
    }
}

} // verus!
