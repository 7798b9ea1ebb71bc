//! Normal mode: the keys in the order in which they are looked at.

use vstd::prelude::*;
use vstd::string::*;
use crate::chars;
use crate::chars::{ascii_alnum, ascii_alpha, ascii_digit};
use crate::cols;
use crate::editor::items;
use crate::editor::items::item_column;
use crate::editor::repeat;
use crate::editor::state;
use crate::editor::state::{
    Action, ActionV, ChangeMotion, ChangeMotionV, Editor, EdV, Pending, Prefixes, ShellCommand,
};
use crate::editor::typing;
use crate::editor::typing::escape_key;
use crate::fold;
use crate::fold::{find_parent, is_foldable};
use crate::keys;
use crate::keys::{is_jump_motion, key_to_literal_char};
use crate::lines;
use crate::marks;
use crate::mode::Mode;
use crate::motion;
use crate::register::{Yank, YankKind, YankV};
use crate::strs;
use crate::strs::{cat2, cat3, dec, first_char, one, sole_char};
use crate::text;
use crate::text::{byte_len, same};

verus! {

/// Names a register: a letter, a digit, the clipboard or the unnamed one.
pub open spec fn register_name(c: char) -> bool {
    chars::is_ascii_alnum(c) || c == '+' || c == '*' || c == '"'
}

pub(crate) fn names_register(c: char) -> (r: bool)
    ensures
        r == register_name(c),
{
    ascii_alnum(c) || c == '+' || c == '*' || c == '"'
}

/// One more digit of a count.
pub open spec fn count_digit(n: Option<usize>, d: int) -> Option<usize> {
    Some(
        cols::sat(
            (match n {
                Some(x) => x as int,
                None => 0,
            }) * 10 + d,
        ) as usize,
    )
}

fn add_digit(n: Option<usize>, d: usize) -> (r: Option<usize>)
    requires
        d < 10,
    ensures
        r == count_digit(n, d as int),
{
    let x: u128 = match n {
        Some(x) => x as u128,
        None => 0,
    };
    let y: u128 = x * 10 + d as u128;
    Some(
        if y > usize::MAX as u128 {
            usize::MAX
        } else {
            y as usize
        },
    )
}

pub open spec fn is_operator(key: Seq<char>) -> bool {
    key == "d"@ || key == "c"@ || key == "y"@ || key == ">"@ || key == "<"@
}

fn operator_key(key: &str) -> (r: bool)
    ensures
        r == is_operator(key@),
{
    same(key, "d") || same(key, "c") || same(key, "y") || same(key, ">") || same(key, "<")
}

pub open spec fn wants_char(key: Seq<char>) -> bool {
    key == "f"@ || key == "F"@ || key == "t"@ || key == "T"@ || key == "r"@
}

fn char_key(key: &str) -> (r: bool)
    ensures
        r == wants_char(key@),
{
    same(key, "f") || same(key, "F") || same(key, "t") || same(key, "T") || same(key, "r")
}

impl EdV {
    /// No operator, count or text object is under way.
    pub open spec fn idle(self) -> bool {
        self.pending.operator is None && self.pending.count1 is None
            && self.pending.text_object is None
    }

    pub open spec fn with_prefixes(self, p: Prefixes) -> EdV {
        EdV { prefixes: p, ..self }
    }

    pub open spec fn with_pending(self, p: Pending) -> EdV {
        EdV { pending: p, ..self }
    }

    // ── Macros and yanking everything ───────────────────────────────────

    /// The register to record into.
    #[verifier::opaque]
    pub open spec fn start_recording(self, key: Seq<char>) -> EdV {
        let s = self.with_prefixes(Prefixes { record: false, ..self.prefixes });
        match strs::head(key) {
            Some(c) if chars::is_ascii_alnum(c) => EdV {
                recorded: Seq::empty(),
                recording: Some(c),
                ..s
            }.say(" recording @"@ + seq![c], 178),
            _ => s,
        }
    }

    /// The register to play.
    #[verifier::opaque]
    pub open spec fn start_playing(self, key: Seq<char>) -> EdV {
        let s = self.with_prefixes(Prefixes { play: false, ..self.prefixes });
        if key == "@"@ {
            match self.last_macro {
                Some(r) => s.replay(r),
                None => s,
            }
        } else {
            match strs::head(key) {
                Some(c) if chars::is_ascii_alnum(c) => s.replay(c),
                _ => s,
            }
        }
    }

    /// `M`: ends the recording, or asks for the register to record into.
    #[verifier::opaque]
    pub open spec fn record_key(self) -> EdV {
        match self.recording {
            Some(r) => EdV {
                recording: None,
                recorded: Seq::empty(),
                regs: self.regs.put(r, YankV { text: self.recorded, kind: YankKind::Charwise }),
                ..self
            }.say(
                " recorded @"@ + seq![r] + " ("@ + strs::dec_of(text::blen(self.recorded))
                    + " bytes)"@,
                244,
            ),
            None => self.with_prefixes(Prefixes { record: true, ..self.prefixes }),
        }
    }

    #[verifier::opaque]
    pub open spec fn macro_keys(self, key: Seq<char>) -> Option<(EdV, ActionV)> {
        if key == "C-Y"@ && self.pending.operator is None {
            Some(typing::quiet(self.clear_pending().yank_lines(0, self.last_line())))
        } else if self.prefixes.record {
            Some(typing::quiet(self.start_recording(key)))
        } else if self.prefixes.play {
            Some(typing::quiet(self.start_playing(key)))
        } else if key == "M"@ && self.idle() && !self.prefixes.z {
            Some(typing::quiet(self.record_key()))
        } else if key == "@"@ && self.idle() {
            Some(typing::quiet(self.with_prefixes(Prefixes { play: true, ..self.prefixes })))
        } else {
            None
        }
    }

    // ── A character that a command waits for ────────────────────────────

    /// The pending operator up to a character that `f`, `F`, `t` or `T` finds.
    #[verifier::opaque]
    pub open spec fn take_found(self, op: char, how: char, c: char) -> EdV {
        match self.find_bound(how, c, state::count_of(self.pending)) {
            Some(b) => self.op_to(op, b).remember(
                op,
                ChangeMotionV::Find { how, target: c },
                state::count_of(self.pending),
                self.pending.register,
            ),
            None => self,
        }
    }

    /// The character after `r`, `f`, `F`, `t` or `T`. With an operator the
    /// find is its range, else the cursor goes there.
    pub open spec fn with_char(self, op: char, c: char) -> EdV {
        let n = state::count_of(self.pending);
        if op != 'r' && self.pending.operator is Some {
            self.take_found(self.pending.operator->0, op, c)
        } else if op == 'r' {
            self.replace_char(c)
        } else if op == 'f' {
            self.find_char(c, false, n)
        } else if op == 'F' {
            self.find_char_back(c, false, n)
        } else if op == 't' {
            self.find_char(c, true, n)
        } else if op == 'T' {
            self.find_char_back(c, true, n)
        } else {
            self
        }
    }

    /// The character itself is data, whatever command it would be.
    #[verifier::opaque]
    pub open spec fn char_keys(self, key: Seq<char>) -> Option<(EdV, ActionV)> {
        match self.pending.awaiting_char {
            None => None,
            Some(op) => if typing::is_escape(key) {
                Some(typing::quiet(self.clear_pending()))
            } else {
                match keys::literal(key) {
                    None => Some(typing::quiet(self.clear_pending())),
                    Some(c) => Some(
                        typing::quiet(
                            self.with_pending(
                                Pending { awaiting_char: None, ..self.pending },
                            ).with_char(op, c).clear_pending(),
                        ),
                    ),
                }
            },
        }
    }

    // ── Marks ───────────────────────────────────────────────────────────

    #[verifier::opaque]
    pub open spec fn name_mark(self, key: Seq<char>) -> EdV {
        let s = self.with_prefixes(Prefixes { mark_set: false, ..self.prefixes });
        match strs::head(key) {
            Some(c) if chars::is_ascii_alpha(c) => s.set_mark(c).say(
                " mark '"@ + seq![c] + " set"@,
                244,
            ),
            _ => s,
        }
    }

    /// The pending operator up to a mark.
    #[verifier::opaque]
    pub open spec fn take_mark(self, op: char, name: char, b: int, exact: bool) -> EdV {
        self.op_mark(op, b, exact).remember(
            op,
            ChangeMotionV::Mark { name, exact },
            state::count_of(self.pending),
            self.pending.register,
        ).clear_pending()
    }

    /// To a mark. From the mark of the previous place the place left becomes
    /// that mark.
    #[verifier::opaque]
    pub open spec fn go_to_mark(self, b: int, exact: bool, previous: bool) -> EdV {
        let s = self.goto(b);
        let u = if exact {
            s
        } else {
            s.goto(motion::first_nonblank(s.buf.text, lines::line_at(s.buf.text, s.cursor())))
        };
        if previous {
            EdV { marks: u.marks.insert('\'', self.cursor()), ..u }
        } else {
            u
        }
    }

    #[verifier::opaque]
    pub open spec fn jump_mark(self, key: Seq<char>) -> EdV {
        let exact = self.prefixes.mark_exact;
        let s = self.with_prefixes(
            Prefixes { mark_jump: false, mark_exact: false, ..self.prefixes },
        );
        match strs::head(key) {
            None => s,
            Some(c) => {
                let previous = c == '\'' || c == '`';
                if !previous && !chars::is_ascii_alpha(c) {
                    s
                } else {
                    let name = if previous {
                        '\''
                    } else {
                        c
                    };
                    match marks::mark_at(self.marks, name) {
                        None => s.say(" mark '"@ + seq![c] + " not set"@, 196).clear_pending(),
                        Some(b) => match self.pending.operator {
                            Some(op) => s.take_mark(op, name, b, exact),
                            None => s.go_to_mark(b, exact, previous),
                        },
                    }
                }
            },
        }
    }

    #[verifier::opaque]
    pub open spec fn mark_keys(self, key: Seq<char>) -> Option<(EdV, ActionV)> {
        let p = self.prefixes;
        if p.mark_set {
            Some(typing::quiet(self.name_mark(key)))
        } else if p.mark_jump {
            Some(typing::quiet(self.jump_mark(key)))
        } else if key == "m"@ && self.idle() {
            Some(typing::quiet(self.with_prefixes(Prefixes { mark_set: true, ..p })))
        } else if (key == "'"@ || key == "`"@) && self.pending.count1 is None
            && self.pending.text_object is None {
            Some(
                typing::quiet(
                    self.with_prefixes(
                        Prefixes { mark_jump: true, mark_exact: key == "`"@, ..p },
                    ),
                ),
            )
        } else {
            None
        }
    }

    // ── The `z` prefix ──────────────────────────────────────────────────

    /// The key after `z`.
    #[verifier::opaque]
    pub open spec fn z_key(self, key: Seq<char>) -> (EdV, ActionV) {
        if key == "="@ {
            self.suggest()
        } else if key == "g"@ {
            match self.word_here() {
                Some(w) => (self, ActionV::AddWord(w)),
                None => typing::quiet(self),
            }
        } else if key == "r"@ {
            (self.toggle_reading(), ActionV::Relayout)
        } else if key == "z"@ || key == "q"@ {
            (self, ActionV::SaveQuit)
        } else if key == "n"@ {
            typing::quiet(self.next_missp())
        } else if key == "p"@ {
            typing::quiet(self.prev_missp())
        } else if key == "s"@ {
            typing::quiet(self.filter_word(true))
        } else if key == "h"@ {
            typing::quiet(self.filter_word(false))
        } else if key == "0"@ {
            typing::quiet(self.unfiltered())
        } else {
            typing::quiet(self.z_fold(key))
        }
    }

    /// The keys after `z` that open and close folds: `zo` and `zc` the one at
    /// the cursor, `za` whichever it needs, `zR` and `zM` all of them.
    #[verifier::opaque]
    pub open spec fn z_fold(self, key: Seq<char>) -> EdV {
        if key == "o"@ {
            EdV { folds: self.folds.open(self.line), ..self }
        } else if key == "c"@ {
            self.close_fold()
        } else if key == "a"@ {
            self.toggle_fold()
        } else if key == "R"@ {
            self.unfold_all()
        } else if key == "M"@ {
            self.fold_to(0)
        } else {
            self
        }
    }

    /// Closes the fold at the cursor: that of its line, or else the one that
    /// its parent starts, where the cursor then goes.
    #[verifier::opaque]
    pub open spec fn close_fold(self) -> EdV {
        let ls = self.all_lines();
        if fold::foldable(ls, self.line) {
            EdV { folds: self.folds.close(self.line, ls), ..self }
        } else {
            match fold::parent_of(ls, self.line) {
                Some(p) => EdV { folds: self.folds.close(p, ls), ..self }.on_item(p),
                None => self,
            }
        }
    }

    #[verifier::opaque]
    pub open spec fn z_keys(self, key: Seq<char>) -> Option<(EdV, ActionV)> {
        if self.prefixes.z {
            Some(self.with_prefixes(Prefixes { z: false, ..self.prefixes }).z_key(key))
        } else if key == "z"@ && self.pending.operator is None && self.pending.count1 is None {
            Some(typing::quiet(self.with_prefixes(Prefixes { z: true, ..self.prefixes })))
        } else {
            None
        }
    }

    // ── Folds ───────────────────────────────────────────────────────────

    /// Space: the fold at the cursor flipped. Where that closes the parent of
    /// a line without children, the cursor goes to the parent.
    #[verifier::opaque]
    pub open spec fn toggle_fold(self) -> EdV {
        let ls = self.all_lines();
        let s = EdV { folds: self.folds.toggle(self.line, ls), ..self };
        if fold::foldable(ls, self.line) || self.folds.innermost(self.line, ls, self.line) is Some {
            s
        } else {
            match fold::parent_of(ls, self.line) {
                Some(p) => s.on_item(p),
                None => s,
            }
        }
    }

    #[verifier::opaque]
    pub open spec fn fold_keys(self, key: Seq<char>) -> Option<(EdV, ActionV)> {
        let ls = self.all_lines();
        if key == " "@ && self.idle() {
            Some(typing::quiet(self.toggle_fold()))
        } else if key == "C-SPACE"@ && self.idle() {
            Some(
                typing::quiet(EdV { folds: self.folds.toggle_tree(self.line, ls), ..self }),
            )
        } else if (key == "LEFT"@ || key == "RIGHT"@) && state::is_hl(self.buf.kind) && self.idle()
            && fold::foldable(ls, self.line) {
            if key == "RIGHT"@ && self.folds.closed.contains(self.line) {
                Some(typing::quiet(EdV { folds: self.folds.open(self.line), ..self }))
            } else if key == "LEFT"@ && !self.folds.closed.contains(self.line) {
                Some(typing::quiet(EdV { folds: self.folds.close(self.line, ls), ..self }))
            } else {
                None
            }
        } else {
            None
        }
    }

    // ── `]` and `[`, text objects, register names ───────────────────────

    #[verifier::opaque]
    pub open spec fn bracket_keys(self, key: Seq<char>) -> Option<(EdV, ActionV)> {
        let p = self.prefixes;
        match p.bracket {
            Some(b) => {
                let s = self.with_prefixes(Prefixes { bracket: None, ..p });
                Some(
                    typing::quiet(
                        if b == ']' && key == "s"@ {
                            s.next_missp()
                        } else if b == '[' && key == "s"@ {
                            s.prev_missp()
                        } else {
                            s
                        },
                    ),
                )
            },
            None => if key == "]"@ && self.idle() {
                Some(typing::quiet(self.with_prefixes(Prefixes { bracket: Some(']'), ..p })))
            } else if key == "["@ && self.idle() {
                Some(typing::quiet(self.with_prefixes(Prefixes { bracket: Some('['), ..p })))
            } else {
                None
            },
        }
    }

    /// An operator on a text object, which becomes the last change.
    #[verifier::opaque]
    pub open spec fn take_object(self, kind: char, target: char) -> EdV {
        match self.pending.operator {
            Some(op) => match self.object(kind, target) {
                Some((a, b)) => {
                    let s = self.op_object(op, a, b);
                    s.remember(
                        op,
                        ChangeMotionV::TextObject { kind, target },
                        1,
                        s.pending.register,
                    )
                },
                None => self,
            },
            None => self,
        }
    }

    #[verifier::opaque]
    pub open spec fn object_keys(self, key: Seq<char>) -> Option<(EdV, ActionV)> {
        match self.pending.text_object {
            Some(kind) => {
                let s = self.with_pending(Pending { text_object: None, ..self.pending });
                Some(
                    typing::quiet(
                        (match strs::head(key) {
                            Some(c) => s.take_object(kind, c),
                            None => s,
                        }).clear_pending(),
                    ),
                )
            },
            None => None,
        }
    }

    /// The register's name after a quote: a single character, whatever else it
    /// does. Other keys do what they do without the quote.
    #[verifier::opaque]
    pub open spec fn register_keys(self, key: Seq<char>) -> Option<(EdV, ActionV)> {
        match strs::sole(key) {
            Some(c) if self.pending.register_prefix => Some(
                typing::quiet(
                    if register_name(c) {
                        self.with_pending(
                            Pending { register_prefix: false, register: Some(c), ..self.pending },
                        )
                    } else {
                        self.clear_pending()
                    },
                ),
            ),
            _ => None,
        }
    }

    /// A quote that no register's name followed is forgotten.
    pub open spec fn unquoted(self) -> EdV {
        self.with_pending(Pending { register_prefix: false, ..self.pending })
    }

    #[verifier::opaque]
    pub open spec fn escape_keys(self, key: Seq<char>) -> Option<(EdV, ActionV)> {
        if key == "ESC"@ {
            Some(typing::quiet(self.clear_pending()))
        } else {
            None
        }
    }

    // ── Counts, `g`, operators ──────────────────────────────────────────

    #[verifier::opaque]
    pub open spec fn count_keys(self, key: Seq<char>) -> Option<(EdV, ActionV)> {
        let p = self.pending;
        match strs::head(key) {
            Some(c) if chars::is_digit(c) => {
                let d = strs::digit_value(c);
                if p.operator is None {
                    if d != 0 || p.count1 is Some {
                        Some(
                            typing::quiet(
                                self.with_pending(
                                    Pending { count1: count_digit(p.count1, d), ..p },
                                ),
                            ),
                        )
                    } else {
                        None
                    }
                } else if d != 0 || p.count2 is Some {
                    Some(
                        typing::quiet(
                            self.with_pending(Pending { count2: count_digit(p.count2, d), ..p }),
                        ),
                    )
                } else {
                    None
                }
            },
            _ => None,
        }
    }

    /// `gg`: to a line, or an operator up to it.
    #[verifier::opaque]
    pub open spec fn go_to_line(self) -> EdV {
        let k = self.top_target();
        (match self.pending.operator {
            Some(op) => self.op_top().remember(
                op,
                ChangeMotionV::Key("gg"@),
                state::or_one(self.pending.count1),
                self.pending.register,
            ),
            None => self.goto(
                lines::line_off(self.buf.text, k) + items::item_col(self.line_text(k)),
            ),
        }).clear_pending()
    }

    #[verifier::opaque]
    pub open spec fn g_keys(self, key: Seq<char>) -> Option<(EdV, ActionV)> {
        let p = self.pending;
        if p.g_prefix && key == "?"@ {
            Some((self.clear_pending(), ActionV::Shell(ShellCommand::Help, Seq::empty())))
        } else if p.g_prefix {
            let s = self.with_pending(Pending { g_prefix: false, ..p });
            Some(
                typing::quiet(
                    if key == "g"@ {
                        s.go_to_line()
                    } else if key == "q"@ {
                        s.with_pending(
                            Pending { g_prefix: false, operator: Some('Q'), ..p },
                        )
                    } else if key == "DOWN"@ || key == "j"@ {
                        s.clear_pending().present(true)
                    } else if key == "UP"@ || key == "k"@ {
                        s.clear_pending().present(false)
                    } else {
                        s.clear_pending()
                    },
                ),
            )
        } else if key == "g"@ {
            Some(typing::quiet(self.with_pending(Pending { g_prefix: true, ..p })))
        } else {
            None
        }
    }

    /// A doubled operator: on as many lines as the count says.
    #[verifier::opaque]
    pub open spec fn op_doubled(self, op: char, register: Option<char>) -> EdV {
        let n = match self.pending.count1 {
            Some(n) => n as int,
            None => 1,
        };
        let extra = state::minus(n, 1);
        self.op_linewise(self.line, extra).remember(
            op,
            ChangeMotionV::Linewise { extra },
            n,
            register,
        ).clear_pending()
    }

    #[verifier::opaque]
    pub open spec fn op_keys(self, key: Seq<char>) -> Option<(EdV, ActionV)> {
        let p = self.pending;
        if key == "q"@ && p.operator == Some('Q') {
            Some(typing::quiet(self.op_doubled('Q', None)))
        } else if is_operator(key) {
            match strs::head(key) {
                Some(op) => Some(
                    typing::quiet(
                        if p.operator == Some(op) {
                            self.op_doubled(op, p.register)
                        } else {
                            self.with_pending(Pending { operator: Some(op), ..p })
                        },
                    ),
                ),
                None => None,
            }
        } else if (key == "i"@ || key == "a"@) && p.operator is Some {
            Some(
                typing::quiet(
                    self.with_pending(Pending { text_object: strs::head(key), ..p }),
                ),
            )
        } else {
            None
        }
    }

    // ── Visual mode, `f` and its like, `.`, registers, presentation ─────

    #[verifier::opaque]
    pub open spec fn prefix_keys(self, key: Seq<char>) -> Option<(EdV, ActionV)> {
        let p = self.pending;
        if p.operator is None && key == "v"@ {
            Some(typing::quiet(self.enter_visual(Mode::Visual)))
        } else if p.operator is None && key == "V"@ {
            Some(typing::quiet(self.enter_visual(Mode::VisualLine)))
        } else if p.operator is None && key == "C-V"@ {
            Some(typing::quiet(self.enter_visual(Mode::VisualBlock)))
        } else if wants_char(key) {
            Some(
                typing::quiet(
                    self.with_pending(Pending { awaiting_char: strs::head(key), ..p }),
                ),
            )
        } else if key == "."@ && p.operator is None {
            Some(typing::quiet(self.repeat_change().clear_pending()))
        } else if key == "\""@ {
            Some(typing::quiet(self.with_pending(Pending { register_prefix: true, ..p })))
        } else if self.options.presentation && p.operator is None && key == "UP"@ {
            Some(typing::quiet(self.clear_pending().present(false)))
        } else if self.options.presentation && p.operator is None && key == "DOWN"@ {
            Some(typing::quiet(self.clear_pending().present(true)))
        } else {
            None
        }
    }

    // ── Motions ─────────────────────────────────────────────────────────

    /// The motion of an operator as the last change keeps it: the number of
    /// lines when the operator works on whole ones, else the key. `G` without
    /// a count leads where Ctrl-End does.
    pub open spec fn kept_motion(self, op: char, key: Seq<char>, b: int) -> ChangeMotionV {
        let l1 = self.line_near(self.cursor());
        let l2 = self.line_near(b);
        if repeat::whole_lines(op) {
            ChangeMotionV::Linewise { extra: state::max(l1, l2) - state::min(l1, l2) }
        } else if key == "G"@ && self.pending.count1 is None {
            ChangeMotionV::Key("C-END"@)
        } else {
            ChangeMotionV::Key(key)
        }
    }

    /// Where a motion leads: an operator works up to it, else the cursor goes
    /// there. A jump leaves the mark of the previous place.
    #[verifier::opaque]
    pub open spec fn move_to(self, key: Seq<char>, b: int) -> EdV {
        (match self.pending.operator {
            Some(op) => self.op_move(op, key, b).remember(
                op,
                self.kept_motion(op, key, b),
                state::count_of(self.pending),
                self.pending.register,
            ),
            None => (if keys::jumps(key) {
                self.set_mark('\'')
            } else {
                self
            }).goto(b),
        }).clear_pending()
    }

    /// A key in Normal mode.
    #[verifier::opaque]
    pub open spec fn normal_key(self, key: Seq<char>) -> (EdV, ActionV) {
        let q = EdV { status: None, ..self };
        let s = q.unquoted();
        if let Some(r) = q.register_keys(key) {
            r
        } else if let Some(r) = s.macro_keys(key) {
            r
        } else if let Some(r) = s.char_keys(key) {
            r
        } else if let Some(r) = s.mark_keys(key) {
            r
        } else if let Some(r) = s.z_keys(key) {
            r
        } else if let Some(r) = s.leader_keys(key) {
            r
        } else if key == "\\"@ && s.idle() {
            typing::quiet(s.with_prefixes(Prefixes { leader: true, ..s.prefixes }))
        } else if let Some(r) = s.fold_keys(key) {
            r
        } else {
            s.normal_command(key)
        }
    }

    /// A key in Normal mode that is part of a command.
    #[verifier::opaque]
    pub open spec fn normal_command(self, key: Seq<char>) -> (EdV, ActionV) {
        if let Some(r) = self.bracket_keys(key) {
            r
        } else if let Some(r) = self.object_keys(key) {
            r
        } else if let Some(r) = self.escape_keys(key) {
            r
        } else if let Some(r) = self.count_keys(key) {
            r
        } else if let Some(r) = self.g_keys(key) {
            r
        } else if let Some(r) = self.op_keys(key) {
            r
        } else if let Some(r) = self.prefix_keys(key) {
            r
        } else {
            match self.motion(key, state::count_of(self.pending)) {
                Some(b) => typing::quiet(self.move_to(key, b)),
                None => {
                    let (s, a) = self.normal_action(key, state::count_of(self.pending));
                    (s.clear_pending(), a)
                },
            }
        }
    }
}

/// The cursor stands on a character of its line, or at the head of an empty
/// one.
pub open spec fn stands(s: EdV) -> bool {
    &&& 0 <= s.line < s.line_count()
    &&& text::bd(s.line_text(s.line), s.col)
    &&& s.col <= s.col_cap(s.line)
}

/// A mark leads back to the exact place where it was set, as long as the text
/// is the same.
pub proof fn law_mark_leads_back(s: EdV, r: EdV, c: char)
    requires
        stands(s),
        s.mode is Normal,
        chars::is_ascii_alpha(c),
        r.marks == s.name_mark(seq![c]).marks,
        r.buf.text == s.buf.text,
        r.mode is Normal,
        r.pending.operator is None,
        r.prefixes.mark_exact,
    ensures
        r.jump_mark(seq![c]).line == s.line,
        r.jump_mark(seq![c]).col == s.col,
        r.jump_mark(seq![c]).buf == r.buf,
{
    reveal(EdV::name_mark);
    reveal(EdV::jump_mark);
    reveal(EdV::go_to_mark);
    let t = s.buf.text;
    let k = s.line;
    let l = s.line_text(k);
    let b = s.cursor();
    assert(r.marks.contains_key(c) && r.marks[c] == b);
    lines::lemma_line_col(t, k, s.col);
    lines::lemma_line_raw(t, k);
    let j = text::at(l, s.col);
    let i = lines::line_start(t, k) + j;
    assert(text::at(t, b) == i);
    text::lemma_at(l, s.col);
    text::lemma_off_mono(l, 0, l.len() as int);
    lines::lemma_line_start(t, k);
    lines::lemma_line_start(t, k + 1);
    lines::lemma_line_start_mono(t, k, k + 1);
    if k + 1 < lines::line_count(t) {
        assert(i < lines::line_start(t, k + 1));
    }
    lines::lemma_on_line(t, k, i);
    text::lemma_off_mono(t, 0, lines::line_start(t, k));
    text::lemma_off_mono(t, i, t.len() as int);
}

impl Editor {
    fn idle(&self) -> (r: bool)
        ensures
            r == self@.idle(),
    {
        self.pending.operator.is_none() && self.pending.count1.is_none()
            && self.pending.text_object.is_none()
    }

    pub(crate) fn clear_pending(&mut self)
        requires
            old(self).wf(),
        ensures
            final(self)@ == old(self)@.clear_pending(),
            final(self).wf(),
    {
        self.pending = Pending::none();
    }

    fn start_recording(&mut self, key: &str)
        requires
            old(self).wf(),
        ensures
            final(self)@ == old(self)@.start_recording(key@),
            final(self).wf(),
    {
        proof {
            reveal(EdV::start_recording);
        }
        self.set_prefixes(Prefixes { record: false, ..self.prefixes });
        if let Some(c) = first_char(key) {
            if ascii_alnum(c) {
                self.recording_buf = String::new();
                self.recording = Some(c);
                self.set_status(&cat2(" recording @", &one(c)), 178);
            }
        }
    }

    fn start_playing(&mut self, key: &str)
        requires
            old(self).wf(),
        ensures
            final(self)@ == old(self)@.start_playing(key@),
            final(self).wf(),
    {
        proof {
            reveal(EdV::start_playing);
        }
        self.set_prefixes(Prefixes { play: false, ..self.prefixes });
        if same(key, "@") {
            if let Some(r) = self.last_macro {
                self.replay_macro(r);
            }
        } else if let Some(c) = first_char(key) {
            if ascii_alnum(c) {
                self.replay_macro(c);
            }
        }
    }

    fn record_key(&mut self)
        requires
            old(self).wf(),
        ensures
            final(self)@ == old(self)@.record_key(),
            final(self).wf(),
    {
        proof {
            reveal(EdV::record_key);
        }
        match self.recording {
            Some(r) => {
                let mut t: String = String::new();
                std::mem::swap(&mut t, &mut self.recording_buf);
                self.recording = None;
                let n: usize = byte_len(&t);
                self.regs.put(r, Yank { text: t, kind: YankKind::Charwise });
                let a: String = cat3(" recorded @", &one(r), " (");
                self.set_status(&cat3(&a, &dec(n as u128), " bytes)"), 244);
            },
            None => {
                self.set_prefixes(Prefixes { record: true, ..self.prefixes });
            },
        }
    }

    fn macro_keys(&mut self, key: &str) -> (r: Option<Action>)
        requires
            old(self).wf(),
        ensures
            typing::did(r, final(self)@, old(self)@, old(self)@.macro_keys(key@)),
            final(self).wf(),
    {
        proof {
            reveal(EdV::macro_keys);
        }
        if same(key, "C-Y") && self.pending.operator.is_none() {
            self.clear_pending();
            let last: usize = self.buf.line_count() - 1;
            self.execute_op_linewise_yank(0, last);
        } else if self.prefixes.record {
            self.start_recording(key);
        } else if self.prefixes.play {
            self.start_playing(key);
        } else if same(key, "M") && self.idle() && !self.prefixes.z {
            self.record_key();
        } else if same(key, "@") && self.idle() {
            self.set_prefixes(Prefixes { play: true, ..self.prefixes });
        } else {
            return None;
        }
        Some(Action::Nothing)
    }

    fn take_found(&mut self, op: char, how: char, c: char)
        requires
            old(self).wf(),
        ensures
            final(self)@ == old(self)@.take_found(op, how, c),
            final(self).wf(),
    {
        proof {
            reveal(EdV::take_found);
        }
        let n: usize = self.pending.count();
        let register: Option<char> = self.pending.register;
        if let Some(b) = self.find_bound(how, c, n) {
            self.op_to_byte(op, b);
            self.remember(op, ChangeMotion::Find { how, target: c }, n, register);
        }
    }

    fn with_char(&mut self, op: char, c: char)
        requires
            old(self).wf(),
        ensures
            final(self)@ == old(self)@.with_char(op, c),
            final(self).wf(),
    {
        if op != 'r' {
            if let Some(o) = self.pending.operator {
                self.take_found(o, op, c);
                return;
            }
        }
        let n: usize = self.pending.count();
        if op == 'r' {
            self.do_replace_char(c);
        } else if op == 'f' {
            self.do_find_forward(c, false, n);
        } else if op == 'F' {
            self.do_find_backward(c, false, n);
        } else if op == 't' {
            self.do_find_forward(c, true, n);
        } else if op == 'T' {
            self.do_find_backward(c, true, n);
        }
    }

    pub(crate) fn char_keys(&mut self, key: &str) -> (r: Option<Action>)
        requires
            old(self).wf(),
        ensures
            typing::did(r, final(self)@, old(self)@, old(self)@.char_keys(key@)),
            final(self).wf(),
    {
        proof {
            reveal(EdV::char_keys);
        }
        match self.pending.awaiting_char {
            None => None,
            Some(op) => {
                if escape_key(key) {
                    self.clear_pending();
                    return Some(Action::Nothing);
                }
                if let Some(c) = key_to_literal_char(key) {
                    self.set_pending(Pending { awaiting_char: None, ..self.pending });
                    self.with_char(op, c);
                }
                self.clear_pending();
                Some(Action::Nothing)
            },
        }
    }

    fn name_mark(&mut self, key: &str)
        requires
            old(self).wf(),
        ensures
            final(self)@ == old(self)@.name_mark(key@),
            final(self).wf(),
    {
        proof {
            reveal(EdV::name_mark);
        }
        self.set_prefixes(Prefixes { mark_set: false, ..self.prefixes });
        if let Some(c) = first_char(key) {
            if ascii_alpha(c) {
                self.set_mark(c);
                self.set_status(&cat3(" mark '", &one(c), " set"), 244);
            }
        }
    }

    fn take_mark(&mut self, op: char, name: char, b: usize, exact: bool)
        requires
            old(self).wf(),
        ensures
            final(self)@ == old(self)@.take_mark(op, name, b as int, exact),
            final(self).wf(),
    {
        proof {
            reveal(EdV::take_mark);
        }
        let n: usize = self.pending.count();
        let register: Option<char> = self.pending.register;
        self.op_to_mark(op, b, exact);
        self.remember(op, ChangeMotion::Mark { name, exact }, n, register);
        self.clear_pending();
    }

    fn go_to_mark(&mut self, b: usize, exact: bool, previous: bool)
        requires
            old(self).wf(),
        ensures
            final(self)@ == old(self)@.go_to_mark(b as int, exact, previous),
            final(self).wf(),
    {
        proof {
            reveal(EdV::go_to_mark);
        }
        let c: usize = self.cursor_byte();
        self.cursor_to_byte(b);
        if !exact {
            let o: usize = motion::line_first_nonblank(&self.buf, self.cursor_byte());
            self.cursor_to_byte(o);
        }
        if previous {
            self.marks.set('\'', c);
        }
    }

    fn jump_mark(&mut self, key: &str)
        requires
            old(self).wf(),
        ensures
            final(self)@ == old(self)@.jump_mark(key@),
            final(self).wf(),
    {
        proof {
            reveal(EdV::jump_mark);
        }
        let exact: bool = self.prefixes.mark_exact;
        self.set_prefixes(Prefixes { mark_jump: false, mark_exact: false, ..self.prefixes });
        if let Some(c) = first_char(key) {
            let previous: bool = c == '\'' || c == '`';
            if previous || ascii_alpha(c) {
                let name: char = if previous {
                    '\''
                } else {
                    c
                };
                match self.marks.get(name) {
                    None => {
                        self.set_status(&cat3(" mark '", &one(c), " not set"), 196);
                        self.clear_pending();
                    },
                    Some(b) => match self.pending.operator {
                        Some(op) => {
                            self.take_mark(op, name, b, exact);
                        },
                        None => {
                            self.go_to_mark(b, exact, previous);
                        },
                    },
                }
            }
        }
    }

    fn mark_keys(&mut self, key: &str) -> (r: Option<Action>)
        requires
            old(self).wf(),
        ensures
            typing::did(r, final(self)@, old(self)@, old(self)@.mark_keys(key@)),
            final(self).wf(),
    {
        proof {
            reveal(EdV::mark_keys);
        }
        let p: Prefixes = self.prefixes;
        if p.mark_set {
            self.name_mark(key);
        } else if p.mark_jump {
            self.jump_mark(key);
        } else if same(key, "m") && self.idle() {
            self.set_prefixes(Prefixes { mark_set: true, ..p });
        } else if (same(key, "'") || same(key, "`")) && self.pending.count1.is_none()
            && self.pending.text_object.is_none() {
            self.set_prefixes(Prefixes { mark_jump: true, mark_exact: same(key, "`"), ..p });
        } else {
            return None;
        }
        Some(Action::Nothing)
    }

    fn z_key(&mut self, key: &str) -> (act: Action)
        requires
            old(self).wf(),
        ensures
            typing::gave(final(self)@, act@, old(self)@.z_key(key@)),
            final(self).wf(),
    {
        proof {
            reveal(EdV::z_key);
        }
        if same(key, "=") {
            return self.spell_suggest_at_cursor();
        } else if same(key, "g") {
            return match self.word_at_cursor() {
                Some(w) => Action::AddWord(w),
                None => Action::Nothing,
            };
        } else if same(key, "r") {
            self.toggle_reading();
            return Action::Relayout;
        } else if same(key, "z") || same(key, "q") {
            return Action::SaveQuit;
        } else if same(key, "n") {
            self.jump_next_misspelling();
        } else if same(key, "p") {
            self.jump_prev_misspelling();
        } else if same(key, "s") {
            self.showhide_word(true);
        } else if same(key, "h") {
            self.showhide_word(false);
        } else if same(key, "0") {
            self.showhide_clear();
        } else {
            self.z_fold(key);
        }
        Action::Nothing
    }

    fn z_fold(&mut self, key: &str)
        requires
            old(self).wf(),
        ensures
            final(self)@ == old(self)@.z_fold(key@),
            final(self).wf(),
    {
        proof {
            reveal(EdV::z_fold);
        }
        if same(key, "o") {
            self.folds.open(self.cur_line);
        } else if same(key, "c") {
            self.close_fold();
        } else if same(key, "a") {
            self.toggle_fold();
        } else if same(key, "R") {
            self.unfold_all();
        } else if same(key, "M") {
            self.fold_to(0);
        }
    }

    fn close_fold(&mut self)
        requires
            old(self).wf(),
        ensures
            final(self)@ == old(self)@.close_fold(),
            final(self).wf(),
    {
        proof {
            reveal(EdV::close_fold);
        }
        let all: Vec<String> = self.all_lines();
        let k: usize = self.cur_line;
        if is_foldable(k, &all) {
            self.folds.close(k, &all);
        } else if let Some(p) = find_parent(k, &all) {
            self.folds.close(p, &all);
            self.put_on_item(p);
        }
    }

    fn z_keys(&mut self, key: &str) -> (r: Option<Action>)
        requires
            old(self).wf(),
        ensures
            typing::did(r, final(self)@, old(self)@, old(self)@.z_keys(key@)),
            final(self).wf(),
    {
        proof {
            reveal(EdV::z_keys);
        }
        if self.prefixes.z {
            self.set_prefixes(Prefixes { z: false, ..self.prefixes });
            Some(self.z_key(key))
        } else if same(key, "z") && self.pending.operator.is_none()
            && self.pending.count1.is_none() {
            self.set_prefixes(Prefixes { z: true, ..self.prefixes });
            Some(Action::Nothing)
        } else {
            None
        }
    }

    fn toggle_fold(&mut self)
        requires
            old(self).wf(),
        ensures
            final(self)@ == old(self)@.toggle_fold(),
            final(self).wf(),
    {
        proof {
            reveal(EdV::toggle_fold);
        }
        let all: Vec<String> = self.all_lines();
        let k: usize = self.cur_line;
        let leaf: bool = !is_foldable(k, &all) && self.folds.closed_folds_containing(k, &all).len()
            == 0;
        self.folds.toggle_at(k, &all);
        if leaf {
            if let Some(p) = find_parent(k, &all) {
                self.put_on_item(p);
            }
        }
    }

    fn fold_keys(&mut self, key: &str) -> (r: Option<Action>)
        requires
            old(self).wf(),
        ensures
            typing::did(r, final(self)@, old(self)@, old(self)@.fold_keys(key@)),
            final(self).wf(),
    {
        proof {
            reveal(EdV::fold_keys);
        }
        let k: usize = self.cur_line;
        if same(key, " ") && self.idle() {
            self.toggle_fold();
            return Some(Action::Nothing);
        }
        if same(key, "C-SPACE") && self.idle() {
            let all: Vec<String> = self.all_lines();
            self.folds.toggle_recursive_at(k, &all);
            return Some(Action::Nothing);
        }
        let all: Vec<String> = self.all_lines();
        if (same(key, "LEFT") || same(key, "RIGHT")) && self.is_hyperlist() && self.idle()
            && is_foldable(k, &all) {
            let closed: bool = self.folds.is_closed(k);
            if same(key, "RIGHT") && closed {
                self.folds.open(k);
                return Some(Action::Nothing);
            }
            if same(key, "LEFT") && !closed {
                self.folds.close(k, &all);
                return Some(Action::Nothing);
            }
        }
        None
    }

    fn bracket_keys(&mut self, key: &str) -> (r: Option<Action>)
        requires
            old(self).wf(),
        ensures
            typing::did(r, final(self)@, old(self)@, old(self)@.bracket_keys(key@)),
            final(self).wf(),
    {
        proof {
            reveal(EdV::bracket_keys);
        }
        let p: Prefixes = self.prefixes;
        match p.bracket {
            Some(b) => {
                self.set_prefixes(Prefixes { bracket: None, ..p });
                if b == ']' && same(key, "s") {
                    self.jump_next_misspelling();
                } else if b == '[' && same(key, "s") {
                    self.jump_prev_misspelling();
                }
                Some(Action::Nothing)
            },
            None => {
                if same(key, "]") && self.idle() {
                    self.set_prefixes(Prefixes { bracket: Some(']'), ..p });
                    Some(Action::Nothing)
                } else if same(key, "[") && self.idle() {
                    self.set_prefixes(Prefixes { bracket: Some('['), ..p });
                    Some(Action::Nothing)
                } else {
                    None
                }
            },
        }
    }

    fn take_object(&mut self, kind: char, target: char)
        requires
            old(self).wf(),
        ensures
            final(self)@ == old(self)@.take_object(kind, target),
            final(self).wf(),
    {
        proof {
            reveal(EdV::take_object);
        }
        if let Some(op) = self.pending.operator {
            if let Some((a, b)) = self.text_object(kind, target) {
                self.op_on_object(op, a, b);
                let register: Option<char> = self.pending.register;
                self.remember(op, ChangeMotion::TextObject { kind, target }, 1, register);
            }
        }
    }

    fn object_keys(&mut self, key: &str) -> (r: Option<Action>)
        requires
            old(self).wf(),
        ensures
            typing::did(r, final(self)@, old(self)@, old(self)@.object_keys(key@)),
            final(self).wf(),
    {
        proof {
            reveal(EdV::object_keys);
        }
        match self.pending.text_object {
            Some(kind) => {
                self.set_pending(Pending { text_object: None, ..self.pending });
                if let Some(c) = first_char(key) {
                    self.take_object(kind, c);
                }
                self.clear_pending();
                Some(Action::Nothing)
            },
            None => None,
        }
    }

    fn register_keys(&mut self, key: &str) -> (r: Option<Action>)
        requires
            old(self).wf(),
        ensures
            typing::did(r, final(self)@, old(self)@, old(self)@.register_keys(key@)),
            final(self).wf(),
    {
        proof {
            reveal(EdV::register_keys);
        }
        if self.pending.register_prefix {
            if let Some(c) = sole_char(key) {
                if names_register(c) {
                    self.set_pending(
                        Pending { register_prefix: false, register: Some(c), ..self.pending },
                    );
                } else {
                    self.clear_pending();
                }
                return Some(Action::Nothing);
            }
        }
        None
    }

    fn escape_keys(&mut self, key: &str) -> (r: Option<Action>)
        requires
            old(self).wf(),
        ensures
            typing::did(r, final(self)@, old(self)@, old(self)@.escape_keys(key@)),
            final(self).wf(),
    {
        proof {
            reveal(EdV::escape_keys);
        }
        if same(key, "ESC") {
            self.clear_pending();
            return Some(Action::Nothing);
        }
        None
    }

    pub(crate) fn count_keys(&mut self, key: &str) -> (r: Option<Action>)
        requires
            old(self).wf(),
        ensures
            typing::did(r, final(self)@, old(self)@, old(self)@.count_keys(key@)),
            final(self).wf(),
    {
        proof {
            reveal(EdV::count_keys);
        }
        let p: Pending = self.pending;
        if let Some(c) = first_char(key) {
            if ascii_digit(c) {
                let d: usize = (c as u32 - '0' as u32) as usize;
                if p.operator.is_none() {
                    if d != 0 || p.count1.is_some() {
                        self.set_pending(Pending { count1: add_digit(p.count1, d), ..p });
                        return Some(Action::Nothing);
                    }
                } else if d != 0 || p.count2.is_some() {
                    self.set_pending(Pending { count2: add_digit(p.count2, d), ..p });
                    return Some(Action::Nothing);
                }
            }
        }
        None
    }

    fn go_to_line(&mut self)
        requires
            old(self).wf(),
        ensures
            final(self)@ == old(self)@.go_to_line(),
            final(self).wf(),
    {
        proof {
            reveal(EdV::go_to_line);
        }
        let k: usize = self.top_target();
        if let Some(op) = self.pending.operator {
            let n: usize = match self.pending.count1 {
                Some(n) => n,
                None => 1,
            };
            let register: Option<char> = self.pending.register;
            self.op_to_top();
            self.remember(op, ChangeMotion::Key("gg".to_owned()), n, register);
        } else {
            let c: usize = item_column(&self.buf.line(k));
            let total: usize = self.buf.len_bytes();
            proof {
                lines::lemma_line_raw(self@.buf.text, k as int);
            }
            let o: usize = self.buf.line_byte_offset(k) + c;
            self.cursor_to_byte(o);
        }
        self.clear_pending();
    }

    fn g_keys(&mut self, key: &str) -> (r: Option<Action>)
        requires
            old(self).wf(),
        ensures
            typing::did(r, final(self)@, old(self)@, old(self)@.g_keys(key@)),
            final(self).wf(),
    {
        proof {
            reveal(EdV::g_keys);
        }
        let p: Pending = self.pending;
        if p.g_prefix && same(key, "?") {
            self.clear_pending();
            let none: String = String::new();
            assert(none@ =~= Seq::<char>::empty());
            return Some(Action::Shell(ShellCommand::Help, none));
        }
        if p.g_prefix {
            self.set_pending(Pending { g_prefix: false, ..p });
            if same(key, "g") {
                self.go_to_line();
            } else if same(key, "q") {
                self.set_pending(Pending { g_prefix: false, operator: Some('Q'), ..p });
            } else if same(key, "DOWN") || same(key, "j") {
                self.clear_pending();
                self.presentation_step(true);
            } else if same(key, "UP") || same(key, "k") {
                self.clear_pending();
                self.presentation_step(false);
            } else {
                self.clear_pending();
            }
            return Some(Action::Nothing);
        }
        if same(key, "g") {
            self.set_pending(Pending { g_prefix: true, ..p });
            return Some(Action::Nothing);
        }
        None
    }

    fn op_doubled(&mut self, op: char, register: Option<char>)
        requires
            old(self).wf(),
        ensures
            final(self)@ == old(self)@.op_doubled(op, register),
            final(self).wf(),
    {
        proof {
            reveal(EdV::op_doubled);
        }
        let n: usize = match self.pending.count1 {
            Some(n) => n,
            None => 1,
        };
        let extra: usize = if n > 0 {
            n - 1
        } else {
            0
        };
        self.execute_op_linewise(self.cur_line, extra);
        self.remember(op, ChangeMotion::Linewise { extra }, n, register);
        self.clear_pending();
    }

    fn op_keys(&mut self, key: &str) -> (r: Option<Action>)
        requires
            old(self).wf(),
        ensures
            typing::did(r, final(self)@, old(self)@, old(self)@.op_keys(key@)),
            final(self).wf(),
    {
        proof {
            reveal(EdV::op_keys);
        }
        let p: Pending = self.pending;
        if same(key, "q") && p.operator == Some('Q') {
            self.op_doubled('Q', None);
            return Some(Action::Nothing);
        }
        if operator_key(key) {
            return match first_char(key) {
                Some(op) => {
                    if p.operator == Some(op) {
                        self.op_doubled(op, p.register);
                    } else {
                        self.set_pending(Pending { operator: Some(op), ..p });
                    }
                    Some(Action::Nothing)
                },
                None => None,
            };
        }
        if (same(key, "i") || same(key, "a")) && p.operator.is_some() {
            self.set_pending(Pending { text_object: first_char(key), ..p });
            return Some(Action::Nothing);
        }
        None
    }

    fn prefix_keys(&mut self, key: &str) -> (r: Option<Action>)
        requires
            old(self).wf(),
        ensures
            typing::did(r, final(self)@, old(self)@, old(self)@.prefix_keys(key@)),
            final(self).wf(),
    {
        proof {
            reveal(EdV::prefix_keys);
        }
        let p: Pending = self.pending;
        let bare: bool = p.operator.is_none();
        if bare && same(key, "v") {
            self.enter_visual(Mode::Visual);
        } else if bare && same(key, "V") {
            self.enter_visual(Mode::VisualLine);
        } else if bare && same(key, "C-V") {
            self.enter_visual(Mode::VisualBlock);
        } else if char_key(key) {
            self.set_pending(Pending { awaiting_char: first_char(key), ..p });
        } else if same(key, ".") && bare {
            self.repeat_last_change();
            self.clear_pending();
        } else if same(key, "\"") {
            self.set_pending(Pending { register_prefix: true, ..p });
        } else if self.options.presentation && bare && same(key, "UP") {
            self.clear_pending();
            self.presentation_step(false);
        } else if self.options.presentation && bare && same(key, "DOWN") {
            self.clear_pending();
            self.presentation_step(true);
        } else {
            return None;
        }
        Some(Action::Nothing)
    }

    fn kept_motion(&self, op: char, key: &str, b: usize) -> (m: ChangeMotion)
        requires
            self.wf(),
        ensures
            m@ == self@.kept_motion(op, key@, b as int),
    {
        let l1: usize = self.line_of_byte(self.cursor_byte());
        let l2: usize = self.line_of_byte(b);
        if op == 'Q' || op == '>' || op == '<' {
            ChangeMotion::Linewise {
                extra: if l1 <= l2 {
                    l2 - l1
                } else {
                    l1 - l2
                },
            }
        } else if same(key, "G") && self.pending.count1.is_none() {
            ChangeMotion::Key("C-END".to_owned())
        } else {
            ChangeMotion::Key(key.to_owned())
        }
    }

    fn move_to(&mut self, key: &str, b: usize)
        requires
            old(self).wf(),
        ensures
            final(self)@ == old(self)@.move_to(key@, b as int),
            final(self).wf(),
    {
        proof {
            reveal(EdV::move_to);
        }
        match self.pending.operator {
            Some(op) => {
                let m: ChangeMotion = self.kept_motion(op, key, b);
                let n: usize = self.pending.count();
                let register: Option<char> = self.pending.register;
                self.op_to_move(op, key, b);
                self.remember(op, m, n, register);
            },
            None => {
                if is_jump_motion(key) {
                    self.set_mark('\'');
                }
                self.cursor_to_byte(b);
            },
        }
        self.clear_pending();
    }

    /// A key in Normal mode, past the key maps.
    pub fn handle_normal(&mut self, key: &str) -> (act: Action)
        requires
            old(self).wf(),
        ensures
            typing::gave(final(self)@, act@, old(self)@.normal_key(key@)),
            final(self).wf(),
    {
        proof {
            reveal(EdV::normal_key);
        }
        self.clear_status();
        if let Some(a) = self.register_keys(key) {
            return a;
        }
        self.set_pending(Pending { register_prefix: false, ..self.pending });
        if let Some(a) = self.macro_keys(key) {
            return a;
        }
        if let Some(a) = self.char_keys(key) {
            return a;
        }
        if let Some(a) = self.mark_keys(key) {
            return a;
        }
        if let Some(a) = self.z_keys(key) {
            return a;
        }
        if let Some(a) = self.leader_keys(key) {
            return a;
        }
        if same(key, "\\") && self.idle() {
            self.set_prefixes(Prefixes { leader: true, ..self.prefixes });
            return Action::Nothing;
        }
        if let Some(a) = self.fold_keys(key) {
            return a;
        }
        self.normal_command(key)
    }

    pub(crate) fn clear_status(&mut self)
        requires
            old(self).wf(),
        ensures
            final(self)@ == (EdV { status: None, ..old(self)@ }),
            final(self).wf(),
    {
        self.status = None;
    }

    fn normal_command(&mut self, key: &str) -> (act: Action)
        requires
            old(self).wf(),
        ensures
            typing::gave(final(self)@, act@, old(self)@.normal_command(key@)),
            final(self).wf(),
    {
        proof {
            reveal(EdV::normal_command);
        }
        if let Some(a) = self.bracket_keys(key) {
            return a;
        }
        if let Some(a) = self.object_keys(key) {
            return a;
        }
        if let Some(a) = self.escape_keys(key) {
            return a;
        }
        if let Some(a) = self.count_keys(key) {
            return a;
        }
        if let Some(a) = self.g_keys(key) {
            return a;
        }
        if let Some(a) = self.op_keys(key) {
            return a;
        }
        if let Some(a) = self.prefix_keys(key) {
            return a;
        }
        let n: usize = self.pending.count();
        match self.parse_motion(key, n) {
            Some(b) => {
                self.move_to(key, b);
                Action::Nothing
            },
            None => {
                let a: Action = self.handle_normal_action(key, n);
                self.clear_pending();
                a
            },
        }
    }
}

} // verus!
