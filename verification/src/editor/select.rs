//! The keys of the Visual modes.

use vstd::prelude::*;
use vstd::string::*;
use crate::editor::state;
use crate::editor::state::{Action, ActionV, Editor, EdV, Pending, Prefixes};
use crate::editor::normal;
use crate::editor::normal::names_register;
use crate::editor::typing;
use crate::editor::typing::escape_key;
use crate::editor::visual::CaseOp;
use crate::keys;
use crate::keys::key_to_literal_char;
use crate::lines;
use crate::mode::Mode;
use crate::strs;
use crate::strs::{first_char, sole_char};
use crate::text::same;

verus! {

impl EdV {
    /// The character that `r` waits for.
    #[verifier::opaque]
    pub open spec fn replace_selected(self, key: Seq<char>) -> EdV {
        let s = EdV { prefixes: Prefixes { visual_replace: false, ..self.prefixes }, ..self };
        if typing::is_escape(key) {
            s.to_normal()
        } else {
            match keys::literal(key) {
                Some(c) => s.visual_replace(c),
                None => s.to_normal(),
            }
        }
    }

    /// Keys that leave the mode or change it.
    #[verifier::opaque]
    pub open spec fn select_mode(self, key: Seq<char>) -> Option<(EdV, ActionV)> {
        let m = self.mode;
        if key == "ESC"@ || key == "C-["@ || m is Visual && key == "v"@ || m is VisualLine && key
            == "V"@ || m is VisualBlock && key == "C-V"@ {
            Some(typing::quiet(self.to_normal()))
        } else if m is Visual && key == "V"@ {
            Some(typing::quiet(EdV { mode: Mode::VisualLine, ..self }))
        } else if m is VisualLine && key == "v"@ {
            Some(typing::quiet(EdV { mode: Mode::Visual, ..self }))
        } else {
            None
        }
    }

    /// An operator that always works on whole lines, on those of the
    /// selection.
    #[verifier::opaque]
    pub open spec fn op_selected_lines(self, op: char) -> EdV {
        let s = EdV { pending: Pending { operator: Some(op), ..self.pending }, ..self };
        match self.mode {
            Mode::Visual => s.op_lines(self.cursor(), self.anchor).to_normal(),
            Mode::VisualBlock => s.op_linewise(
                self.top_line(),
                self.bottom_line() - self.top_line(),
            ).to_normal(),
            _ => self.visual_op(op),
        }
    }

    /// `g` and the key after it: `gq` fills the paragraphs of the selection,
    /// `gg` extends it to the first line, or to the line that a count names.
    #[verifier::opaque]
    pub open spec fn select_g(self, key: Seq<char>) -> Option<(EdV, ActionV)> {
        let p = self.pending;
        if p.g_prefix {
            let s = EdV { pending: Pending { g_prefix: false, ..p }, ..self };
            Some(
                typing::quiet(
                    if key == "q"@ {
                        s.op_selected_lines('Q')
                    } else if key == "g"@ {
                        s.extend_to(lines::line_off(s.buf.text, s.top_target())).clear_pending()
                    } else if typing::is_escape(key) {
                        s.to_normal()
                    } else {
                        s.clear_pending()
                    },
                ),
            )
        } else if key == "g"@ {
            Some(typing::quiet(EdV { pending: Pending { g_prefix: true, ..p }, ..self }))
        } else {
            None
        }
    }

    /// Keys that work on the selection.
    #[verifier::opaque]
    pub open spec fn select_op(self, key: Seq<char>) -> Option<(EdV, ActionV)> {
        if key == "d"@ || key == "x"@ || key == "X"@ || key == "D"@ {
            Some(typing::quiet(self.visual_op('d')))
        } else if key == "c"@ || key == "C"@ || key == "s"@ {
            Some(typing::quiet(self.visual_op('c')))
        } else if key == "r"@ {
            Some(
                typing::quiet(
                    EdV {
                        prefixes: Prefixes { visual_replace: true, ..self.prefixes },
                        ..self
                    },
                ),
            )
        } else if key == "y"@ || key == "Y"@ {
            Some(typing::quiet(self.visual_op('y')))
        } else if key == ">"@ {
            Some(typing::quiet(self.op_selected_lines('>')))
        } else if key == "<"@ {
            Some(typing::quiet(self.op_selected_lines('<')))
        } else if key == "~"@ {
            Some(typing::quiet(self.visual_case(CaseOp::Toggle)))
        } else if key == "u"@ {
            Some(typing::quiet(self.visual_case(CaseOp::Lower)))
        } else if key == "U"@ {
            Some(typing::quiet(self.visual_case(CaseOp::Upper)))
        } else if key == "p"@ {
            Some(typing::quiet(self.visual_op('d').put(true, 1)))
        } else if key == "P"@ {
            Some(typing::quiet(self.visual_op('d').put(false, 1)))
        } else if key == ":"@ {
            Some((self, ActionV::AskCommand))
        } else if key == "\""@ {
            Some(
                typing::quiet(
                    EdV { pending: Pending { register_prefix: true, ..self.pending }, ..self },
                ),
            )
        } else {
            None
        }
    }

    /// The register's name after a quote: a single character, whatever else it
    /// does.
    #[verifier::opaque]
    pub open spec fn select_register(self, key: Seq<char>) -> Option<(EdV, ActionV)> {
        let p = Pending { register_prefix: false, ..self.pending };
        match strs::sole(key) {
            Some(c) if self.pending.register_prefix => Some(
                typing::quiet(
                    EdV {
                        pending: if normal::register_name(c) {
                            Pending { register: Some(c), ..p }
                        } else {
                            p
                        },
                        ..self
                    },
                ),
            ),
            _ => None,
        }
    }

    /// `f`, `F`, `t` and `T`, and the character after them, to which the
    /// selection extends.
    #[verifier::opaque]
    pub open spec fn select_find(self, key: Seq<char>) -> Option<(EdV, ActionV)> {
        if self.pending.awaiting_char is Some {
            match self.char_keys(key) {
                Some((s, a)) => Some((s.pinned(), a)),
                None => None,
            }
        } else if key == "f"@ || key == "F"@ || key == "t"@ || key == "T"@ {
            Some(
                typing::quiet(
                    EdV {
                        pending: Pending { awaiting_char: strs::head(key), ..self.pending },
                        ..self
                    },
                ),
            )
        } else {
            None
        }
    }

    /// A block ends at the cursor's column.
    pub open spec fn pinned(self) -> EdV {
        if self.mode is VisualBlock {
            EdV { vb_cur: self.cursor_column(), ..self }
        } else {
            self
        }
    }

    /// Keys that move a corner of a block by columns and lines.
    #[verifier::opaque]
    pub open spec fn block_keys(self, key: Seq<char>) -> Option<(EdV, ActionV)> {
        let n = state::count_of(self.pending);
        if !(self.mode is VisualBlock) {
            None
        } else if key == "h"@ || key == "LEFT"@ {
            Some(
                typing::quiet(
                    EdV {
                        vb_cur: state::minus(self.vb_cur, n),
                        ..self
                    }.sync_block().clear_pending(),
                ),
            )
        } else if key == "l"@ || key == "RIGHT"@ {
            Some(
                typing::quiet(
                    EdV {
                        vb_cur: state::plus(self.vb_cur, n),
                        ..self
                    }.sync_block().clear_pending(),
                ),
            )
        } else if key == "j"@ || key == "DOWN"@ {
            Some(
                typing::quiet(
                    EdV {
                        line: state::min(state::plus(self.line, n), self.last_line()),
                        ..self
                    }.sync_block().clear_pending(),
                ),
            )
        } else if key == "k"@ || key == "UP"@ {
            Some(
                typing::quiet(
                    EdV {
                        line: state::minus(self.line, n),
                        ..self
                    }.sync_block().clear_pending(),
                ),
            )
        } else {
            None
        }
    }

    /// `h` and `l` go over the ends of lines, but in a block.
    pub open spec fn select_motion(self, key: Seq<char>) -> Seq<char> {
        if self.mode is Visual || self.mode is VisualLine {
            if key == "h"@ {
                "LEFT"@
            } else if key == "l"@ {
                "RIGHT"@
            } else {
                key
            }
        } else {
            key
        }
    }

    /// A motion extends the selection.
    #[verifier::opaque]
    pub open spec fn extend(self, key: Seq<char>) -> EdV {
        (match self.motion(self.select_motion(key), state::count_of(self.pending)) {
            Some(b) => self.extend_to(b),
            None => self,
        }).clear_pending()
    }

    /// The selection extended to byte `b`.
    #[verifier::opaque]
    pub open spec fn extend_to(self, b: int) -> EdV {
        self.goto(b).pinned()
    }

    /// A key in a Visual mode.
    #[verifier::opaque]
    pub open spec fn visual_key(self, key: Seq<char>) -> (EdV, ActionV) {
        let s = self.unquoted();
        if let Some(r) = self.select_register(key) {
            r
        } else if s.prefixes.visual_replace {
            typing::quiet(s.replace_selected(key))
        } else if let Some(r) = s.leader_keys(key) {
            r
        } else if let Some(r) = s.select_find(key) {
            r
        } else if let Some(r) = s.select_g(key) {
            r
        } else if let Some(r) = s.count_keys(key) {
            r
        } else if key == "\\"@ {
            typing::quiet(EdV { prefixes: Prefixes { leader: true, ..s.prefixes }, ..s })
        } else if let Some(r) = s.select_mode(key) {
            r
        } else if let Some(r) = s.select_op(key) {
            r
        } else if let Some(r) = s.block_keys(key) {
            r
        } else {
            typing::quiet(s.extend(key))
        }
    }
}

impl Editor {
    fn replace_selected(&mut self, key: &str)
        requires
            old(self).wf(),
        ensures
            final(self)@ == old(self)@.replace_selected(key@),
            final(self).wf(),
    {
        proof {
            reveal(EdV::replace_selected);
        }
        self.set_prefixes(Prefixes { visual_replace: false, ..self.prefixes });
        if escape_key(key) {
            self.to_normal();
            return;
        }
        match key_to_literal_char(key) {
            Some(c) => {
                self.apply_visual_replace(c);
            },
            None => {
                self.to_normal();
            },
        }
    }

    fn select_mode(&mut self, key: &str) -> (r: Option<Action>)
        requires
            old(self).wf(),
        ensures
            typing::did(r, final(self)@, old(self)@, old(self)@.select_mode(key@)),
            final(self).wf(),
    {
        proof {
            reveal(EdV::select_mode);
        }
        let chars: bool = matches!(self.mode, Mode::Visual);
        let lines: bool = matches!(self.mode, Mode::VisualLine);
        let block: bool = matches!(self.mode, Mode::VisualBlock);
        if same(key, "ESC") || same(key, "C-[") || chars && same(key, "v") || lines && same(
            key,
            "V",
        ) || block && same(key, "C-V") {
            self.to_normal();
        } else if chars && same(key, "V") {
            self.set_mode(Mode::VisualLine);
        } else if lines && same(key, "v") {
            self.set_mode(Mode::Visual);
        } else {
            return None;
        }
        Some(Action::Nothing)
    }

    fn op_selected_lines(&mut self, op: char)
        requires
            old(self).wf(),
        ensures
            final(self)@ == old(self)@.op_selected_lines(op),
            final(self).wf(),
    {
        proof {
            reveal(EdV::op_selected_lines);
        }
        match self.mode {
            Mode::Visual => {
                let c: usize = self.cursor_byte();
                self.set_pending(Pending { operator: Some(op), ..self.pending });
                self.op_on_lines(c, self.visual_anchor);
                self.to_normal();
            },
            Mode::VisualBlock => {
                let (l1, l2) = self.visual_lines();
                self.set_pending(Pending { operator: Some(op), ..self.pending });
                self.execute_op_linewise(l1, l2 - l1);
                self.to_normal();
            },
            _ => {
                self.apply_visual_op(op);
            },
        }
    }

    fn select_op(&mut self, key: &str) -> (r: Option<Action>)
        requires
            old(self).wf(),
        ensures
            typing::did(r, final(self)@, old(self)@, old(self)@.select_op(key@)),
            final(self).wf(),
    {
        proof {
            reveal(EdV::select_op);
        }
        if same(key, "d") || same(key, "x") || same(key, "X") || same(key, "D") {
            self.apply_visual_op('d');
        } else if same(key, "c") || same(key, "C") || same(key, "s") {
            self.apply_visual_op('c');
        } else if same(key, "r") {
            self.set_prefixes(Prefixes { visual_replace: true, ..self.prefixes });
        } else if same(key, "y") || same(key, "Y") {
            self.apply_visual_op('y');
        } else if same(key, ">") {
            self.op_selected_lines('>');
        } else if same(key, "<") {
            self.op_selected_lines('<');
        } else if same(key, "~") {
            self.apply_visual_case(CaseOp::Toggle);
        } else if same(key, "u") {
            self.apply_visual_case(CaseOp::Lower);
        } else if same(key, "U") {
            self.apply_visual_case(CaseOp::Upper);
        } else if same(key, "p") {
            self.apply_visual_op('d');
            self.do_paste(true, 1);
        } else if same(key, "P") {
            self.apply_visual_op('d');
            self.do_paste(false, 1);
        } else if same(key, ":") {
            return Some(Action::AskCommand);
        } else if same(key, "\"") {
            self.set_pending(Pending { register_prefix: true, ..self.pending });
        } else {
            return None;
        }
        Some(Action::Nothing)
    }

    fn select_register(&mut self, key: &str) -> (r: Option<Action>)
        requires
            old(self).wf(),
        ensures
            typing::did(r, final(self)@, old(self)@, old(self)@.select_register(key@)),
            final(self).wf(),
    {
        proof {
            reveal(EdV::select_register);
        }
        if !self.pending.register_prefix {
            return None;
        }
        let p: Pending = Pending { register_prefix: false, ..self.pending };
        match sole_char(key) {
            Some(c) => {
                if names_register(c) {
                    self.set_pending(Pending { register: Some(c), ..p });
                } else {
                    self.set_pending(p);
                }
                Some(Action::Nothing)
            },
            None => None,
        }
    }

    fn select_g(&mut self, key: &str) -> (r: Option<Action>)
        requires
            old(self).wf(),
        ensures
            typing::did(r, final(self)@, old(self)@, old(self)@.select_g(key@)),
            final(self).wf(),
    {
        proof {
            reveal(EdV::select_g);
        }
        let p: Pending = self.pending;
        if p.g_prefix {
            self.set_pending(Pending { g_prefix: false, ..p });
            if same(key, "q") {
                self.op_selected_lines('Q');
            } else if same(key, "g") {
                let o: usize = self.buf.line_byte_offset(self.top_target());
                self.extend_to(o);
                self.clear_pending();
            } else if escape_key(key) {
                self.to_normal();
            } else {
                self.clear_pending();
            }
            return Some(Action::Nothing);
        }
        if same(key, "g") {
            self.set_pending(Pending { g_prefix: true, ..p });
            return Some(Action::Nothing);
        }
        None
    }

    fn extend_to(&mut self, b: usize)
        requires
            old(self).wf(),
        ensures
            final(self)@ == old(self)@.extend_to(b as int),
            final(self).wf(),
    {
        proof {
            reveal(EdV::extend_to);
        }
        self.cursor_to_byte(b);
        self.pin();
    }

    fn pin(&mut self)
        requires
            old(self).wf(),
        ensures
            final(self)@ == old(self)@.pinned(),
            final(self).wf(),
    {
        match self.mode {
            Mode::VisualBlock => {
                self.vblock_cur_vcol = self.cursor_column();
            },
            _ => {},
        }
    }

    fn select_find(&mut self, key: &str) -> (r: Option<Action>)
        requires
            old(self).wf(),
        ensures
            typing::did(r, final(self)@, old(self)@, old(self)@.select_find(key@)),
            final(self).wf(),
    {
        proof {
            reveal(EdV::select_find);
        }
        if self.pending.awaiting_char.is_some() {
            return match self.char_keys(key) {
                Some(a) => {
                    self.pin();
                    Some(a)
                },
                None => None,
            };
        }
        if same(key, "f") || same(key, "F") || same(key, "t") || same(key, "T") {
            self.set_pending(Pending { awaiting_char: first_char(key), ..self.pending });
            return Some(Action::Nothing);
        }
        None
    }

    fn block_keys(&mut self, key: &str) -> (r: Option<Action>)
        requires
            old(self).wf(),
        ensures
            typing::did(r, final(self)@, old(self)@, old(self)@.block_keys(key@)),
            final(self).wf(),
    {
        proof {
            reveal(EdV::block_keys);
        }
        match self.mode {
            Mode::VisualBlock => {},
            _ => {
                return None;
            },
        }
        let n: usize = self.pending.count();
        if same(key, "h") || same(key, "LEFT") {
            self.vblock_cur_vcol = if self.vblock_cur_vcol > n {
                self.vblock_cur_vcol - n
            } else {
                0
            };
        } else if same(key, "l") || same(key, "RIGHT") {
            self.vblock_cur_vcol = self.vblock_cur_vcol.saturating_add(n);
        } else if same(key, "j") || same(key, "DOWN") {
            let last: usize = self.buf.line_count() - 1;
            let k: usize = self.cur_line.saturating_add(n);
            self.cur_line = if k < last {
                k
            } else {
                last
            };
        } else if same(key, "k") || same(key, "UP") {
            self.cur_line = if self.cur_line > n {
                self.cur_line - n
            } else {
                0
            };
        } else {
            return None;
        }
        self.sync_vblock_cursor();
        self.clear_pending();
        Some(Action::Nothing)
    }

    fn extend(&mut self, key: &str)
        requires
            old(self).wf(),
        ensures
            final(self)@ == old(self)@.extend(key@),
            final(self).wf(),
    {
        proof {
            reveal(EdV::extend);
        }
        let k: String = match self.mode {
            Mode::Visual | Mode::VisualLine => if same(key, "h") {
                "LEFT".to_owned()
            } else if same(key, "l") {
                "RIGHT".to_owned()
            } else {
                key.to_owned()
            },
            _ => key.to_owned(),
        };
        let n: usize = self.pending.count();
        if let Some(b) = self.parse_motion(&k, n) {
            self.extend_to(b);
        }
        self.clear_pending();
    }

    /// A key in a Visual mode, past the key maps.
    pub fn handle_visual(&mut self, key: &str) -> (act: Action)
        requires
            old(self).wf(),
        ensures
            typing::gave(final(self)@, act@, old(self)@.visual_key(key@)),
            final(self).wf(),
    {
        proof {
            reveal(EdV::visual_key);
        }
        if let Some(a) = self.select_register(key) {
            return a;
        }
        self.set_pending(Pending { register_prefix: false, ..self.pending });
        if self.prefixes.visual_replace {
            self.replace_selected(key);
            return Action::Nothing;
        }
        if let Some(a) = self.leader_keys(key) {
            return a;
        }
        if let Some(a) = self.select_find(key) {
            return a;
        }
        if let Some(a) = self.select_g(key) {
            return a;
        }
        if let Some(a) = self.count_keys(key) {
            return a;
        }
        if same(key, "\\") {
            self.set_prefixes(Prefixes { leader: true, ..self.prefixes });
            return Action::Nothing;
        }
        if let Some(a) = self.select_mode(key) {
            return a;
        }
        if let Some(a) = self.select_op(key) {
            return a;
        }
        if let Some(a) = self.block_keys(key) {
            return a;
        }
        self.extend(key);
        Action::Nothing
    }
}

} // verus!
