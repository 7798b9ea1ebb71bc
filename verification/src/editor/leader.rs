//! Commands behind the leader key `\`.

use vstd::prelude::*;
use vstd::string::*;
use crate::chars;
use crate::chars::ascii_digit;
use crate::editor::cursor;
use crate::editor::state;
use crate::editor::state::{Action, ActionV, Editor, EdV, Options, Pending, Prefixes};
use crate::editor::typing;
use crate::fold::FoldsV;
use crate::mode;
use crate::mode::Mode;
use crate::strs;
use crate::strs::{cat2, cat3, one, sole_char};
use crate::text::same;

verus! {

pub open spec fn choice(b: bool, x: Seq<char>, y: Seq<char>) -> Seq<char> {
    if b {
        x
    } else {
        y
    }
}

fn choose_text(b: bool, x: &'static str, y: &'static str) -> (s: &'static str)
    ensures
        s@ == choice(b, x@, y@),
{
    if b {
        x
    } else {
        y
    }
}

pub open spec fn underline_label(n: u8) -> Seq<char> {
    if n == 1 {
        " state items underlined"@
    } else if n == 2 {
        " transition items underlined"@
    } else {
        " underlining off"@
    }
}

impl EdV {
    pub open spec fn fold_to(self, n: int) -> EdV {
        EdV { folds: self.folds.at_level(n, self.all_lines()), ..self }
    }

    pub open spec fn unfold_all(self) -> EdV {
        EdV { folds: FoldsV::none(), ..self }
    }

    /// Byte range of the selection: whole lines when it is by lines.
    pub open spec fn selected_range(self) -> (int, int) {
        if self.mode is VisualLine {
            self.visual_line_range()
        } else {
            self.visual_range()
        }
    }

    /// Back to Normal mode with nothing pending.
    pub open spec fn to_normal(self) -> EdV {
        EdV { mode: Mode::Normal, ..self }.clear_pending()
    }

    /// Colours for the selection.
    #[verifier::opaque]
    pub open spec fn color_key(self) -> (EdV, ActionV) {
        let (lo, hi) = self.selected_range();
        if mode::visual(self.mode) {
            (self.to_normal(), ActionV::Color { lo, hi })
        } else {
            typing::quiet(self.say(" \\C — select text in Visual mode first"@, 244))
        }
    }

    /// A font for the selection.
    #[verifier::opaque]
    pub open spec fn font_key(self) -> (EdV, ActionV) {
        let (lo, hi) = self.selected_range();
        if mode::visual(self.mode) {
            (self.to_normal(), ActionV::Font { lo, hi })
        } else {
            typing::quiet(self.say(" \\F — select text in Visual mode first"@, 244))
        }
    }

    /// Leader keys that flip a switch.
    #[verifier::opaque]
    pub open spec fn leader_switch(self, key: Seq<char>) -> Option<(EdV, ActionV)> {
        let o = self.options;
        if key == "h"@ {
            Some(
                typing::quiet(
                    if o.reading {
                        EdV {
                            options: Options { paragraph_dim: !o.paragraph_dim, ..o },
                            ..self
                        }.say(
                            choice(!o.paragraph_dim, " highlight on"@, " highlight off"@),
                            244,
                        )
                    } else {
                        self.say(" \\h needs reading mode (`:read` or `zr`)"@, 244)
                    },
                ),
            )
        } else if key == "n"@ {
            Some(
                typing::quiet(
                    EdV { options: Options { autonumber: !o.autonumber, ..o }, ..self }.say(
                        choice(!o.autonumber, " autonumber on"@, " autonumber off"@),
                        244,
                    ),
                ),
            )
        } else if key == "u"@ {
            let u = ((o.underline + 1) % 3) as u8;
            Some(
                typing::quiet(
                    EdV { options: Options { underline: u, ..o }, ..self }.say(
                        underline_label(u),
                        244,
                    ),
                ),
            )
        } else if key == "p"@ {
            Some(
                typing::quiet(
                    EdV { options: Options { presentation: !o.presentation, ..o }, ..self }.say(
                        choice(!o.presentation, " presentation ON"@, " presentation off"@),
                        244,
                    ),
                ),
            )
        } else if key == "M"@ {
            let s = EdV { options: Options { conceal: !o.conceal, ..o }, ..self };
            Some(
                (
                    if o.conceal {
                        s.say(" markup shown (\\M)"@, 244)
                    } else {
                        s.say(" markup hidden (\\M) — reveals on the cursor line"@, 46)
                    },
                    ActionV::Redraw,
                ),
            )
        } else {
            None
        }
    }

    /// Leader keys that change or report on items.
    #[verifier::opaque]
    pub open spec fn leader_item(self, key: Seq<char>) -> Option<(EdV, ActionV)> {
        if key == "a"@ {
            Some(typing::quiet(self.unfold_all()))
        } else if key == "v"@ {
            Some(typing::quiet(self.checkbox(None)))
        } else if key == "V"@ {
            Some((self, ActionV::Checkbox))
        } else if key == "o"@ {
            Some(typing::quiet(self.in_progress()))
        } else if key == "R"@ {
            Some(typing::quiet(self.renumber()))
        } else if key == "s"@ {
            Some(typing::quiet(self.sort_selected()))
        } else if key == "r"@ {
            Some(self.goto_ref())
        } else if key == "c"@ {
            Some(typing::quiet(self.complexity()))
        } else if key == " "@ {
            Some(typing::quiet(self.next_template()))
        } else {
            None
        }
    }

    /// Leader keys that filter, style and ask.
    #[verifier::opaque]
    pub open spec fn leader_more(self, key: Seq<char>) -> Option<(EdV, ActionV)> {
        if key == "g"@ {
            Some((self, ActionV::Calendar))
        } else if key == "C"@ {
            Some(self.color_key())
        } else if key == "F"@ {
            Some(self.font_key())
        } else if key == "S"@ {
            Some(typing::quiet(self.filter_word(true)))
        } else if key == "H"@ {
            Some(typing::quiet(self.filter_word(false)))
        } else if key == "N"@ {
            Some(typing::quiet(self.unfiltered()))
        } else if key == "?"@ {
            Some((self, ActionV::Cheatsheet))
        } else if key == "w"@ {
            Some((self, ActionV::Lookup))
        } else {
            None
        }
    }

    /// The key after the leader.
    #[verifier::opaque]
    pub open spec fn leader(self, key: Seq<char>) -> (EdV, ActionV) {
        let digit = match strs::sole(key) {
            Some(c) => if chars::is_digit(c) {
                Some(strs::digit_value(c))
            } else {
                None
            },
            None => None,
        };
        if let Some(d) = digit {
            typing::quiet(self.fold_to(d))
        } else if let Some(r) = self.leader_switch(key) {
            r
        } else if let Some(r) = self.leader_item(key) {
            r
        } else if let Some(r) = self.leader_more(key) {
            r
        } else {
            typing::quiet(self.say(" leader \\"@ + key + ": unknown"@, 244))
        }
    }

    /// The key after `\e` or `\x`.
    #[verifier::opaque]
    pub open spec fn leader_sub(self, group: char, key: Seq<char>) -> (EdV, ActionV) {
        let whole = !mode::visual(self.mode);
        let e = group == 'e';
        let x = group == 'x';
        if e && key == "e"@ {
            (self, ActionV::Encrypt { whole })
        } else if e && key == "d"@ {
            (self, ActionV::Decrypt { whole })
        } else if e && key == "k"@ {
            (self, ActionV::Rekey)
        } else if x && key == "h"@ {
            (self, ActionV::Export("html"@))
        } else if x && key == "l"@ {
            (self, ActionV::Export("latex"@))
        } else if x && key == "m"@ {
            (self, ActionV::Export("markdown"@))
        } else if x && key == "p"@ {
            (self, ActionV::Export("pdf"@))
        } else if x && key == "d"@ {
            (self, ActionV::Export("docx"@))
        } else if x && key == "o"@ {
            (self, ActionV::Export("odt"@))
        } else if (e || x) && key == "ESC"@ {
            typing::quiet(self.say(" cancelled"@, 244))
        } else {
            typing::quiet(self.say(" leader \\"@ + seq![group] + key + ": unknown"@, 244))
        }
    }

    /// A group of the leader's keys opened, and what there is in it.
    #[verifier::opaque]
    pub open spec fn leader_group(self, group: char, menu: Seq<char>) -> EdV {
        EdV {
            prefixes: Prefixes { leader: false, leader_sub: Some(group), ..self.prefixes },
            ..self
        }.say(menu, 244)
    }

    /// The leader's prefixes in Normal and Visual mode.
    #[verifier::opaque]
    pub open spec fn leader_keys(self, key: Seq<char>) -> Option<(EdV, ActionV)> {
        let p = self.prefixes;
        match p.leader_sub {
            Some(g) => Some(
                EdV { prefixes: Prefixes { leader_sub: None, ..p }, ..self }.leader_sub(g, key),
            ),
            None => if p.leader {
                let s = EdV { prefixes: Prefixes { leader: false, ..p }, ..self };
                if key == "e"@ {
                    Some(
                        typing::quiet(
                            self.leader_group('e', " \\e — e=encrypt  d=decrypt  k=rekey"@),
                        ),
                    )
                } else if key == "x"@ {
                    Some(
                        typing::quiet(
                            self.leader_group(
                                'x',
                                " \\x — h=HTML  l=LaTeX  m=Markdown  p=PDF  d=docx  o=odt"@,
                            ),
                        ),
                    )
                } else {
                    Some(s.leader(key))
                }
            } else {
                None
            },
        }
    }
}

impl Editor {
    pub(crate) fn fold_to(&mut self, n: usize)
        requires
            old(self).wf(),
        ensures
            final(self)@ == old(self)@.fold_to(n as int),
            final(self).wf(),
    {
        let all: Vec<String> = self.all_lines();
        self.folds.set_level(n, &all);
    }

    pub(crate) fn unfold_all(&mut self)
        requires
            old(self).wf(),
        ensures
            final(self)@ == old(self)@.unfold_all(),
            final(self).wf(),
    {
        self.folds.open_all();
    }

    /// Byte range of the selection.
    pub fn selected_range(&self) -> (r: (usize, usize))
        requires
            self.wf(),
        ensures
            (r.0 as int, r.1 as int) == self@.selected_range(),
    {
        match self.mode {
            Mode::VisualLine => self.visual_line_range(),
            _ => self.visual_range(),
        }
    }

    pub(crate) fn to_normal(&mut self)
        requires
            old(self).wf(),
        ensures
            final(self)@ == old(self)@.to_normal(),
            final(self).wf(),
    {
        self.mode = Mode::Normal;
        self.pending = Pending::none();
    }

    fn color_key(&mut self) -> (act: Action)
        requires
            old(self).wf(),
        ensures
            typing::gave(final(self)@, act@, old(self)@.color_key()),
            final(self).wf(),
    {
        proof {
            reveal(EdV::color_key);
        }
        if self.mode.is_visual() {
            let (lo, hi) = self.selected_range();
            self.to_normal();
            Action::Color { lo, hi }
        } else {
            self.set_status(" \\C — select text in Visual mode first", 244);
            Action::Nothing
        }
    }

    fn font_key(&mut self) -> (act: Action)
        requires
            old(self).wf(),
        ensures
            typing::gave(final(self)@, act@, old(self)@.font_key()),
            final(self).wf(),
    {
        proof {
            reveal(EdV::font_key);
        }
        if self.mode.is_visual() {
            let (lo, hi) = self.selected_range();
            self.to_normal();
            Action::Font { lo, hi }
        } else {
            self.set_status(" \\F — select text in Visual mode first", 244);
            Action::Nothing
        }
    }

    fn leader_switch(&mut self, key: &str) -> (r: Option<Action>)
        requires
            old(self).wf(),
        ensures
            typing::did(r, final(self)@, old(self)@, old(self)@.leader_switch(key@)),
            final(self).wf(),
    {
        proof {
            reveal(EdV::leader_switch);
        }
        let o: Options = self.options;
        if same(key, "h") {
            if o.reading {
                self.set_options(Options { paragraph_dim: !o.paragraph_dim, ..o });
                self.set_status(
                    choose_text(!o.paragraph_dim, " highlight on", " highlight off"),
                    244,
                );
            } else {
                self.set_status(" \\h needs reading mode (`:read` or `zr`)", 244);
            }
        } else if same(key, "n") {
            self.set_options(Options { autonumber: !o.autonumber, ..o });
            self.set_status(choose_text(!o.autonumber, " autonumber on", " autonumber off"), 244);
        } else if same(key, "u") {
            let u: u8 = ((o.underline as u16 + 1) % 3) as u8;
            self.set_options(Options { underline: u, ..o });
            self.set_status(
                if u == 1 {
                    " state items underlined"
                } else if u == 2 {
                    " transition items underlined"
                } else {
                    " underlining off"
                },
                244,
            );
        } else if same(key, "p") {
            self.set_options(Options { presentation: !o.presentation, ..o });
            self.set_status(
                choose_text(!o.presentation, " presentation ON", " presentation off"),
                244,
            );
        } else if same(key, "M") {
            self.set_options(Options { conceal: !o.conceal, ..o });
            if o.conceal {
                self.set_status(" markup shown (\\M)", 244);
            } else {
                self.set_status(" markup hidden (\\M) — reveals on the cursor line", 46);
            }
            return Some(Action::Redraw);
        } else {
            return None;
        }
        Some(Action::Nothing)
    }

    fn leader_item(&mut self, key: &str) -> (r: Option<Action>)
        requires
            old(self).wf(),
        ensures
            typing::did(r, final(self)@, old(self)@, old(self)@.leader_item(key@)),
            final(self).wf(),
    {
        proof {
            reveal(EdV::leader_item);
        }
        if same(key, "a") {
            self.unfold_all();
        } else if same(key, "v") {
            self.toggle_checkbox(None);
        } else if same(key, "V") {
            return Some(Action::Checkbox);
        } else if same(key, "o") {
            self.mark_in_progress();
        } else if same(key, "R") {
            self.renumber_visual();
        } else if same(key, "s") {
            self.sort_visual_by_indent();
        } else if same(key, "r") {
            return Some(self.goto_reference());
        } else if same(key, "c") {
            self.complexity_report();
        } else if same(key, " ") {
            self.jump_next_template();
        } else {
            return None;
        }
        Some(Action::Nothing)
    }

    fn leader_more(&mut self, key: &str) -> (r: Option<Action>)
        requires
            old(self).wf(),
        ensures
            typing::did(r, final(self)@, old(self)@, old(self)@.leader_more(key@)),
            final(self).wf(),
    {
        proof {
            reveal(EdV::leader_more);
        }
        if same(key, "g") {
            return Some(Action::Calendar);
        } else if same(key, "C") {
            return Some(self.color_key());
        } else if same(key, "F") {
            return Some(self.font_key());
        } else if same(key, "S") {
            self.showhide_word(true);
        } else if same(key, "H") {
            self.showhide_word(false);
        } else if same(key, "N") {
            self.showhide_clear();
        } else if same(key, "?") {
            return Some(Action::Cheatsheet);
        } else if same(key, "w") {
            return Some(Action::Lookup);
        } else {
            return None;
        }
        Some(Action::Nothing)
    }

    /// The key after the leader.
    pub fn handle_leader(&mut self, key: &str) -> (act: Action)
        requires
            old(self).wf(),
        ensures
            typing::gave(final(self)@, act@, old(self)@.leader(key@)),
            final(self).wf(),
    {
        proof {
            reveal(EdV::leader);
        }
        if let Some(c) = sole_char(key) {
            if ascii_digit(c) {
                self.fold_to((c as u32 - '0' as u32) as usize);
                return Action::Nothing;
            }
        }
        if let Some(a) = self.leader_switch(key) {
            return a;
        }
        if let Some(a) = self.leader_item(key) {
            return a;
        }
        if let Some(a) = self.leader_more(key) {
            return a;
        }
        self.set_status(&cat3(" leader \\", key, ": unknown"), 244);
        Action::Nothing
    }

    /// The key after `\e` or `\x`.
    pub fn handle_leader_sub(&mut self, group: char, key: &str) -> (act: Action)
        requires
            old(self).wf(),
        ensures
            typing::gave(final(self)@, act@, old(self)@.leader_sub(group, key@)),
            final(self).wf(),
    {
        proof {
            reveal(EdV::leader_sub);
        }
        let whole: bool = !self.mode.is_visual();
        let e: bool = group == 'e';
        let x: bool = group == 'x';
        if e && same(key, "e") {
            return Action::Encrypt { whole };
        } else if e && same(key, "d") {
            return Action::Decrypt { whole };
        } else if e && same(key, "k") {
            return Action::Rekey;
        } else if x && same(key, "h") {
            return Action::Export("html".to_owned());
        } else if x && same(key, "l") {
            return Action::Export("latex".to_owned());
        } else if x && same(key, "m") {
            return Action::Export("markdown".to_owned());
        } else if x && same(key, "p") {
            return Action::Export("pdf".to_owned());
        } else if x && same(key, "d") {
            return Action::Export("docx".to_owned());
        } else if x && same(key, "o") {
            return Action::Export("odt".to_owned());
        } else if (e || x) && same(key, "ESC") {
            self.set_status(" cancelled", 244);
        } else {
            let head: String = cat2(" leader \\", &one(group));
            self.set_status(&cat3(&head, key, ": unknown"), 244);
        }
        Action::Nothing
    }

    fn leader_group(&mut self, group: char, menu: &str)
        requires
            old(self).wf(),
        ensures
            final(self)@ == old(self)@.leader_group(group, menu@),
            final(self).wf(),
    {
        proof {
            reveal(EdV::leader_group);
        }
        self.set_prefixes(Prefixes { leader: false, leader_sub: Some(group), ..self.prefixes });
        self.set_status(menu, 244);
    }

    /// The leader's prefixes in Normal and Visual mode.
    pub(crate) fn leader_keys(&mut self, key: &str) -> (r: Option<Action>)
        requires
            old(self).wf(),
        ensures
            typing::did(r, final(self)@, old(self)@, old(self)@.leader_keys(key@)),
            final(self).wf(),
    {
        proof {
            reveal(EdV::leader_keys);
        }
        let p: Prefixes = self.prefixes;
        if let Some(g) = p.leader_sub {
            self.set_prefixes(Prefixes { leader_sub: None, ..p });
            return Some(self.handle_leader_sub(g, key));
        }
        if !p.leader {
            return None;
        }
        if same(key, "e") {
            self.leader_group('e', " \\e — e=encrypt  d=decrypt  k=rekey");
            return Some(Action::Nothing);
        }
        if same(key, "x") {
            self.leader_group(
                'x',
                " \\x — h=HTML  l=LaTeX  m=Markdown  p=PDF  d=docx  o=odt",
            );
            return Some(Action::Nothing);
        }
        self.set_prefixes(Prefixes { leader: false, ..p });
        Some(self.handle_leader(key))
    }
}

/// A switch flipped twice is as it was, the other settings untouched; the
/// underlining comes round after its three kinds.
pub proof fn law_switch_twice(s: EdV)
    requires
        s.options.underline < 3,
    ensures
        ({
            let flip = |x: EdV, k: Seq<char>| (x.leader_switch(k)->0).0;
            let n = flip(s, "n"@);
            let p = flip(s, "p"@);
            let m = flip(s, "M"@);
            let u = flip(s, "u"@);
            &&& n.options.autonumber != s.options.autonumber
            &&& flip(n, "n"@).options == s.options
            &&& p.options.presentation != s.options.presentation
            &&& flip(p, "p"@).options == s.options
            &&& m.options.conceal != s.options.conceal
            &&& flip(m, "M"@).options == s.options
            &&& u.options.underline != s.options.underline
            &&& flip(flip(u, "u"@), "u"@).options == s.options
            &&& n.buf == s.buf && p.buf == s.buf && m.buf == s.buf && u.buf == s.buf
        }),
{
    reveal(EdV::leader_switch);
    reveal_strlit("h");
    reveal_strlit("n");
    reveal_strlit("u");
    reveal_strlit("p");
    reveal_strlit("M");
    assert("h"@[0] == 'h' && "h"@.len() == 1);
    assert("n"@[0] == 'n' && "n"@.len() == 1);
    assert("u"@[0] == 'u' && "u"@.len() == 1);
    assert("p"@[0] == 'p' && "p"@.len() == 1);
    assert("M"@[0] == 'M' && "M"@.len() == 1);
    let o = s.options;
    assert(((((((o.underline + 1) % 3) as u8 + 1) % 3) as u8 + 1) % 3) as u8 == o.underline);
}

} // verus!
