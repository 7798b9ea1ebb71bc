//! Ex commands: what is typed after a colon.

use vstd::prelude::*;
use vstd::string::*;
use crate::buffer;
use crate::buffer::{BufV, Buffer, FileKind};
use crate::chars;
use crate::editor::cursor;
use crate::editor::edits;
use crate::editor::leader;
use crate::editor::refs;
use crate::editor::refs::sort_pairs;
use crate::editor::state;
use crate::editor::state::{Action, ActionV, Editor, EdV, Options, ShellCommand};
use crate::editor::typing;
use crate::editor::typing::is_abbrev_char;
use crate::fold;
use crate::fold::FoldsV;
use crate::lines;
use crate::picker::InitialTab;
use crate::strs;
use crate::strs::{
    cat2, cat3, count_char, dec, join, parse_number, split_at_space, split_once, starts_with,
    strip_back, strip_front, strip_prefix, strip_prefixes, trim, trim_start, in_order,
};
use crate::text;
use crate::text::{chars_of, same};

verus! {

// ── Abbreviations ───────────────────────────────────────────────────────

/// Number of the entry for `k`, from entry `i` on.
pub open spec fn entry_of(a: Seq<(Seq<char>, Seq<char>)>, k: Seq<char>, i: int) -> Option<int>
    decreases a.len() - i,
{
    if i < 0 || i >= a.len() {
        None
    } else if a[i].0 == k {
        Some(i)
    } else {
        entry_of(a, k, i + 1)
    }
}

/// The abbreviations with one more, or with another meaning for it.
pub open spec fn with_entry(
    a: Seq<(Seq<char>, Seq<char>)>,
    k: Seq<char>,
    v: Seq<char>,
) -> Seq<(Seq<char>, Seq<char>)> {
    match entry_of(a, k, 0) {
        Some(i) => a.update(i, (k, v)),
        None => a.push((k, v)),
    }
}

pub open spec fn without_entry(a: Seq<(Seq<char>, Seq<char>)>, k: Seq<char>) -> Seq<
    (Seq<char>, Seq<char>),
> {
    match entry_of(a, k, 0) {
        Some(i) => a.remove(i),
        None => a,
    }
}

/// An abbreviation that was put in is found again, and the others stay.
pub proof fn law_entry_found(
    a: Seq<(Seq<char>, Seq<char>)>,
    k: Seq<char>,
    v: Seq<char>,
    other: Seq<char>,
)
    ensures
        typing::expansion_of(with_entry(a, k, v), k, 0) == Some(v),
        other != k ==> typing::expansion_of(with_entry(a, k, v), other, 0)
            == typing::expansion_of(a, other, 0),
{
    let b = with_entry(a, k, v);
    lemma_entry(a, k, 0);
    match entry_of(a, k, 0) {
        Some(i) => {
            lemma_found(b, k, v, i, 0);
            lemma_others(a, b, other, k, 0);
        },
        None => {
            lemma_found(b, k, v, a.len() as int, 0);
            lemma_others(a, b, other, k, 0);
        },
    }
}

proof fn lemma_entry(a: Seq<(Seq<char>, Seq<char>)>, k: Seq<char>, i: int)
    requires
        0 <= i,
    ensures
        entry_of(a, k, i) matches Some(j) ==> i <= j < a.len() && a[j].0 == k,
        forall|j: int|
            i <= j < a.len() && (entry_of(a, k, i) matches Some(e) ==> j < e) ==> (
            #[trigger] a[j]).0 != k,
    decreases a.len() - i,
{
    if i < a.len() && a[i].0 != k {
        lemma_entry(a, k, i + 1);
    }
}

proof fn lemma_found(
    b: Seq<(Seq<char>, Seq<char>)>,
    k: Seq<char>,
    v: Seq<char>,
    i: int,
    j: int,
)
    requires
        0 <= j <= i < b.len(),
        b[i] == (k, v),
        forall|m: int| 0 <= m < i ==> (#[trigger] b[m]).0 != k,
    ensures
        typing::expansion_of(b, k, j) == Some(v),
    decreases i - j,
{
    if j < i {
        lemma_found(b, k, v, i, j + 1);
    }
}

proof fn lemma_others(
    a: Seq<(Seq<char>, Seq<char>)>,
    b: Seq<(Seq<char>, Seq<char>)>,
    o: Seq<char>,
    k: Seq<char>,
    j: int,
)
    requires
        0 <= j <= a.len(),
        a.len() <= b.len() <= a.len() + 1,
        forall|m: int|
            0 <= m < a.len() ==> #[trigger] b[m] == a[m] || (a[m].0 == k && b[m].0 == k),
        b.len() > a.len() ==> b[a.len() as int].0 == k,
    ensures
        o != k ==> typing::expansion_of(b, o, j) == typing::expansion_of(a, o, j),
    decreases a.len() - j,
{
    if o != k {
        if j < a.len() {
            assert(b[j] == a[j] || (a[j].0 == k && b[j].0 == k));
            if a[j].0 != o {
                lemma_others(a, b, o, k, j + 1);
            }
        } else if b.len() > a.len() {
            assert(typing::expansion_of(b, o, j + 1) is None);
        }
    }
}

/// `name→meaning` of the first `n` entries.
pub open spec fn previews(a: Seq<(Seq<char>, Seq<char>)>, n: int) -> Seq<Seq<char>> {
    Seq::new(n as nat, |i: int| a[i].0 + "→"@ + a[i].1)
}

pub open spec fn only_abbrev_chars(s: Seq<char>) -> bool {
    forall|i: int| 0 <= i < s.len() ==> typing::abbrev_char(#[trigger] s[i])
}

fn all_abbrev_chars(s: &str) -> (r: bool)
    ensures
        r == only_abbrev_chars(s@),
{
    let v: Vec<char> = chars_of(s);
    let mut i: usize = 0;
    while i < v.len()
        invariant
            i <= v.len(),
            v@ == s@,
            forall|j: int| 0 <= j < i ==> typing::abbrev_char(#[trigger] s@[j]),
        decreases v.len() - i,
    {
        if !is_abbrev_char(v[i]) {
            return false;
        }
        i += 1;
    }
    true
}

impl EdV {
    pub open spec fn list_abbrev(self) -> EdV {
        let a = refs::sorted_items(self.abbrev, self.abbrev.len() as int);
        let n = state::min(a.len() as int, 6);
        if self.abbrev.len() == 0 {
            self.say(" no abbreviations defined"@, 244)
        } else {
            self.say(
                " abbrev: "@ + strs::joined(previews(a, n), "  "@) + (if a.len() > 6 {
                    " (+"@ + strs::dec_of(a.len() - 6) + " more)"@
                } else {
                    ""@
                }),
                244,
            )
        }
    }

    /// `:ab` with a name and a meaning, or with a name alone.
    #[verifier::opaque]
    pub open spec fn define_abbrev(self, body: Seq<char>) -> (EdV, ActionV) {
        let b = strs::trim_start_of(body);
        match strs::cut_at_space(b) {
            Some((t, e)) => {
                let name = strs::trimmed(t);
                let meaning = strs::without_back(e, '\n');
                if name.len() == 0 {
                    typing::quiet(self.say(" :ab needs a trigger"@, 196))
                } else if !only_abbrev_chars(name) {
                    typing::quiet(
                        self.say(
                            " trigger must contain only letters, digits, '-', '_'"@,
                            196,
                        ),
                    )
                } else {
                    (
                        EdV { abbrev: with_entry(self.abbrev, name, meaning), ..self }.say(
                            " abbrev: "@ + name + " → "@ + meaning,
                            244,
                        ),
                        ActionV::Shell(ShellCommand::SaveAbbreviations, Seq::empty()),
                    )
                }
            },
            None => {
                let name = strs::trimmed(b);
                if b.len() == 0 {
                    typing::quiet(self)
                } else {
                    typing::quiet(
                        match typing::expansion_of(self.abbrev, name, 0) {
                            Some(v) => self.say(" "@ + name + " → "@ + v, 244),
                            None => self.say(" no abbrev for "@ + name, 244),
                        },
                    )
                }
            },
        }
    }

    #[verifier::opaque]
    pub open spec fn remove_abbrev(self, body: Seq<char>) -> (EdV, ActionV) {
        let k = strs::trimmed(body);
        if entry_of(self.abbrev, k, 0) is Some {
            (
                EdV { abbrev: without_entry(self.abbrev, k), ..self }.say(
                    " removed abbrev: "@ + k,
                    244,
                ),
                ActionV::Shell(ShellCommand::SaveAbbreviations, Seq::empty()),
            )
        } else {
            typing::quiet(self.say(" no abbrev for "@ + k, 244))
        }
    }

    #[verifier::opaque]
    pub open spec fn abbrev_command(self, cmd: Seq<char>) -> Option<(EdV, ActionV)> {
        if cmd == "ab"@ || cmd == "abbrev"@ {
            Some(typing::quiet(self.list_abbrev()))
        } else if cmd == "abclear"@ || cmd == "abc"@ {
            Some(
                (
                    EdV { abbrev: Seq::empty(), ..self }.say(
                        " cleared "@ + strs::dec_of(self.abbrev.len() as int) + " abbreviations"@,
                        244,
                    ),
                    ActionV::Shell(ShellCommand::SaveAbbreviations, Seq::empty()),
                ),
            )
        } else if let Some(b) = strs::after_prefix(cmd, "abbrev "@) {
            Some(self.define_abbrev(b))
        } else if let Some(b) = strs::after_prefix(cmd, "ab "@) {
            Some(self.define_abbrev(b))
        } else if let Some(b) = strs::after_prefix(cmd, "unabbrev "@) {
            Some(self.remove_abbrev(b))
        } else if let Some(b) = strs::after_prefix(cmd, "una "@) {
            Some(self.remove_abbrev(b))
        } else {
            None
        }
    }

    // ── Files ───────────────────────────────────────────────────────────

    /// Commands that pick glyphs, write and quit.
    #[verifier::opaque]
    pub open spec fn write_command(self, cmd: Seq<char>) -> Option<(EdV, ActionV)> {
        if cmd == "digraphs"@ || cmd == "dig"@ {
            Some((self, ActionV::Pick(InitialTab::Digraphs)))
        } else if cmd == "emoji"@ {
            Some((self, ActionV::Pick(InitialTab::Emoji)))
        } else if cmd == "w"@ || cmd == "W"@ {
            Some((self, ActionV::Save))
        } else if let Some(p) = strs::after_prefix(cmd, "w "@) {
            Some(self.write_to(strs::trimmed(p)))
        } else if let Some(p) = strs::after_prefix(cmd, "W "@) {
            Some(self.write_to(strs::trimmed(p)))
        } else if cmd == "q"@ {
            Some(
                if self.buf.dirty {
                    typing::quiet(self.say(" unsaved changes (use :q! to force)"@, 196))
                } else {
                    (self, ActionV::Quit)
                },
            )
        } else if cmd == "q!"@ {
            Some((self, ActionV::Quit))
        } else if cmd == "wq"@ || cmd == "Wq"@ || cmd == "wQ"@ || cmd == "WQ"@ || cmd == "x"@ || cmd
            == "X"@ {
            Some((self, ActionV::SaveQuit))
        } else if cmd.len() == 0 {
            Some(typing::quiet(self))
        } else {
            None
        }
    }

    pub open spec fn write_to(self, path: Seq<char>) -> (EdV, ActionV) {
        if path.len() == 0 {
            typing::quiet(self.say(" :w needs a path"@, 196))
        } else if self.encrypted {
            typing::quiet(
                self.say(
                    " refusing :w <path> on encrypted buffer (would write cleartext)"@,
                    196,
                ),
            )
        } else {
            (self, ActionV::Shell(ShellCommand::SaveAs, path))
        }
    }

    /// Reads the file again when there is one.
    pub open spec fn reload(self, force: Seq<char>) -> (EdV, ActionV) {
        if self.buf.path is Some {
            (self, ActionV::Shell(ShellCommand::ReloadFile, force))
        } else {
            typing::quiet(self.say(" no file to reload"@, 196))
        }
    }

    pub open spec fn read_in(self, path: Seq<char>) -> (EdV, ActionV) {
        if path.len() == 0 {
            typing::quiet(self.say(" :r needs a filename"@, 196))
        } else {
            (self, ActionV::Shell(ShellCommand::ReadFile, path))
        }
    }

    /// Commands that read files.
    #[verifier::opaque]
    pub open spec fn read_command(self, cmd: Seq<char>) -> Option<(EdV, ActionV)> {
        if cmd == "e"@ || cmd == "edit"@ {
            Some(
                if self.buf.dirty {
                    typing::quiet(self.say(" unsaved changes (use :e! to force reload)"@, 196))
                } else {
                    self.reload(""@)
                },
            )
        } else if cmd == "e!"@ || cmd == "edit!"@ {
            Some(self.reload("!"@))
        } else if let Some(p) = strs::after_prefix(cmd, "e "@) {
            let path = strs::trimmed(p);
            Some(
                if path.len() == 0 {
                    typing::quiet(self)
                } else {
                    (self, ActionV::Shell(ShellCommand::EditFile, path))
                },
            )
        } else if let Some(p) = strs::after_prefix(cmd, "read "@) {
            Some(self.read_in(strs::trimmed(p)))
        } else if let Some(p) = strs::after_prefix(cmd, "r "@) {
            Some(self.read_in(strs::trimmed(p)))
        } else if let Some(p) = strs::after_prefix(cmd, "read!"@) {
            Some(self.read_in(strs::trimmed(p)))
        } else {
            None
        }
    }

    /// The text of a file put in below the cursor's line.
    /// There is a line below the cursor's.
    pub open spec fn has_below(self) -> bool {
        self.line + 1 < self.line_count()
    }

    /// Where the line below the cursor's starts.
    pub open spec fn below(self) -> int {
        if self.has_below() {
            lines::line_off(self.buf.text, self.line + 1)
        } else {
            text::blen(self.buf.text)
        }
    }

    /// What is put in for the content of a file: whole lines, and a line feed
    /// in front where the last line has none.
    pub open spec fn lines_to_read(self, content: Seq<char>) -> Seq<char> {
        let t = if content.len() > 0 && content.last() != '\n' {
            content + "\n"@
        } else {
            content
        };
        if !self.has_below() && self.buf.text.len() > 0 && self.buf.text.last() != '\n' && t.len()
            > 0 {
            "\n"@ + t
        } else {
            t
        }
    }

    /// The content of a file below the cursor's line.
    #[verifier::opaque]
    pub open spec fn read_below(self, name: Seq<char>, content: Seq<char>) -> EdV {
        let u = self.lines_to_read(content);
        let s = self.edit(self.below(), self.below(), u);
        s.place(state::min(state::plus(self.line, 1), s.last_line()), 0).say(
            " \""@ + name + "\"  "@ + strs::dec_of(strs::count_of(u, '\n', u.len() as int))
                + "L read"@,
            244,
        )
    }

    /// The file was read again, or could not be.
    #[verifier::opaque]
    pub open spec fn reloaded(self, b: Option<BufV>, msg: Seq<char>) -> EdV {
        match b {
            Some(n) => {
                let s = EdV { buf: n, ..self };
                EdV { line: state::min(s.line, s.last_line()), ..s }.clamp().say(msg, 2)
            },
            None => self.say(" reload failed"@, 196),
        }
    }

    /// The file changed outside the editor; `b` is what it holds now. A text
    /// with changes of its own is kept.
    pub open spec fn overtaken(self, b: Option<BufV>) -> EdV {
        if self.buf.dirty {
            self.say(
                "External change detected — buffer dirty. :e to reload, :w to overwrite"@,
                3,
            )
        } else if b is Some {
            self.reloaded(b, "File reloaded (changed on disk)"@)
        } else {
            self
        }
    }

    /// Another buffer opened.
    pub open spec fn opened(self, b: BufV) -> EdV {
        EdV {
            buf: b,
            line: 0,
            col: 0,
            scroll: 0,
            folds: FoldsV::none(),
            encrypted: false,
            ..self
        }
    }

    // ── Spelling, help and popups ───────────────────────────────────────

    #[verifier::opaque]
    pub open spec fn popup_command(self, cmd: Seq<char>) -> Option<(EdV, ActionV)> {
        if cmd == "set spell"@ {
            Some((self, ActionV::Shell(ShellCommand::SpellWords, Seq::empty())))
        } else if cmd == "set nospell"@ {
            Some(typing::quiet(self.spell_off().say(" spell off"@, 244)))
        } else if cmd == "spell"@ {
            Some((self, ActionV::Shell(ShellCommand::SpellFlagged, Seq::empty())))
        } else if let Some(l) = strs::after_prefix(cmd, "spell "@) {
            Some((self, ActionV::Shell(ShellCommand::SpellQuick, strs::trimmed(l))))
        } else if cmd == "help"@ || cmd == "h"@ {
            Some((self, ActionV::Shell(ShellCommand::Help, Seq::empty())))
        } else if let Some(t) = strs::after_prefix(cmd, "help "@) {
            Some((self, ActionV::Shell(ShellCommand::Help, strs::trimmed(t))))
        } else if let Some(t) = strs::after_prefix(cmd, "h "@) {
            Some((self, ActionV::Shell(ShellCommand::Help, strs::trimmed(t))))
        } else if cmd == "config"@ || cmd == "Config"@ {
            Some((self, ActionV::Shell(ShellCommand::Config, Seq::empty())))
        } else if cmd == "reg"@ || cmd == "registers"@ || cmd == "display"@ {
            Some((self, ActionV::Shell(ShellCommand::Registers, Seq::empty())))
        } else if cmd == "keys"@ || cmd == "keybindings"@ || cmd == "cheat"@ {
            Some((self, ActionV::Shell(ShellCommand::Keys, Seq::empty())))
        } else if cmd == "map"@ || cmd == "maps"@ || cmd == "mappings"@ {
            Some((self, ActionV::Shell(ShellCommand::Maps, Seq::empty())))
        } else {
            None
        }
    }

    // ── Layout and options ──────────────────────────────────────────────

    #[verifier::opaque]
    pub open spec fn set_reading(self, on: bool, msg: Seq<char>) -> EdV {
        EdV { options: Options { reading: on, ..self.options }, ..self }.relayout().say(msg, 244)
    }

    #[verifier::opaque]
    pub open spec fn layout_command(self, cmd: Seq<char>) -> Option<(EdV, ActionV)> {
        if let Some(p) = strs::after_prefix(cmd, "show "@) {
            Some(typing::quiet(self.filter_pattern(strs::trimmed(p), true)))
        } else if let Some(p) = strs::after_prefix(cmd, "hide "@) {
            Some(typing::quiet(self.filter_pattern(strs::trimmed(p), false)))
        } else if let Some(f) = strs::after_prefix(cmd, "export "@) {
            Some((self, ActionV::Export(strs::trimmed(f))))
        } else if cmd == "read"@ || cmd == "reading"@ {
            Some(
                (
                    if self.options.reading {
                        self.set_reading(false, " reading mode off"@)
                    } else {
                        self.set_reading(true, " reading mode (use :noread to exit)"@)
                    },
                    ActionV::Relayout,
                ),
            )
        } else if cmd == "noread"@ || cmd == "noreading"@ {
            Some((self.set_reading(false, " reading mode off"@), ActionV::Relayout))
        } else {
            None
        }
    }

    #[verifier::opaque]
    pub open spec fn set_reading_width(self, v: Seq<char>) -> (EdV, ActionV) {
        if v.len() == 0 {
            typing::quiet(
                self.say(
                    " readingwidth="@ + strs::dec_of(self.options.reading_width as int)
                        + " (0=full)"@,
                    244,
                ),
            )
        } else {
            match strs::plus_number(v, usize::MAX as int) {
                Some(n) => (
                    EdV {
                        options: Options { reading_width: n as usize, ..self.options },
                        ..self
                    }.relayout().say(" readingwidth="@ + strs::dec_of(n), 244),
                    ActionV::Relayout,
                ),
                None => typing::quiet(self.say(" usage: :set readingwidth=N"@, 196)),
            }
        }
    }

    #[verifier::opaque]
    pub open spec fn set_text_width(self, v: Seq<char>) -> EdV {
        if v.len() == 0 {
            self.say(
                " textwidth="@ + strs::dec_of(self.options.textwidth as int) + " (0=off)"@,
                244,
            )
        } else {
            match strs::plus_number(v, usize::MAX as int) {
                Some(n) => EdV {
                    options: Options { textwidth: n as usize, ..self.options },
                    ..self
                }.say(" textwidth="@ + strs::dec_of(n), 244),
                None => self.say(" usage: :set textwidth=N"@, 196),
            }
        }
    }

    #[verifier::opaque]
    pub open spec fn set_dim(self, val: bool) -> EdV {
        EdV { options: Options { paragraph_dim: val, ..self.options }, ..self }.say(
            leader::choice(val, " paragraph dim on"@, " paragraph dim off"@),
            244,
        )
    }

    /// Options with a value.
    #[verifier::opaque]
    pub open spec fn value_command(self, cmd: Seq<char>) -> Option<(EdV, ActionV)> {
        if strs::prefixed(cmd, "set readingwidth"@) {
            Some(self.set_reading_width(value_after(cmd, "set readingwidth"@)))
        } else if strs::prefixed(cmd, "set rw"@) {
            Some(self.set_reading_width(value_after(cmd, "set rw"@)))
        } else if cmd == "set paragraphdim"@ || cmd == "set pdim"@ {
            Some(typing::quiet(self.set_dim(true)))
        } else if cmd == "set noparagraphdim"@ || cmd == "set nopdim"@ {
            Some(typing::quiet(self.set_dim(false)))
        } else if let Some(v) = strs::after_prefix(cmd, "set paragraphdim="@) {
            Some(typing::quiet(self.set_dim(is_yes(v))))
        } else if let Some(v) = strs::after_prefix(cmd, "set pdim="@) {
            Some(typing::quiet(self.set_dim(is_yes(v))))
        } else if strs::prefixed(cmd, "set textwidth"@) {
            Some(typing::quiet(self.set_text_width(value_after(cmd, "set textwidth"@))))
        } else if strs::prefixed(cmd, "set tw"@) {
            Some(typing::quiet(self.set_text_width(value_after(cmd, "set tw"@))))
        } else if strs::prefixed(cmd, "set spelllang"@) {
            Some(self.ask_lang(value_after(cmd, "set spelllang"@)))
        } else if strs::prefixed(cmd, "set lang"@) {
            Some(self.ask_lang(value_after(cmd, "set lang"@)))
        } else {
            None
        }
    }

    pub open spec fn ask_lang(self, name: Seq<char>) -> (EdV, ActionV) {
        if name.len() == 0 {
            typing::quiet(
                self.say(
                    " spell lang: "@ + self.spell_lang
                        + " | :set spelllang=NAME (e.g. nb_NO, nn_NO, en_US)"@,
                    244,
                ),
            )
        } else {
            (self, ActionV::Shell(ShellCommand::SpellLang, name))
        }
    }

    /// Line numbers.
    #[verifier::opaque]
    pub open spec fn number_command(self, cmd: Seq<char>) -> Option<(EdV, ActionV)> {
        let o = self.options;
        if cmd == "set number"@ || cmd == "set nu"@ {
            Some(typing::quiet(EdV { options: Options { numbers: true, ..o }, ..self }))
        } else if cmd == "set nonumber"@ || cmd == "set nonu"@ {
            Some(
                typing::quiet(
                    EdV {
                        options: Options { numbers: false, relative_numbers: false, ..o },
                        ..self
                    },
                ),
            )
        } else if cmd == "set relativenumber"@ || cmd == "set rnu"@ {
            Some(
                typing::quiet(
                    EdV {
                        options: Options { numbers: true, relative_numbers: true, ..o },
                        ..self
                    },
                ),
            )
        } else if cmd == "set norelativenumber"@ || cmd == "set nornu"@ {
            Some(typing::quiet(EdV { options: Options { relative_numbers: false, ..o }, ..self }))
        } else {
            None
        }
    }

    /// Highlighting by another language than the file's own.
    #[verifier::opaque]
    pub open spec fn set_syntax(self, name: Seq<char>) -> (EdV, ActionV) {
        if name.len() == 0 {
            typing::quiet(
                self.say(
                    " syntax: "@ + kind_label(self.buf.kind) + " | use :set syntax=NAME"@,
                    244,
                ),
            )
        } else if name == "plain"@ || name == "text"@ || name == "txt"@ || name == "none"@ {
            typing::quiet(self.with_kind(FileKind::Plain).say(" syntax: plain"@, 244))
        } else if name == "email"@ || name == "mail"@ || name == "eml"@ {
            typing::quiet(self.with_kind(FileKind::Email).say(" syntax: email"@, 244))
        } else {
            (self, ActionV::Shell(ShellCommand::Syntax, name))
        }
    }

    pub open spec fn with_kind(self, k: FileKind) -> EdV {
        EdV { buf: BufV { kind: k, ..self.buf }, ..self }
    }

    #[verifier::opaque]
    pub open spec fn style_command(self, cmd: Seq<char>) -> Option<(EdV, ActionV)> {
        if strs::prefixed(cmd, "set syntax"@) {
            Some(self.set_syntax(value_after(cmd, "set syntax"@)))
        } else if strs::prefixed(cmd, "set filetype"@) {
            Some(self.set_syntax(value_after(cmd, "set filetype"@)))
        } else if strs::prefixed(cmd, "set ft"@) {
            Some(self.set_syntax(value_after(cmd, "set ft"@)))
        } else if strs::prefixed(cmd, "set theme"@) {
            let name = value_after(cmd, "set theme"@);
            Some(
                (
                    if name.len() == 0 {
                        self
                    } else {
                        EdV { theme: name, ..self }.say(" theme: "@ + name, 244)
                    },
                    ActionV::Shell(ShellCommand::Theme, name),
                ),
            )
        } else {
            None
        }
    }

    /// Substitution, the commands that ask the assistant, and folds.
    #[verifier::opaque]
    pub open spec fn last_command(self, cmd: Seq<char>) -> (EdV, ActionV) {
        if let Some(r) = strs::after_prefix(cmd, "s/"@) {
            typing::quiet(self.subst_command(false, r))
        } else if let Some(r) = strs::after_prefix(cmd, "%s/"@) {
            typing::quiet(self.subst_command(true, r))
        } else if cmd == self.assistant {
            (self, ActionV::Shell(ShellCommand::Assist, Seq::empty()))
        } else if let Some(p) = strs::after_prefix(cmd, self.assistant + " "@) {
            (self, ActionV::Shell(ShellCommand::Assist, strs::trimmed(p)))
        } else if cmd == "chat"@ {
            (self, ActionV::Shell(ShellCommand::Chat, Seq::empty()))
        } else if cmd == "fold-all"@ {
            typing::quiet(self.fold_to(0))
        } else if cmd == "fold-open"@ {
            typing::quiet(self.unfold_all())
        } else {
            typing::quiet(self.say(" unknown: "@ + cmd, 196))
        }
    }

    /// An ex command.
    #[verifier::opaque]
    pub open spec fn command(self, cmd: Seq<char>) -> (EdV, ActionV) {
        if let Some(r) = self.write_command(cmd) {
            r
        } else if let Some(r) = self.read_command(cmd) {
            r
        } else if let Some(r) = self.abbrev_command(cmd) {
            r
        } else if let Some(r) = self.popup_command(cmd) {
            r
        } else if let Some(r) = self.layout_command(cmd) {
            r
        } else if let Some(r) = self.value_command(cmd) {
            r
        } else if let Some(r) = self.number_command(cmd) {
            r
        } else if let Some(r) = self.style_command(cmd) {
            r
        } else {
            self.last_command(cmd)
        }
    }

    // ── What the shell reports back ─────────────────────────────────────

    /// The highlighting knows the language, or does not.
    pub open spec fn syntax_checked(self, name: Seq<char>, known: bool) -> EdV {
        if known {
            self.say(" syntax: "@ + name, 244)
        } else {
            self.say(" unknown syntax: "@ + name, 196)
        }
    }

    pub open spec fn list_themes(self, names: Seq<Seq<char>>) -> EdV {
        self.say(
            " theme: "@ + self.theme + " | available: "@ + strs::joined(names, ", "@),
            244,
        )
    }
}

pub open spec fn kind_label(k: FileKind) -> Seq<char> {
    match k {
        FileKind::Plain => "plain"@,
        FileKind::Email => "email"@,
        FileKind::Source(s) => s@,
    }
}

/// The value of an option: what follows its name and an equals sign.
pub open spec fn value_after(cmd: Seq<char>, key: Seq<char>) -> Seq<char> {
    strs::trimmed(strs::without_front(strs::without_prefixes(cmd, key), '='))
}

fn value_of(cmd: &str, key: &str) -> (v: String)
    ensures
        v@ == value_after(cmd@, key@),
{
    trim(&strip_front(&strip_prefixes(cmd, key), '='))
}

/// A value that turns an option on; only what stands before another equals
/// sign counts.
pub open spec fn is_yes(v: Seq<char>) -> bool {
    let w = strs::trimmed(
        match strs::cut_at(v, '=') {
            Some((a, b)) => a,
            None => v,
        },
    );
    w == "true"@ || w == "1"@ || w == "yes"@ || w == "on"@
}

fn says_yes(v: &str) -> (r: bool)
    ensures
        r == is_yes(v@),
{
    let w: String = match split_once(v, '=') {
        Some((a, _)) => trim(&a),
        None => trim(v),
    };
    same(&w, "true") || same(&w, "1") || same(&w, "yes") || same(&w, "on")
}

impl Editor {
    fn list_abbrev(&mut self)
        requires
            old(self).wf(),
        ensures
            final(self)@ == old(self)@.list_abbrev(),
            final(self).wf(),
    {
        if self.abbrev.len() == 0 {
            self.set_status(" no abbreviations defined", 244);
            return;
        }
        let a: Vec<(String, String)> = sort_pairs(&self.abbrev);
        assert(refs::groups_view(self.abbrev@) =~= self@.abbrev);
        let n: usize = if a.len() < 6 {
            a.len()
        } else {
            6
        };
        let ghost av = refs::groups_view(a@);
        let mut ps: Vec<String> = Vec::new();
        let mut i: usize = 0;
        while i < n
            invariant
                i <= n <= a@.len(),
                av == refs::groups_view(a@),
                ps@.len() == i,
                forall|j: int|
                    0 <= j < i ==> (#[trigger] ps@[j])@ == av[j].0 + "→"@ + av[j].1,
            decreases n - i,
        {
            assert(av[i as int] == (a@[i as int].0@, a@[i as int].1@));
            ps.push(cat3(&a[i].0, "→", &a[i].1));
            i += 1;
        }
        assert(fold::views(ps@) =~= previews(av, n as int));
        let more: String = if a.len() > 6 {
            cat3(" (+", &dec(a.len() as u128 - 6), " more)")
        } else {
            "".to_owned()
        };
        self.set_status(&cat3(" abbrev: ", &join(&ps, "  "), &more), 244);
    }

    fn find_entry(&self, k: &str) -> (r: Option<usize>)
        ensures
            buffer::int_opt(r) == entry_of(self@.abbrev, k@, 0),
            r matches Some(i) ==> i < self.abbrev@.len(),
    {
        let mut i: usize = 0;
        while i < self.abbrev.len()
            invariant
                i <= self.abbrev.len(),
                entry_of(self@.abbrev, k@, 0) == entry_of(self@.abbrev, k@, i as int),
            decreases self.abbrev.len() - i,
        {
            assert(self@.abbrev[i as int].0 == self.abbrev@[i as int].0@);
            if same(&self.abbrev[i].0, k) {
                return Some(i);
            }
            i += 1;
        }
        None
    }

    /// Sets what an abbreviation stands for.
    pub fn set_abbrev(&mut self, k: &str, v: &str)
        requires
            old(self).wf(),
        ensures
            final(self)@ == (EdV {
                abbrev: with_entry(old(self)@.abbrev, k@, v@),
                ..old(self)@
            }),
            final(self).wf(),
    {
        let ghost before = self.abbrev@;
        let e: (String, String) = (k.to_owned(), v.to_owned());
        match self.find_entry(k) {
            Some(i) => {
                self.abbrev.set(i, e);
                assert(state::abbrev_view(self.abbrev@) =~= state::abbrev_view(before).update(
                    i as int,
                    (k@, v@),
                ));
            },
            None => {
                self.abbrev.push(e);
                assert(state::abbrev_view(self.abbrev@) =~= state::abbrev_view(before).push(
                    (k@, v@),
                ));
            },
        }
    }

    fn define_abbrev(&mut self, body: &str) -> (act: Action)
        requires
            old(self).wf(),
        ensures
            typing::gave(final(self)@, act@, old(self)@.define_abbrev(body@)),
            final(self).wf(),
    {
        proof {
            reveal(EdV::define_abbrev);
        }
        let b: String = trim_start(body);
        match split_at_space(&b) {
            Some((t, e)) => {
                let name: String = trim(&t);
                let meaning: String = strip_back(&e, '\n');
                if chars_of(&name).len() == 0 {
                    self.set_status(" :ab needs a trigger", 196);
                    Action::Nothing
                } else if !all_abbrev_chars(&name) {
                    self.set_status(
                        " trigger must contain only letters, digits, '-', '_'",
                        196,
                    );
                    Action::Nothing
                } else {
                    self.set_abbrev(&name, &meaning);
                    let a: String = cat3(" abbrev: ", &name, " → ");
                    self.set_status(&cat2(&a, &meaning), 244);
                    shell(ShellCommand::SaveAbbreviations)
                }
            },
            None => {
                if chars_of(&b).len() > 0 {
                    let name: String = trim(&b);
                    match self.expansion(&name) {
                        Some(v) => {
                            let a: String = cat3(" ", &name, " → ");
                            self.set_status(&cat2(&a, &v), 244);
                        },
                        None => {
                            self.set_status(&cat2(" no abbrev for ", &name), 244);
                        },
                    }
                }
                Action::Nothing
            },
        }
    }

    fn remove_abbrev(&mut self, body: &str) -> (act: Action)
        requires
            old(self).wf(),
        ensures
            typing::gave(final(self)@, act@, old(self)@.remove_abbrev(body@)),
            final(self).wf(),
    {
        proof {
            reveal(EdV::remove_abbrev);
        }
        let k: String = trim(body);
        match self.find_entry(&k) {
            Some(i) => {
                let ghost before = self.abbrev@;
                let _e: (String, String) = self.abbrev.remove(i);
                assert(state::abbrev_view(self.abbrev@) =~= state::abbrev_view(before).remove(
                    i as int,
                ));
                self.set_status(&cat2(" removed abbrev: ", &k), 244);
                shell(ShellCommand::SaveAbbreviations)
            },
            None => {
                self.set_status(&cat2(" no abbrev for ", &k), 244);
                Action::Nothing
            },
        }
    }

    fn clear_abbrev(&mut self)
        requires
            old(self).wf(),
        ensures
            final(self)@ == (EdV { abbrev: Seq::empty(), ..old(self)@ }).say(
                " cleared "@ + strs::dec_of(old(self)@.abbrev.len() as int) + " abbreviations"@,
                244,
            ),
            final(self).wf(),
    {
        let n: usize = self.abbrev.len();
        self.abbrev = Vec::new();
        assert(state::abbrev_view(self.abbrev@) =~= Seq::empty());
        self.set_status(&cat3(" cleared ", &dec(n as u128), " abbreviations"), 244);
    }

    fn abbrev_command(&mut self, cmd: &str) -> (r: Option<Action>)
        requires
            old(self).wf(),
        ensures
            typing::did(r, final(self)@, old(self)@, old(self)@.abbrev_command(cmd@)),
            final(self).wf(),
    {
        proof {
            reveal(EdV::abbrev_command);
        }
        if same(cmd, "ab") || same(cmd, "abbrev") {
            self.list_abbrev();
            return Some(Action::Nothing);
        }
        if same(cmd, "abclear") || same(cmd, "abc") {
            self.clear_abbrev();
            return Some(shell(ShellCommand::SaveAbbreviations));
        }
        if let Some(b) = strip_prefix(cmd, "abbrev ") {
            return Some(self.define_abbrev(&b));
        }
        if let Some(b) = strip_prefix(cmd, "ab ") {
            return Some(self.define_abbrev(&b));
        }
        if let Some(b) = strip_prefix(cmd, "unabbrev ") {
            return Some(self.remove_abbrev(&b));
        }
        if let Some(b) = strip_prefix(cmd, "una ") {
            return Some(self.remove_abbrev(&b));
        }
        None
    }

    fn write_to(&mut self, path: &str) -> (act: Action)
        requires
            old(self).wf(),
        ensures
            typing::gave(final(self)@, act@, old(self)@.write_to(path@)),
            final(self).wf(),
    {
        if chars_of(path).len() == 0 {
            self.set_status(" :w needs a path", 196);
            Action::Nothing
        } else if self.encrypted {
            self.set_status(
                " refusing :w <path> on encrypted buffer (would write cleartext)",
                196,
            );
            Action::Nothing
        } else {
            Action::Shell(ShellCommand::SaveAs, path.to_owned())
        }
    }

    fn write_command(&mut self, cmd: &str) -> (r: Option<Action>)
        requires
            old(self).wf(),
        ensures
            typing::did(r, final(self)@, old(self)@, old(self)@.write_command(cmd@)),
            final(self).wf(),
    {
        proof {
            reveal(EdV::write_command);
        }
        if same(cmd, "digraphs") || same(cmd, "dig") {
            return Some(Action::Pick(InitialTab::Digraphs));
        }
        if same(cmd, "emoji") {
            return Some(Action::Pick(InitialTab::Emoji));
        }
        if same(cmd, "w") || same(cmd, "W") {
            return Some(Action::Save);
        }
        if let Some(p) = strip_prefix(cmd, "w ") {
            return Some(self.write_to(&trim(&p)));
        }
        if let Some(p) = strip_prefix(cmd, "W ") {
            return Some(self.write_to(&trim(&p)));
        }
        if same(cmd, "q") {
            if self.buf.is_dirty() {
                self.set_status(" unsaved changes (use :q! to force)", 196);
                return Some(Action::Nothing);
            }
            return Some(Action::Quit);
        }
        if same(cmd, "q!") {
            return Some(Action::Quit);
        }
        if same(cmd, "wq") || same(cmd, "Wq") || same(cmd, "wQ") || same(cmd, "WQ") || same(
            cmd,
            "x",
        ) || same(cmd, "X") {
            return Some(Action::SaveQuit);
        }
        if chars_of(cmd).len() == 0 {
            return Some(Action::Nothing);
        }
        None
    }

    fn reload(&mut self, force: &str) -> (act: Action)
        requires
            old(self).wf(),
        ensures
            typing::gave(final(self)@, act@, old(self)@.reload(force@)),
            final(self).wf(),
    {
        if self.buf.path_ref().is_some() {
            Action::Shell(ShellCommand::ReloadFile, force.to_owned())
        } else {
            self.set_status(" no file to reload", 196);
            Action::Nothing
        }
    }

    fn read_in(&mut self, path: &str) -> (act: Action)
        requires
            old(self).wf(),
        ensures
            typing::gave(final(self)@, act@, old(self)@.read_in(path@)),
            final(self).wf(),
    {
        if chars_of(path).len() == 0 {
            self.set_status(" :r needs a filename", 196);
            Action::Nothing
        } else {
            Action::Shell(ShellCommand::ReadFile, path.to_owned())
        }
    }

    fn read_command(&mut self, cmd: &str) -> (r: Option<Action>)
        requires
            old(self).wf(),
        ensures
            typing::did(r, final(self)@, old(self)@, old(self)@.read_command(cmd@)),
            final(self).wf(),
    {
        proof {
            reveal(EdV::read_command);
        }
        if same(cmd, "e") || same(cmd, "edit") {
            if self.buf.is_dirty() {
                self.set_status(" unsaved changes (use :e! to force reload)", 196);
                return Some(Action::Nothing);
            }
            return Some(self.reload(""));
        }
        if same(cmd, "e!") || same(cmd, "edit!") {
            return Some(self.reload("!"));
        }
        if let Some(p) = strip_prefix(cmd, "e ") {
            let path: String = trim(&p);
            if chars_of(&path).len() == 0 {
                return Some(Action::Nothing);
            }
            return Some(Action::Shell(ShellCommand::EditFile, path));
        }
        if let Some(p) = strip_prefix(cmd, "read ") {
            return Some(self.read_in(&trim(&p)));
        }
        if let Some(p) = strip_prefix(cmd, "r ") {
            return Some(self.read_in(&trim(&p)));
        }
        if let Some(p) = strip_prefix(cmd, "read!") {
            return Some(self.read_in(&trim(&p)));
        }
        None
    }

    fn has_below(&self) -> (r: bool)
        ensures
            r == self@.has_below(),
            r ==> self.cur_line < usize::MAX,
    {
        self.cur_line < self.buf.line_count() - 1
    }

    fn below(&self) -> (o: usize)
        ensures
            o == self@.below(),
    {
        if self.has_below() {
            self.buf.line_byte_offset(self.cur_line + 1)
        } else {
            self.buf.len_bytes()
        }
    }

    fn lines_to_read(&self, content: &str) -> (u: String)
        ensures
            u@ == self@.lines_to_read(content@),
    {
        let v: Vec<char> = chars_of(content);
        let t: String = if v.len() > 0 && v[v.len() - 1] != '\n' {
            cat2(content, "\n")
        } else {
            content.to_owned()
        };
        let b: Vec<char> = self.buf.chars();
        if !self.has_below() && b.len() > 0 && b[b.len() - 1] != '\n' && chars_of(&t).len() > 0 {
            cat2("\n", &t)
        } else {
            t
        }
    }

    /// Puts the text of a file in below the cursor's line.
    pub fn read_file_into_buffer(&mut self, name: &str, content: &str)
        requires
            old(self).wf(),
        ensures
            final(self)@ == old(self)@.read_below(name@, content@),
            final(self).wf(),
    {
        proof {
            reveal(EdV::read_below);
        }
        let o: usize = self.below();
        let u: String = self.lines_to_read(content);
        let n: usize = count_char(&u, '\n');
        self.edit(o, o, &u);
        let end: usize = self.buf.line_count() - 1;
        let k: usize = self.cur_line.saturating_add(1);
        self.place(
            if k < end {
                k
            } else {
                end
            },
            0,
        );
        let a: String = cat3(" \"", name, "\"  ");
        self.set_status(&cat3(&a, &dec(n as u128), "L read"), 244);
    }

    /// Takes the buffer that was read again.
    pub fn reload_done(&mut self, b: Option<Buffer>, msg: &str)
        requires
            old(self).wf(),
            b matches Some(x) ==> x.wf() && x@.calm(),
        ensures
            final(self)@ == old(self)@.reloaded(
                match b {
                    Some(x) => Some(x@),
                    None => None,
                },
                msg@,
            ),
            final(self).wf(),
    {
        proof {
            reveal(EdV::reloaded);
        }
        match b {
            Some(x) => {
                self.buf = x;
                let last: usize = self.buf.line_count() - 1;
                if self.cur_line > last {
                    self.cur_line = last;
                }
                self.clamp_col_to_line();
                self.set_status(msg, 2);
            },
            None => {
                self.set_status(" reload failed", 196);
            },
        }
    }

    /// Minds a file that changed outside the editor.
    pub fn changed_on_disk(&mut self, b: Option<Buffer>)
        requires
            old(self).wf(),
            b matches Some(x) ==> x.wf() && x@.calm(),
        ensures
            final(self)@ == old(self)@.overtaken(
                match b {
                    Some(x) => Some(x@),
                    None => None,
                },
            ),
            final(self).wf(),
    {
        if self.buf.is_dirty() {
            self.set_status(
                "External change detected — buffer dirty. :e to reload, :w to overwrite",
                3,
            );
        } else if b.is_some() {
            self.reload_done(b, "File reloaded (changed on disk)");
        }
    }

    /// Opens another buffer.
    pub fn open_buffer(&mut self, b: Buffer)
        requires
            old(self).wf(),
            b.wf(),
            b@.calm(),
        ensures
            final(self)@ == old(self)@.opened(b@),
            final(self).wf(),
    {
        self.buf = b;
        self.cur_line = 0;
        self.cur_col = 0;
        self.scroll = 0;
        self.folds.clear();
        self.encrypted = false;
        proof {
            cursor::lemma_line_off(self@.buf.text, 0);
        }
    }

    fn popup_command(&mut self, cmd: &str) -> (r: Option<Action>)
        requires
            old(self).wf(),
        ensures
            typing::did(r, final(self)@, old(self)@, old(self)@.popup_command(cmd@)),
            final(self).wf(),
    {
        proof {
            reveal(EdV::popup_command);
        }
        if same(cmd, "set spell") {
            return Some(shell(ShellCommand::SpellWords));
        }
        if same(cmd, "set nospell") {
            self.spell_disable();
            self.set_status(" spell off", 244);
            return Some(Action::Nothing);
        }
        if same(cmd, "spell") {
            return Some(shell(ShellCommand::SpellFlagged));
        }
        if let Some(l) = strip_prefix(cmd, "spell ") {
            return Some(Action::Shell(ShellCommand::SpellQuick, trim(&l)));
        }
        if same(cmd, "help") || same(cmd, "h") {
            return Some(shell(ShellCommand::Help));
        }
        if let Some(t) = strip_prefix(cmd, "help ") {
            return Some(Action::Shell(ShellCommand::Help, trim(&t)));
        }
        if let Some(t) = strip_prefix(cmd, "h ") {
            return Some(Action::Shell(ShellCommand::Help, trim(&t)));
        }
        if same(cmd, "config") || same(cmd, "Config") {
            return Some(shell(ShellCommand::Config));
        }
        if same(cmd, "reg") || same(cmd, "registers") || same(cmd, "display") {
            return Some(shell(ShellCommand::Registers));
        }
        if same(cmd, "keys") || same(cmd, "keybindings") || same(cmd, "cheat") {
            return Some(shell(ShellCommand::Keys));
        }
        if same(cmd, "map") || same(cmd, "maps") || same(cmd, "mappings") {
            return Some(shell(ShellCommand::Maps));
        }
        None
    }

    fn set_reading(&mut self, on: bool, msg: &str)
        requires
            old(self).wf(),
        ensures
            final(self)@ == old(self)@.set_reading(on, msg@),
            final(self).wf(),
    {
        proof {
            reveal(EdV::set_reading);
        }
        self.set_options(Options { reading: on, ..self.options });
        self.apply_layout();
        self.set_status(msg, 244);
    }

    fn layout_command(&mut self, cmd: &str) -> (r: Option<Action>)
        requires
            old(self).wf(),
        ensures
            typing::did(r, final(self)@, old(self)@, old(self)@.layout_command(cmd@)),
            final(self).wf(),
    {
        proof {
            reveal(EdV::layout_command);
        }
        if let Some(p) = strip_prefix(cmd, "show ") {
            self.showhide_pattern(&trim(&p), true);
            return Some(Action::Nothing);
        }
        if let Some(p) = strip_prefix(cmd, "hide ") {
            self.showhide_pattern(&trim(&p), false);
            return Some(Action::Nothing);
        }
        if let Some(f) = strip_prefix(cmd, "export ") {
            return Some(Action::Export(trim(&f)));
        }
        if same(cmd, "read") || same(cmd, "reading") {
            if self.options.reading {
                self.set_reading(false, " reading mode off");
            } else {
                self.set_reading(true, " reading mode (use :noread to exit)");
            }
            return Some(Action::Relayout);
        }
        if same(cmd, "noread") || same(cmd, "noreading") {
            self.set_reading(false, " reading mode off");
            return Some(Action::Relayout);
        }
        None
    }

    fn set_reading_width(&mut self, v: &str) -> (act: Action)
        requires
            old(self).wf(),
        ensures
            typing::gave(final(self)@, act@, old(self)@.set_reading_width(v@)),
            final(self).wf(),
    {
        proof {
            reveal(EdV::set_reading_width);
        }
        if chars_of(v).len() == 0 {
            let n: String = dec(self.options.reading_width as u128);
            self.set_status(&cat3(" readingwidth=", &n, " (0=full)"), 244);
            return Action::Nothing;
        }
        match parse_number(v, usize::MAX as u64) {
            Some(n) => {
                self.set_options(Options { reading_width: n as usize, ..self.options });
                self.apply_layout();
                self.set_status(&cat2(" readingwidth=", &dec(n as u128)), 244);
                Action::Relayout
            },
            None => {
                self.set_status(" usage: :set readingwidth=N", 196);
                Action::Nothing
            },
        }
    }

    fn set_text_width(&mut self, v: &str)
        requires
            old(self).wf(),
        ensures
            final(self)@ == old(self)@.set_text_width(v@),
            final(self).wf(),
    {
        proof {
            reveal(EdV::set_text_width);
        }
        if chars_of(v).len() == 0 {
            let n: String = dec(self.options.textwidth as u128);
            self.set_status(&cat3(" textwidth=", &n, " (0=off)"), 244);
            return;
        }
        match parse_number(v, usize::MAX as u64) {
            Some(n) => {
                self.set_options(Options { textwidth: n as usize, ..self.options });
                self.set_status(&cat2(" textwidth=", &dec(n as u128)), 244);
            },
            None => {
                self.set_status(" usage: :set textwidth=N", 196);
            },
        }
    }

    fn set_dim(&mut self, val: bool)
        requires
            old(self).wf(),
        ensures
            final(self)@ == old(self)@.set_dim(val),
            final(self).wf(),
    {
        proof {
            reveal(EdV::set_dim);
        }
        self.set_options(Options { paragraph_dim: val, ..self.options });
        self.set_status(
            if val {
                " paragraph dim on"
            } else {
                " paragraph dim off"
            },
            244,
        );
    }

    fn ask_lang(&mut self, name: &str) -> (act: Action)
        requires
            old(self).wf(),
        ensures
            typing::gave(final(self)@, act@, old(self)@.ask_lang(name@)),
            final(self).wf(),
    {
        if chars_of(name).len() == 0 {
            let m: String = cat3(
                " spell lang: ",
                &self.spell_lang,
                " | :set spelllang=NAME (e.g. nb_NO, nn_NO, en_US)",
            );
            self.set_status(&m, 244);
            Action::Nothing
        } else {
            Action::Shell(ShellCommand::SpellLang, name.to_owned())
        }
    }

    fn value_command(&mut self, cmd: &str) -> (r: Option<Action>)
        requires
            old(self).wf(),
        ensures
            typing::did(r, final(self)@, old(self)@, old(self)@.value_command(cmd@)),
            final(self).wf(),
    {
        proof {
            reveal(EdV::value_command);
        }
        if starts_with(cmd, "set readingwidth") {
            return Some(self.set_reading_width(&value_of(cmd, "set readingwidth")));
        }
        if starts_with(cmd, "set rw") {
            return Some(self.set_reading_width(&value_of(cmd, "set rw")));
        }
        if same(cmd, "set paragraphdim") || same(cmd, "set pdim") {
            self.set_dim(true);
        } else if same(cmd, "set noparagraphdim") || same(cmd, "set nopdim") {
            self.set_dim(false);
        } else if let Some(v) = strip_prefix(cmd, "set paragraphdim=") {
            self.set_dim(says_yes(&v));
        } else if let Some(v) = strip_prefix(cmd, "set pdim=") {
            self.set_dim(says_yes(&v));
        } else if starts_with(cmd, "set textwidth") {
            self.set_text_width(&value_of(cmd, "set textwidth"));
        } else if starts_with(cmd, "set tw") {
            self.set_text_width(&value_of(cmd, "set tw"));
        } else if starts_with(cmd, "set spelllang") {
            return Some(self.ask_lang(&value_of(cmd, "set spelllang")));
        } else if starts_with(cmd, "set lang") {
            return Some(self.ask_lang(&value_of(cmd, "set lang")));
        } else {
            return None;
        }
        Some(Action::Nothing)
    }

    fn number_command(&mut self, cmd: &str) -> (r: Option<Action>)
        requires
            old(self).wf(),
        ensures
            typing::did(r, final(self)@, old(self)@, old(self)@.number_command(cmd@)),
            final(self).wf(),
    {
        proof {
            reveal(EdV::number_command);
        }
        let o: Options = self.options;
        if same(cmd, "set number") || same(cmd, "set nu") {
            self.set_options(Options { numbers: true, ..o });
        } else if same(cmd, "set nonumber") || same(cmd, "set nonu") {
            self.set_options(Options { numbers: false, relative_numbers: false, ..o });
        } else if same(cmd, "set relativenumber") || same(cmd, "set rnu") {
            self.set_options(Options { numbers: true, relative_numbers: true, ..o });
        } else if same(cmd, "set norelativenumber") || same(cmd, "set nornu") {
            self.set_options(Options { relative_numbers: false, ..o });
        } else {
            return None;
        }
        Some(Action::Nothing)
    }

    fn set_kind(&mut self, k: FileKind)
        requires
            old(self).wf(),
        ensures
            final(self)@ == old(self)@.with_kind(k),
            final(self).wf(),
    {
        self.buf.set_kind(k);
    }

    fn set_syntax(&mut self, name: &str) -> (act: Action)
        requires
            old(self).wf(),
        ensures
            typing::gave(final(self)@, act@, old(self)@.set_syntax(name@)),
            final(self).wf(),
    {
        proof {
            reveal(EdV::set_syntax);
        }
        if chars_of(name).len() == 0 {
            let label: String = match self.buf.kind_ref() {
                FileKind::Plain => "plain".to_owned(),
                FileKind::Email => "email".to_owned(),
                FileKind::Source(s) => s.clone(),
            };
            self.set_status(&cat3(" syntax: ", &label, " | use :set syntax=NAME"), 244);
            return Action::Nothing;
        }
        if same(name, "plain") || same(name, "text") || same(name, "txt") || same(name, "none") {
            self.set_kind(FileKind::Plain);
            self.set_status(" syntax: plain", 244);
            return Action::Nothing;
        }
        if same(name, "email") || same(name, "mail") || same(name, "eml") {
            self.set_kind(FileKind::Email);
            self.set_status(" syntax: email", 244);
            return Action::Nothing;
        }
        Action::Shell(ShellCommand::Syntax, name.to_owned())
    }

    fn style_command(&mut self, cmd: &str) -> (r: Option<Action>)
        requires
            old(self).wf(),
        ensures
            typing::did(r, final(self)@, old(self)@, old(self)@.style_command(cmd@)),
            final(self).wf(),
    {
        proof {
            reveal(EdV::style_command);
        }
        if starts_with(cmd, "set syntax") {
            return Some(self.set_syntax(&value_of(cmd, "set syntax")));
        }
        if starts_with(cmd, "set filetype") {
            return Some(self.set_syntax(&value_of(cmd, "set filetype")));
        }
        if starts_with(cmd, "set ft") {
            return Some(self.set_syntax(&value_of(cmd, "set ft")));
        }
        if starts_with(cmd, "set theme") {
            let name: String = value_of(cmd, "set theme");
            if chars_of(&name).len() > 0 {
                self.theme_name = name.clone();
                self.set_status(&cat2(" theme: ", &name), 244);
            }
            return Some(Action::Shell(ShellCommand::Theme, name));
        }
        None
    }

    fn last_command(&mut self, cmd: &str) -> (act: Action)
        requires
            old(self).wf(),
        ensures
            typing::gave(final(self)@, act@, old(self)@.last_command(cmd@)),
            final(self).wf(),
    {
        proof {
            reveal(EdV::last_command);
        }
        if let Some(r) = strip_prefix(cmd, "s/") {
            self.execute_substitute(false, &r);
            return Action::Nothing;
        }
        if let Some(r) = strip_prefix(cmd, "%s/") {
            self.execute_substitute(true, &r);
            return Action::Nothing;
        }
        if same(cmd, &self.assistant) {
            return shell(ShellCommand::Assist);
        }
        if let Some(p) = strip_prefix(cmd, &cat2(&self.assistant, " ")) {
            return Action::Shell(ShellCommand::Assist, trim(&p));
        }
        if same(cmd, "chat") {
            return shell(ShellCommand::Chat);
        }
        if same(cmd, "fold-all") {
            self.fold_to(0);
            return Action::Nothing;
        }
        if same(cmd, "fold-open") {
            self.unfold_all();
            return Action::Nothing;
        }
        self.set_status(&cat2(" unknown: ", cmd), 196);
        Action::Nothing
    }

    /// Runs an ex command.
    pub fn execute_command(&mut self, cmd: &str) -> (act: Action)
        requires
            old(self).wf(),
        ensures
            typing::gave(final(self)@, act@, old(self)@.command(cmd@)),
            final(self).wf(),
    {
        proof {
            reveal(EdV::command);
        }
        if let Some(a) = self.write_command(cmd) {
            return a;
        }
        if let Some(a) = self.read_command(cmd) {
            return a;
        }
        if let Some(a) = self.abbrev_command(cmd) {
            return a;
        }
        if let Some(a) = self.popup_command(cmd) {
            return a;
        }
        if let Some(a) = self.layout_command(cmd) {
            return a;
        }
        if let Some(a) = self.value_command(cmd) {
            return a;
        }
        if let Some(a) = self.number_command(cmd) {
            return a;
        }
        if let Some(a) = self.style_command(cmd) {
            return a;
        }
        self.last_command(cmd)
    }

    /// The highlighting knows the language, or does not.
    pub fn syntax_checked(&mut self, name: &str, known: bool)
        requires
            old(self).wf(),
        ensures
            final(self)@ == (EdV {
                buf: final(self)@.buf,
                ..old(self)@.syntax_checked(name@, known)
            }),
            final(self)@.buf == (BufV { kind: final(self)@.buf.kind, ..old(self)@.buf }),
            known ==> buffer::kind_view(final(self)@.buf.kind) == buffer::KindV::Source(name@),
            !known ==> final(self)@.buf.kind == old(self)@.buf.kind,
            final(self).wf(),
    {
        if known {
            self.set_kind(FileKind::Source(name.to_owned()));
            self.set_status(&cat2(" syntax: ", name), 244);
        } else {
            self.set_status(&cat2(" unknown syntax: ", name), 196);
        }
    }

    /// Lists the themes.
    pub fn list_themes(&mut self, names: &Vec<String>)
        requires
            old(self).wf(),
        ensures
            final(self)@ == old(self)@.list_themes(fold::views(names@)),
            final(self).wf(),
    {
        let a: String = cat3(" theme: ", &self.theme_name, " | available: ");
        self.set_status(&cat2(&a, &join(names, ", ")), 244);
    }
}

fn shell(c: ShellCommand) -> (a: Action)
    ensures
        a@ == ActionV::Shell(c, Seq::empty()),
{
    let e: String = String::new();
    assert(e@ =~= Seq::empty());
    Action::Shell(c, e)
}

// ── Completion ──────────────────────────────────────────────────────────

/// Names of the commands that Tab completes, in order.
pub open spec fn command_names() -> Seq<Seq<char>> {
    seq![
        "abbrev"@,
        "abclear"@,
        "chat"@,
        "cheat"@,
        "config"@,
        "dig"@,
        "digraphs"@,
        "display"@,
        "e"@,
        "e!"@,
        "edit"@,
        "edit!"@,
        "email"@,
        "eml"@,
        "emoji"@,
        "help"@,
        "keybindings"@,
        "keys"@,
        "mail"@,
        "map"@,
        "mappings"@,
        "maps"@,
        "noreading"@,
        "plain"@,
        "q"@,
        "reading"@,
        "reg"@,
        "registers"@,
        "spell"@,
        "text"@,
        "w"@,
        "wq"@,
        "x"@,
    ]
}

/// Where a name belongs among names in order, from number `i` on.
pub open spec fn name_place(names: Seq<Seq<char>>, a: Seq<char>, i: int) -> int
    decreases names.len() - i,
{
    if i < 0 || i >= names.len() || strs::ordered(a, names[i]) {
        i
    } else {
        name_place(names, a, i + 1)
    }
}

/// The names of the commands with that of the assistant among them.
pub open spec fn names_with(a: Seq<char>) -> Seq<Seq<char>> {
    command_names().insert(name_place(command_names(), a, 0), a)
}

/// The first `n` of the names that start with `p`.
pub open spec fn completions(names: Seq<Seq<char>>, p: Seq<char>, n: int) -> Seq<Seq<char>>
    decreases n,
{
    if n <= 0 {
        Seq::empty()
    } else {
        let r = completions(names, p, n - 1);
        if strs::prefixed(names[n - 1], p) {
            r.push(names[n - 1])
        } else {
            r
        }
    }
}

fn all_commands() -> (v: Vec<String>)
    ensures
        fold::views(v@) == command_names(),
{
    let v: Vec<String> = vec![
        "abbrev".to_owned(),
        "abclear".to_owned(),
        "chat".to_owned(),
        "cheat".to_owned(),
        "config".to_owned(),
        "dig".to_owned(),
        "digraphs".to_owned(),
        "display".to_owned(),
        "e".to_owned(),
        "e!".to_owned(),
        "edit".to_owned(),
        "edit!".to_owned(),
        "email".to_owned(),
        "eml".to_owned(),
        "emoji".to_owned(),
        "help".to_owned(),
        "keybindings".to_owned(),
        "keys".to_owned(),
        "mail".to_owned(),
        "map".to_owned(),
        "mappings".to_owned(),
        "maps".to_owned(),
        "noreading".to_owned(),
        "plain".to_owned(),
        "q".to_owned(),
        "reading".to_owned(),
        "reg".to_owned(),
        "registers".to_owned(),
        "spell".to_owned(),
        "text".to_owned(),
        "w".to_owned(),
        "wq".to_owned(),
        "x".to_owned(),
    ];
    assert(fold::views(v@) =~= command_names());
    v
}

fn commands_with(a: &str) -> (v: Vec<String>)
    ensures
        fold::views(v@) == names_with(a@),
{
    let mut v: Vec<String> = all_commands();
    let ghost nv = command_names();
    let mut i: usize = 0;
    while i < v.len() && !in_order(a, &v[i])
        invariant
            i <= v.len(),
            nv == fold::views(v@),
            name_place(nv, a@, 0) == name_place(nv, a@, i as int),
        decreases v.len() - i,
    {
        assert(nv[i as int] == v@[i as int]@);
        i += 1;
    }
    assert(i < v.len() ==> nv[i as int] == v@[i as int]@);
    assert(nv.len() == v@.len());
    v.insert(i, a.to_owned());
    assert(fold::views(v@) =~= nv.insert(i as int, a@));
    v
}

/// The commands that start with what was typed; that of the assistant has
/// its name.
pub fn complete_colon_command(prefix: &str, assistant: &str) -> (out: Vec<String>)
    ensures
        fold::views(out@) == completions(
            names_with(assistant@),
            strs::without_front(prefix@, ':'),
            names_with(assistant@).len() as int,
        ),
{
    let p: String = strip_front(prefix, ':');
    let names: Vec<String> = commands_with(assistant);
    let ghost nv = names_with(assistant@);
    let mut out: Vec<String> = Vec::new();
    let mut i: usize = 0;
    assert(fold::views(out@) =~= completions(nv, p@, 0));
    while i < names.len()
        invariant
            i <= names.len(),
            nv == fold::views(names@),
            fold::views(out@) == completions(nv, p@, i as int),
        decreases names.len() - i,
    {
        let ghost before = out@;
        assert(nv[i as int] == names@[i as int]@);
        if starts_with(&names[i], &p) {
            out.push(names[i].clone());
            assert(fold::views(out@) =~= fold::views(before).push(nv[i as int]));
        }
        i += 1;
    }
    out
}

// ── What the commands do ────────────────────────────────────────────────

/// The content of a file is put in below the cursor's line, as whole lines:
/// with a line feed at its end where it has none, and one before it where it
/// comes after a last line that has none. All the rest of the text stays. An
/// empty file changes nothing.
pub proof fn law_read_below(s: EdV, name: Seq<char>, content: Seq<char>)
    requires
        0 <= s.line < s.line_count(),
    ensures
        ({
            let t = s.buf.text;
            let whole = if content.last() == '\n' {
                content
            } else {
                content.push('\n')
            };
            let p = lines::line_start(t, s.line + 1);
            let r = s.read_below(name, content).buf.text;
            &&& content.len() == 0 ==> r == t
            &&& content.len() > 0 && s.line + 1 < s.line_count() ==> r == t.take(p) + whole + t.skip(
                p,
            )
            &&& content.len() > 0 && s.line + 1 == s.line_count() && (t.len() == 0 || t.last()
                == '\n') ==> r == t + whole
            &&& content.len() > 0 && s.line + 1 == s.line_count() && t.len() > 0 && t.last() != '\n'
                ==> r == t.push('\n') + whole
        }),
{
    reveal(EdV::read_below);
    reveal_strlit("\n");
    assert("\n"@ =~= seq!['\n']);
    let t = s.buf.text;
    let u = s.lines_to_read(content);
    lines::lemma_line_start(t, s.line + 1);
    let p = lines::line_start(t, s.line + 1);
    assert(s.below() == text::off(t, p));
    edits::law_edit(s, p, p, u);
    let r = t.take(p) + u + t.skip(p);
    assert(content + "\n"@ =~= content.push('\n'));
    if content.len() == 0 {
        assert(u =~= Seq::empty());
        assert(r =~= t);
    } else if s.line + 1 == s.line_count() {
        assert(t.take(p) =~= t);
        assert(t.skip(p) =~= Seq::empty());
        let whole = if content.last() == '\n' {
            content
        } else {
            content.push('\n')
        };
        if t.len() == 0 || t.last() == '\n' {
            assert(u == whole);
            assert(r =~= t + whole);
        } else {
            assert(u == "\n"@ + whole);
            assert(r =~= t.push('\n') + whole);
        }
    }
}

/// A text that was decrypted is never written to another file.
pub proof fn law_encrypted_stays(s: EdV, path: Seq<char>)
    requires
        s.encrypted,
    ensures
        s.write_to(path).1 == ActionV::Nothing,
        s.write_to(path).0.buf == s.buf,
{
}

/// After `:ab NAME MEANING` the name stands for the meaning, whatever it stood
/// for before, and no other abbreviation changes.
pub proof fn law_abbreviation_defined(s: EdV, name: Seq<char>, meaning: Seq<char>, other: Seq<char>)
    requires
        name.len() > 0,
        forall|k: int| 0 <= k < name.len() ==> chars::is_ascii_alnum(#[trigger] name[k]),
        only_abbrev_chars(name),
        meaning.len() > 0,
        !chars::is_space(meaning[0]),
        meaning.last() != '\n',
    ensures
        ({
            let r = s.define_abbrev(name.push(' ') + meaning).0;
            &&& typing::expansion_of(r.abbrev, name, 0) == Some(meaning)
            &&& other != name ==> typing::expansion_of(r.abbrev, other, 0) == typing::expansion_of(
                s.abbrev,
                other,
                0,
            )
            &&& r.buf == s.buf
        }),
{
    reveal(EdV::define_abbrev);
    reveal(chars::is_space);
    let body = name.push(' ') + meaning;
    let sp = chars::space_fn();
    let ink = strs::ink_fn();
    assert(body[0] == name[0]);
    assert(!sp(body[0]));
    assert(strs::trim_start_of(body) =~= body);
    text::lemma_skip_fwd(body, 0, ink);
    let i = text::skip_fwd(body, 0, ink);
    assert(body[name.len() as int] == ' ');
    if i < name.len() {
        assert(body[i] == name[i]);
        assert(ink(body[i]));
    } else if i > name.len() {
        assert(ink(body[name.len() as int]));
    }
    assert(body.take(i) =~= name);
    assert(body.skip(i + 1) =~= meaning);
    assert(strs::trimmed(name) =~= name) by {
        assert(!sp(name[0]));
        assert(strs::trim_start_of(name) =~= name);
        assert(!sp(name[name.len() - 1]));
    }
    assert(!strs::same_as('\n')(meaning[meaning.len() - 1]));
    assert(strs::without_back(meaning, '\n') =~= meaning);
    law_entry_found(s.abbrev, name, meaning, other);
}

/// Names that complete what was typed: all those that start with it and no
/// others, in the order of the names.
pub proof fn law_completions(a: Seq<Seq<char>>, b: Seq<Seq<char>>, p: Seq<char>)
    ensures
        completions(a + b, p, (a + b).len() as int) == completions(a, p, a.len() as int)
            + completions(b, p, b.len() as int),
        a.len() == 1 && p.len() <= a[0].len() && a[0].take(p.len() as int) == p ==> completions(
            a,
            p,
            1,
        ) == a,
        a.len() == 1 && !(p.len() <= a[0].len() && a[0].take(p.len() as int) == p) ==> completions(
            a,
            p,
            1,
        ).len() == 0,
    decreases b.len(),
{
    let m = a.len() as int;
    let n = b.len() as int;
    if m == 1 {
        assert(completions(a, p, 0) =~= Seq::empty());
        assert(seq![a[0]] =~= a);
        assert(Seq::<Seq<char>>::empty().push(a[0]) =~= a);
    }
    if n == 0 {
        assert(a + b =~= a);
        assert(completions(a, p, m) + completions(b, p, 0) =~= completions(a, p, m));
    } else {
        let c = b.drop_last();
        law_completions(a, c, p);
        lemma_completions_prefix(a + c, a + b, p, m + n - 1);
        lemma_completions_prefix(c, b, p, n - 1);
        assert((a + b)[m + n - 1] == b[n - 1]);
        let x = completions(a, p, m);
        let y = completions(b, p, n - 1);
        assert((x + y).push(b[n - 1]) =~= x + y.push(b[n - 1]));
    }
}

proof fn lemma_completions_prefix(a: Seq<Seq<char>>, b: Seq<Seq<char>>, p: Seq<char>, n: int)
    requires
        0 <= n <= a.len(),
        n <= b.len(),
        forall|k: int| 0 <= k < n ==> #[trigger] a[k] == b[k],
    ensures
        completions(a, p, n) == completions(b, p, n),
    decreases n,
{
    if n > 0 {
        lemma_completions_prefix(a, b, p, n - 1);
        assert(a[n - 1] == b[n - 1]);
    }
}

/// The text width that is set is the number that was written.
pub proof fn law_text_width(s: EdV, n: int)
    requires
        0 <= n <= usize::MAX,
    ensures
        s.set_text_width(strs::dec_of(n)).options.textwidth == n,
        s.set_text_width(strs::dec_of(n)).buf == s.buf,
        s.set_reading_width(strs::dec_of(n)).0.options.reading_width == n,
        s.set_reading_width(strs::dec_of(n)).0.buf == s.buf,
{
    reveal(EdV::set_text_width);
    reveal(EdV::set_reading_width);
    strs::lemma_dec_value(n);
    let d = strs::dec_of(n);
    assert(chars::is_digit(d[0]));
    strs::law_decimal(n, usize::MAX as int);
}

/// An option that is given a value has the value after the equals sign, less
/// the white space around it.
pub proof fn law_value_after(key: Seq<char>, v: Seq<char>)
    requires
        key.len() > 0,
        key[0] != '=',
        v.len() > 0 ==> v[0] != '=',
    ensures
        value_after(key.push('=') + v, key) == strs::trimmed(v),
{
    let cmd = key.push('=') + v;
    assert(cmd.take(key.len() as int) =~= key);
    let r = cmd.skip(key.len() as int);
    assert(r =~= seq!['='] + v);
    assert(r[0] == '=');
    assert(!strs::prefixed(r, key)) by {
        if strs::prefixed(r, key) {
            assert(r.take(key.len() as int)[0] == key[0]);
        }
    }
    assert(strs::without_prefixes(cmd, key) == strs::without_prefixes(r, key));
    assert(strs::without_prefixes(r, key) == r);
    let f = strs::same_as('=');
    text::lemma_skip_fwd(r, 0, f);
    let k = text::skip_fwd(r, 0, f);
    assert(f(r[0]));
    assert(k >= 1) by {
        if k == 0 {
            assert(!f(r[0]));
        }
    }
    if k > 1 {
        assert(f(r[1]));
        assert(r[1] == v[0]);
    }
    assert(r.skip(k) =~= v);
}

} // verus!
