//! The editor's state and its model.

use vstd::prelude::*;
use vstd::string::*;
use crate::buffer;
use crate::buffer::{BufV, Buffer};
use crate::fold::{Folds, FoldsV};
use crate::lines;
use crate::marks::Marks;
use crate::mode::Mode;
use crate::picker::InitialTab;
use crate::register::{Registers, RegsV};
use crate::search::{Direction, SearchState, SearchV};
use crate::spell::{MisspellRange, MisspellV};
use crate::text;

verus! {

/// A Normal-mode command that is being put together key by key.
#[derive(Copy, Clone, Debug, PartialEq, Eq, Structural)]
pub struct Pending {
    pub count1: Option<usize>,
    pub count2: Option<usize>,
    pub operator: Option<char>,
    pub register: Option<char>,
    /// `r`, `f`, `F`, `t` or `T`, waiting for its character.
    pub awaiting_char: Option<char>,
    pub g_prefix: bool,
    pub register_prefix: bool,
    /// `i` or `a` after an operator, waiting for the kind of text object.
    pub text_object: Option<char>,
}

pub open spec fn no_pending() -> Pending {
    Pending {
        count1: None,
        count2: None,
        operator: None,
        register: None,
        awaiting_char: None,
        g_prefix: false,
        register_prefix: false,
        text_object: None,
    }
}

pub open spec fn or_one(c: Option<usize>) -> int {
    match c {
        Some(n) => n as int,
        None => 1,
    }
}

/// The counts multiplied, and at least 1.
pub open spec fn count_of(p: Pending) -> int {
    let n = or_one(p.count1) * or_one(p.count2);
    if n < 1 {
        1
    } else {
        crate::cols::sat(n)
    }
}

impl Pending {
    pub fn none() -> (p: Pending)
        ensures
            p == no_pending(),
    {
        Pending {
            count1: None,
            count2: None,
            operator: None,
            register: None,
            awaiting_char: None,
            g_prefix: false,
            register_prefix: false,
            text_object: None,
        }
    }

    /// The count of the command.
    pub fn count(&self) -> (n: usize)
        ensures
            n == count_of(*self),
            n >= 1,
    {
        let a: usize = match self.count1 {
            Some(n) => n,
            None => 1,
        };
        let b: usize = match self.count2 {
            Some(n) => n,
            None => 1,
        };
        let n: usize = match a.checked_mul(b) {
            Some(n) => n,
            None => usize::MAX,
        };
        if n < 1 {
            1
        } else {
            n
        }
    }
}

/// A motion that can be made again from elsewhere.
pub enum ChangeMotion {
    Key(String),
    TextObject { kind: char, target: char },
    Linewise { extra: usize },
    /// `f`, `F`, `t` or `T` and the character looked for.
    Find { how: char, target: char },
    /// A jump to a mark, to its exact place or to its line.
    Mark { name: char, exact: bool },
}

/// The last change, for `.` to repeat.
pub enum LastChange {
    Op {
        op: char,
        motion: ChangeMotion,
        count: usize,
        register: Option<char>,
        /// What was typed after a change operator.
        insert_text: String,
    },
    Replace { c: char, count: usize },
    Insert { text: String, append: bool },
    Paste { after: bool, count: usize, register: Option<char> },
    SimpleAction { key: String, count: usize, register: Option<char> },
}

/// Model of a [`ChangeMotion`].
#[verifier::ext_equal]
pub enum ChangeMotionV {
    Key(Seq<char>),
    TextObject { kind: char, target: char },
    Linewise { extra: int },
    Find { how: char, target: char },
    Mark { name: char, exact: bool },
}

/// Model of a [`LastChange`].
#[verifier::ext_equal]
pub enum LastChangeV {
    Op {
        op: char,
        motion: ChangeMotionV,
        count: int,
        register: Option<char>,
        insert_text: Seq<char>,
    },
    Replace { c: char, count: int },
    Insert { text: Seq<char>, append: bool },
    Paste { after: bool, count: int, register: Option<char> },
    SimpleAction { key: Seq<char>, count: int, register: Option<char> },
}

impl View for ChangeMotion {
    type V = ChangeMotionV;

    open spec fn view(&self) -> ChangeMotionV {
        match self {
            ChangeMotion::Key(k) => ChangeMotionV::Key(k@),
            ChangeMotion::TextObject { kind, target } => ChangeMotionV::TextObject {
                kind: *kind,
                target: *target,
            },
            ChangeMotion::Linewise { extra } => ChangeMotionV::Linewise { extra: *extra as int },
            ChangeMotion::Find { how, target } => ChangeMotionV::Find {
                how: *how,
                target: *target,
            },
            ChangeMotion::Mark { name, exact } => ChangeMotionV::Mark {
                name: *name,
                exact: *exact,
            },
        }
    }
}

impl View for LastChange {
    type V = LastChangeV;

    open spec fn view(&self) -> LastChangeV {
        match self {
            LastChange::Op { op, motion, count, register, insert_text } => LastChangeV::Op {
                op: *op,
                motion: motion@,
                count: *count as int,
                register: *register,
                insert_text: insert_text@,
            },
            LastChange::Replace { c, count } => LastChangeV::Replace {
                c: *c,
                count: *count as int,
            },
            LastChange::Insert { text, append } => LastChangeV::Insert {
                text: text@,
                append: *append,
            },
            LastChange::Paste { after, count, register } => LastChangeV::Paste {
                after: *after,
                count: *count as int,
                register: *register,
            },
            LastChange::SimpleAction { key, count, register } => LastChangeV::SimpleAction {
                key: key@,
                count: *count as int,
                register: *register,
            },
        }
    }
}

pub open spec fn change_opt(c: Option<LastChange>) -> Option<LastChangeV> {
    match c {
        Some(x) => Some(x@),
        None => None,
    }
}

/// A block change that waits to be copied to the other lines of the block.
pub struct BlockInsert {
    /// Display column of the block's left edge.
    pub vcol: usize,
    /// The lines below the top one.
    pub lines: Vec<usize>,
}

#[verifier::ext_equal]
pub struct BlockV {
    pub vcol: int,
    pub lines: Seq<int>,
}

pub open spec fn block_opt(b: Option<BlockInsert>) -> Option<BlockV> {
    match b {
        Some(x) => Some(
            BlockV {
                vcol: x.vcol as int,
                lines: Seq::new(x.lines@.len(), |i: int| x.lines@[i] as int),
            },
        ),
        None => None,
    }
}

/// Keys that wait for a second one, outside [`Pending`].
#[derive(Copy, Clone, Debug, PartialEq, Eq, Structural)]
pub struct Prefixes {
    /// Insert-mode Ctrl-R: the next key names a register.
    pub insert_register: bool,
    /// `z`.
    pub z: bool,
    /// `]` or `[`.
    pub bracket: Option<char>,
    /// `\`.
    pub leader: bool,
    /// `\e` or `\x`.
    pub leader_sub: Option<char>,
    /// `M`: the next key names the register to record into.
    pub record: bool,
    /// `@`: the next key names the register to play.
    pub play: bool,
    /// `m`: the next key names the mark to set.
    pub mark_set: bool,
    /// `'` or a backquote: the next key names the mark to jump to.
    pub mark_jump: bool,
    /// The jump goes to the exact place, not to the start of the line.
    pub mark_exact: bool,
    /// Visual-mode `r`, waiting for its character.
    pub visual_replace: bool,
    /// The step of the history that the keys of this stay in Replace mode are
    /// part of.
    pub turn: Option<usize>,
    /// What is typed belongs to a change operator, which `.` makes again
    /// together with it.
    pub changing: bool,
}

/// A step of the history by its number.
#[verifier::opaque]
pub open spec fn step_at(h: Option<int>) -> Option<usize> {
    match h {
        Some(i) => Some(i as usize),
        None => None,
    }
}

pub(crate) proof fn lemma_step_at(h: Option<usize>)
    ensures
        step_at(crate::buffer::int_opt(h)) == h,
{
    reveal(step_at);
}

pub open spec fn no_prefixes() -> Prefixes {
    Prefixes {
        insert_register: false,
        z: false,
        bracket: None,
        leader: false,
        leader_sub: None,
        record: false,
        play: false,
        mark_set: false,
        mark_jump: false,
        mark_exact: false,
        visual_replace: false,
        turn: None,
        changing: false,
    }
}

/// Switches and numbers that the user sets.
#[derive(Copy, Clone, Debug, PartialEq, Eq, Structural)]
pub struct Options {
    pub presentation: bool,
    pub spell: bool,
    pub numbers: bool,
    pub relative_numbers: bool,
    pub reading: bool,
    pub reading_width: usize,
    pub paragraph_dim: bool,
    pub textwidth: usize,
    pub autonumber: bool,
    /// 0 none, 1 states, 2 transitions.
    pub underline: u8,
    pub all_dates: bool,
    pub conceal: bool,
}

/// A key map of the user's.
pub struct KeyMap {
    pub mode: String,
    pub lhs: Vec<String>,
    pub rhs: String,
}

#[verifier::ext_equal]
pub struct KeyMapV {
    pub mode: Seq<char>,
    pub lhs: Seq<Seq<char>>,
    pub rhs: Seq<char>,
}

impl View for KeyMap {
    type V = KeyMapV;

    open spec fn view(&self) -> KeyMapV {
        KeyMapV { mode: self.mode@, lhs: crate::fold::views(self.lhs@), rhs: self.rhs@ }
    }
}

/// A key that waits to be fed to the editor, out of a macro or a key map, or
/// the end of either.
pub enum Feed {
    MacroKey(String),
    MapKey(String),
    MacroEnd,
    MapEnd,
    /// A key for a mode's own handling, past the key maps.
    Rest(Mode, String),
    /// A key that was typed while recording, to be recorded once all that it
    /// set off is done; with the register that was recorded into.
    Typed(String, Option<char>),
}

#[verifier::ext_equal]
pub enum FeedV {
    MacroKey(Seq<char>),
    MapKey(Seq<char>),
    MacroEnd,
    MapEnd,
    Rest(Mode, Seq<char>),
    Typed(Seq<char>, Option<char>),
}

impl View for Feed {
    type V = FeedV;

    open spec fn view(&self) -> FeedV {
        match self {
            Feed::MacroKey(k) => FeedV::MacroKey(k@),
            Feed::MapKey(k) => FeedV::MapKey(k@),
            Feed::MacroEnd => FeedV::MacroEnd,
            Feed::MapEnd => FeedV::MapEnd,
            Feed::Rest(m, k) => FeedV::Rest(*m, k@),
            Feed::Typed(k, r) => FeedV::Typed(k@, *r),
        }
    }
}

/// What the shell around the editor has to do after a key.
pub enum Action {
    Nothing,
    Quit,
    /// Ask for an ex command and run it.
    AskCommand,
    /// Ask for a search pattern.
    AskSearch(Direction),
    /// Ask for an arithmetic expression and insert its value.
    AskExpression,
    /// Read a key and take the suggestion with that number.
    AskSuggestion,
    /// Look the word under the cursor up.
    Lookup,
    /// Open the glyph picker and insert the choice.
    Pick(InitialTab),
    /// Move the cursor by rows of the screen.
    StepRows { down: bool, count: usize },
    /// Add a word to the personal dictionary.
    AddWord(String),
    /// The layout changed: clear the screen and draw it anew.
    Relayout,
    /// Save, minding colours, and quit when that worked.
    SaveQuit,
    /// Save, minding colours.
    Save,
    /// Toggle the checkbox with a time stamp.
    Checkbox,
    Encrypt { whole: bool },
    Decrypt { whole: bool },
    Rekey,
    Export(String),
    /// Hand a path or URL to the system's opener.
    Open(String),
    Calendar,
    /// Pick colours for a byte range.
    Color { lo: usize, hi: usize },
    /// Pick a font for a byte range.
    Font { lo: usize, hi: usize },
    Cheatsheet,
    Redraw,
    /// A command for the shell alone, by its name and argument.
    Shell(ShellCommand, String),
}

/// Commands whose work is done outside the editor.
#[derive(Copy, Clone, Debug, PartialEq, Eq, Structural)]
pub enum ShellCommand {
    /// Open the file with that path.
    EditFile,
    /// Read the file again; forced with a `!`.
    ReloadFile,
    /// Read the file with that path into the text.
    ReadFile,
    /// Write the text to that path.
    SaveAs,
    SaveAbbreviations,
    /// Start the spelling checker and count the words found.
    SpellWords,
    /// Start the spelling checker and name its language.
    SpellFlagged,
    /// Start the spelling checker for that language.
    SpellQuick,
    /// Set the language of the spelling checker.
    SpellLang,
    Help,
    Config,
    Registers,
    Keys,
    Maps,
    /// Set the language of the highlighting, when it is known.
    Syntax,
    /// List the themes, or set that one.
    Theme,
    /// Ask the assistant for a change to the text.
    Assist,
    Chat,
}

#[verifier::ext_equal]
pub enum ActionV {
    Nothing,
    Quit,
    AskCommand,
    AskSearch(Direction),
    AskExpression,
    AskSuggestion,
    Lookup,
    Pick(InitialTab),
    StepRows { down: bool, count: int },
    AddWord(Seq<char>),
    Relayout,
    SaveQuit,
    Save,
    Checkbox,
    Encrypt { whole: bool },
    Decrypt { whole: bool },
    Rekey,
    Export(Seq<char>),
    Open(Seq<char>),
    Calendar,
    Color { lo: int, hi: int },
    Font { lo: int, hi: int },
    Cheatsheet,
    Redraw,
    Shell(ShellCommand, Seq<char>),
}

impl View for Action {
    type V = ActionV;

    open spec fn view(&self) -> ActionV {
        match self {
            Action::Nothing => ActionV::Nothing,
            Action::Quit => ActionV::Quit,
            Action::AskCommand => ActionV::AskCommand,
            Action::AskSearch(d) => ActionV::AskSearch(*d),
            Action::AskExpression => ActionV::AskExpression,
            Action::AskSuggestion => ActionV::AskSuggestion,
            Action::Lookup => ActionV::Lookup,
            Action::Pick(t) => ActionV::Pick(*t),
            Action::StepRows { down, count } => ActionV::StepRows {
                down: *down,
                count: *count as int,
            },
            Action::AddWord(w) => ActionV::AddWord(w@),
            Action::Relayout => ActionV::Relayout,
            Action::SaveQuit => ActionV::SaveQuit,
            Action::Save => ActionV::Save,
            Action::Checkbox => ActionV::Checkbox,
            Action::Encrypt { whole } => ActionV::Encrypt { whole: *whole },
            Action::Decrypt { whole } => ActionV::Decrypt { whole: *whole },
            Action::Rekey => ActionV::Rekey,
            Action::Export(f) => ActionV::Export(f@),
            Action::Open(p) => ActionV::Open(p@),
            Action::Calendar => ActionV::Calendar,
            Action::Color { lo, hi } => ActionV::Color { lo: *lo as int, hi: *hi as int },
            Action::Font { lo, hi } => ActionV::Font { lo: *lo as int, hi: *hi as int },
            Action::Cheatsheet => ActionV::Cheatsheet,
            Action::Redraw => ActionV::Redraw,
            Action::Shell(c, s) => ActionV::Shell(*c, s@),
        }
    }
}

pub struct Editor {
    pub buf: Buffer,
    pub mode: Mode,
    /// Line of the cursor.
    pub cur_line: usize,
    /// Byte offset of the cursor within its line.
    pub cur_col: usize,
    /// Column that vertical motion tries to keep.
    pub want_col: usize,
    pub scroll: usize,
    /// Message in the status line, with its colour.
    pub status: Option<(String, u8)>,
    pub cols: u16,
    pub rows: u16,
    /// Left edge, width and height of the text pane.
    pub pane_x: u16,
    pub pane_w: u16,
    pub pane_h: u16,
    pub pending: Pending,
    pub regs: Registers,
    pub search: SearchState,
    /// Where the Visual selection started, as a byte offset, a line and a
    /// column.
    pub visual_anchor: usize,
    pub visual_anchor_line: usize,
    pub visual_anchor_col: usize,
    /// Display columns of a block selection.
    pub vblock_anchor_vcol: usize,
    pub vblock_cur_vcol: usize,
    pub block_insert: Option<BlockInsert>,
    pub last_change: Option<LastChange>,
    /// What is typed is captured for `.`.
    pub capturing_insert: bool,
    pub captured_insert: String,
    pub prefixes: Prefixes,
    pub options: Options,
    pub spell_lang: String,
    /// The text changed since the spelling was last looked at.
    pub spell_stale: bool,
    /// Misspelt words, by their place in the text.
    pub misspellings: Vec<MisspellRange>,
    /// Abbreviations and what they stand for.
    pub abbrev: Vec<(String, String)>,
    pub theme_name: String,
    /// Register that is being recorded into.
    pub recording: Option<char>,
    pub last_macro: Option<char>,
    pub recording_buf: String,
    /// Macros that are playing, one inside the other.
    pub replay_depth: usize,
    pub marks: Marks,
    pub keymaps: Vec<KeyMap>,
    /// First key of a two-key map.
    pub map_pending: Option<String>,
    pub map_depth: usize,
    pub folds: Folds,
    /// Pattern of the show/hide filter, and whether it shows.
    pub showhide: Option<(String, bool)>,
    /// Calendar that events go to.
    pub calendar: Option<String>,
    /// Name of the assistant, and of the command that asks it.
    pub assistant: String,
    /// The file is kept encrypted.
    pub encrypted: bool,
    /// Keys to be fed to the editor, the next one last.
    pub feed: Vec<Feed>,
}

/// Model of an [`Editor`].
#[verifier::ext_equal]
pub struct EdV {
    pub buf: BufV,
    pub mode: Mode,
    pub line: int,
    pub col: int,
    pub want: int,
    pub scroll: int,
    pub status: Option<(Seq<char>, u8)>,
    pub cols: u16,
    pub rows: u16,
    pub pane_x: u16,
    pub pane_w: u16,
    pub pane_h: u16,
    pub pending: Pending,
    pub regs: RegsV,
    pub search: SearchV,
    pub anchor: int,
    pub anchor_line: int,
    pub anchor_col: int,
    pub vb_anchor: int,
    pub vb_cur: int,
    pub block: Option<BlockV>,
    pub last: Option<LastChangeV>,
    pub capturing: bool,
    pub captured: Seq<char>,
    pub prefixes: Prefixes,
    pub options: Options,
    pub spell_lang: Seq<char>,
    pub spell_stale: bool,
    pub missp: Seq<MisspellV>,
    pub abbrev: Seq<(Seq<char>, Seq<char>)>,
    pub theme: Seq<char>,
    pub recording: Option<char>,
    pub last_macro: Option<char>,
    pub recorded: Seq<char>,
    pub replay_depth: int,
    pub marks: Map<char, int>,
    pub keymaps: Seq<KeyMapV>,
    pub map_pending: Option<Seq<char>>,
    pub map_depth: int,
    pub folds: FoldsV,
    pub showhide: Option<(Seq<char>, bool)>,
    pub calendar: Option<Seq<char>>,
    pub assistant: Seq<char>,
    pub encrypted: bool,
    pub feed: Seq<FeedV>,
}

pub open spec fn status_opt(s: Option<(String, u8)>) -> Option<(Seq<char>, u8)> {
    match s {
        Some((m, c)) => Some((m@, c)),
        None => None,
    }
}

pub open spec fn showhide_opt(s: Option<(String, bool)>) -> Option<(Seq<char>, bool)> {
    match s {
        Some((m, b)) => Some((m@, b)),
        None => None,
    }
}

pub open spec fn feed_view(f: Seq<Feed>) -> Seq<FeedV> {
    Seq::new(f.len(), |i: int| f[i]@)
}

pub open spec fn maps_view(m: Seq<KeyMap>) -> Seq<KeyMapV> {
    Seq::new(m.len(), |i: int| m[i]@)
}

pub open spec fn abbrev_view(a: Seq<(String, String)>) -> Seq<(Seq<char>, Seq<char>)> {
    Seq::new(a.len(), |i: int| (a[i].0@, a[i].1@))
}

pub open spec fn missp_view(m: Seq<MisspellRange>) -> Seq<MisspellV> {
    Seq::new(m.len(), |i: int| m[i]@)
}

impl View for Editor {
    type V = EdV;

    open spec fn view(&self) -> EdV {
        EdV {
            buf: self.buf@,
            mode: self.mode,
            line: self.cur_line as int,
            col: self.cur_col as int,
            want: self.want_col as int,
            scroll: self.scroll as int,
            status: status_opt(self.status),
            cols: self.cols,
            rows: self.rows,
            pane_x: self.pane_x,
            pane_w: self.pane_w,
            pane_h: self.pane_h,
            pending: self.pending,
            regs: self.regs@,
            search: self.search@,
            anchor: self.visual_anchor as int,
            anchor_line: self.visual_anchor_line as int,
            anchor_col: self.visual_anchor_col as int,
            vb_anchor: self.vblock_anchor_vcol as int,
            vb_cur: self.vblock_cur_vcol as int,
            block: block_opt(self.block_insert),
            last: change_opt(self.last_change),
            capturing: self.capturing_insert,
            captured: self.captured_insert@,
            prefixes: self.prefixes,
            options: self.options,
            spell_lang: self.spell_lang@,
            spell_stale: self.spell_stale,
            missp: missp_view(self.misspellings@),
            abbrev: abbrev_view(self.abbrev@),
            theme: self.theme_name@,
            recording: self.recording,
            last_macro: self.last_macro,
            recorded: self.recording_buf@,
            replay_depth: self.replay_depth as int,
            marks: self.marks@,
            keymaps: maps_view(self.keymaps@),
            map_pending: buffer::str_opt(self.map_pending),
            map_depth: self.map_depth as int,
            folds: self.folds@,
            showhide: showhide_opt(self.showhide),
            calendar: buffer::str_opt(self.calendar),
            assistant: self.assistant@,
            encrypted: self.encrypted,
            feed: feed_view(self.feed@),
        }
    }
}

/// A byte offset limited to the text and rounded down to a character.
pub open spec fn legal(t: Seq<char>, b: int) -> int {
    text::floor(
        t,
        if b < 0 {
            0
        } else if b > text::blen(t) {
            text::blen(t)
        } else {
            b
        },
    )
}

pub open spec fn min(a: int, b: int) -> int {
    if a <= b {
        a
    } else {
        b
    }
}

pub open spec fn max(a: int, b: int) -> int {
    if a >= b {
        a
    } else {
        b
    }
}

/// `a - b`, and no less than 0.
pub open spec fn minus(a: int, b: int) -> int {
    if a >= b {
        a - b
    } else {
        0
    }
}

/// `a + b`, and no more than a `usize` can hold.
pub open spec fn plus(a: int, b: int) -> int {
    crate::cols::sat(a + b)
}

/// A HyperList by its file kind.
pub open spec fn is_hl(kind: buffer::FileKind) -> bool {
    match kind {
        buffer::FileKind::Source(s) => s@ == "hl"@ || s@ == "woim"@,
        _ => false,
    }
}

impl EdV {
    pub open spec fn text(self) -> Seq<char> {
        self.buf.text
    }

    /// Byte offset of the cursor.
    pub open spec fn cursor(self) -> int {
        lines::line_off(self.buf.text, self.line) + self.col
    }

    pub open spec fn line_text(self, k: int) -> Seq<char> {
        lines::line_text(self.buf.text, k)
    }

    /// Length of the cursor's line in bytes.
    pub open spec fn line_len(self) -> int {
        text::blen(self.line_text(self.line))
    }

    pub open spec fn line_count(self) -> int {
        lines::line_count(self.buf.text)
    }

    /// Last line of the text.
    pub open spec fn last_line(self) -> int {
        lines::line_count(self.buf.text) - 1
    }

    pub open spec fn all_lines(self) -> Seq<Seq<char>> {
        Seq::new(
            lines::line_count(self.buf.text) as nat,
            |k: int| lines::line_text(self.buf.text, k),
        )
    }

    pub open spec fn say(self, msg: Seq<char>, color: u8) -> EdV {
        EdV { status: Some((msg, color)), ..self }
    }

    pub open spec fn clear_pending(self) -> EdV {
        EdV { pending: no_pending(), ..self }
    }

    /// Replaces a range of bytes. The range is limited to the text and
    /// rounded to characters. The folds stay with their lines.
    pub open spec fn edit(self, a: int, b: int, r: Seq<char>) -> EdV {
        let t = self.buf.text;
        let lo = legal(t, a);
        let hi = max(lo, legal(t, b));
        EdV {
            buf: self.buf.apply(lo, hi, r),
            folds: self.folds.follow(t, lo, hi, r),
            ..self
        }
    }

    /// The cursor at a line and column, rounded down to a character.
    pub open spec fn place(self, line: int, col: int) -> EdV {
        let start = lines::line_off(self.buf.text, line);
        EdV { line, col: legal(self.buf.text, start + col) - start, ..self }
    }

    /// The column is also the one to keep.
    pub open spec fn keep(self) -> EdV {
        EdV { want: self.col, ..self }
    }

    /// Where the mode lets the cursor stand at most on the line.
    pub open spec fn col_cap(self, line: int) -> int {
        let n = text::blen(self.line_text(line));
        if self.mode is Insert || self.mode is Replace {
            n
        } else {
            minus(n, 1)
        }
    }

    /// The cursor within the limits of its line.
    pub open spec fn clamp(self) -> EdV {
        let l = self.line_text(self.line);
        EdV { col: text::floor(l, min(self.col, self.col_cap(self.line))), ..self }
    }

    /// The cursor at a byte offset, as far as its line and the mode allow.
    pub open spec fn goto(self, b: int) -> EdV {
        let t = self.buf.text;
        let p = min(b, text::blen(t));
        let k = lines::line_at(t, p);
        EdV { line: k, col: p - lines::line_off(t, k), ..self }.clamp().keep()
    }

    /// The cursor at a byte offset whatever the mode.
    pub open spec fn land(self, b: int) -> EdV {
        let t = self.buf.text;
        let p = legal(t, b);
        let k = lines::line_at(t, p);
        EdV { line: k, col: p - lines::line_off(t, k), ..self }.keep()
    }

    /// Tab stop of the buffer.
    pub open spec fn tabstop(self) -> int {
        if is_hl(self.buf.kind) {
            3
        } else {
            8
        }
    }

    pub open spec fn enter_insert(self) -> EdV {
        EdV {
            mode: Mode::Insert,
            capturing: true,
            captured: Seq::empty(),
            prefixes: Prefixes { changing: false, ..self.prefixes },
            ..self
        }
    }

    /// An operator's change becomes the last one. What is typed after a change
    /// operator belongs to it.
    pub open spec fn remember(
        self,
        op: char,
        motion: ChangeMotionV,
        count: int,
        register: Option<char>,
    ) -> EdV {
        EdV {
            last: Some(
                LastChangeV::Op { op, motion, count, register, insert_text: Seq::empty() },
            ),
            prefixes: Prefixes { changing: op == 'c', ..self.prefixes },
            ..self
        }
    }

    /// After a change in Replace mode: it joins those before it in the same
    /// stay, so that one undo takes them all back.
    pub open spec fn joined(self) -> EdV {
        match self.prefixes.turn {
            Some(p) => EdV { buf: self.buf.join(p as int), ..self },
            None => self,
        }
    }

    /// The step at the head is the one that further changes join.
    pub open spec fn keep_turn(self) -> EdV {
        EdV {
            prefixes: Prefixes { turn: step_at(self.buf.head), ..self.prefixes },
            ..self
        }
    }

    /// After a key in Replace mode, `was` being the head before it.
    #[verifier::opaque]
    pub open spec fn in_turn(self, was: Option<int>) -> EdV {
        if self.buf.head == was {
            self
        } else {
            self.joined().keep_turn()
        }
    }

    pub open spec fn enter_replace(self) -> EdV {
        EdV {
            mode: Mode::Replace,
            capturing: true,
            captured: Seq::empty(),
            prefixes: Prefixes { turn: None, changing: false, ..self.prefixes },
            ..self
        }
    }

    pub open spec fn capture(self, s: Seq<char>) -> EdV {
        if self.capturing {
            EdV { captured: self.captured + s, ..self }
        } else {
            self
        }
    }

    /// A character taken out again right after it was typed leaves what is
    /// captured, too.
    pub open spec fn uncapture(self, c: char) -> EdV {
        if self.capturing && self.captured.len() > 0 && self.captured.last() == c {
            EdV { captured: self.captured.drop_last(), ..self }
        } else {
            self
        }
    }

    pub open spec fn close_undo(self) -> EdV {
        EdV { buf: self.buf.end(), ..self }
    }

    pub open spec fn open_undo(self) -> EdV {
        EdV { buf: self.buf.begin(), ..self }
    }
}

impl Editor {
    /// The parts are sound; the cursor may be anywhere.
    pub open spec fn ok(&self) -> bool {
        &&& self.buf.wf()
        &&& self.buf@.depth <= 1
        &&& self.folds.wf()
    }

    /// The parts are sound, no compound is open and the cursor stands at a
    /// character or at the end of the text.
    pub open spec fn wf(&self) -> bool {
        &&& self.ok()
        &&& self.buf@.calm()
        &&& text::bd(self@.buf.text, self@.cursor())
    }
}

} // verus!
