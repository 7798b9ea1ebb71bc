//! Starting the editor: arguments, the first state, and where to begin.

use vstd::prelude::*;
use vstd::string::*;
use crate::buffer;
use crate::buffer::{BufV, Buffer, FileKind};
use crate::chars;
use crate::config::{RcConfig, RcV, SessionEntry};
use crate::editor::cursor;
use crate::editor::state;
use crate::editor::state::{Editor, EdV, Options, Pending, Prefixes};
use crate::fold;
use crate::fold::{Folds, FoldsV};
use crate::lines;
use crate::marks::Marks;
use crate::mode::Mode;
use crate::register::{Registers, RegsV};
use crate::search;
use crate::search::SearchState;
use crate::strs;
use crate::strs::{cat3, dec, parse_number, starts_with, strip_prefix};
use crate::text;
use crate::text::{byte_len, chars_of, offset_of, same};

verus! {

// ── Arguments ───────────────────────────────────────────────────────────

/// What the command line asks for.
pub struct Args {
    /// Line to start on, counted from 1.
    pub line: Option<usize>,
    /// Column to start at, in characters counted from 1.
    pub col: Option<usize>,
    pub insert: bool,
    pub path: Option<String>,
    pub theme: Option<String>,
    pub no_spell: bool,
    /// Format to export to, without starting the editor.
    pub export: Option<String>,
}

#[verifier::ext_equal]
pub struct ArgsV {
    pub line: Option<int>,
    pub col: Option<int>,
    pub insert: bool,
    pub path: Option<Seq<char>>,
    pub theme: Option<Seq<char>>,
    pub no_spell: bool,
    pub export: Option<Seq<char>>,
}

impl View for Args {
    type V = ArgsV;

    open spec fn view(&self) -> ArgsV {
        ArgsV {
            line: buffer::int_opt(self.line),
            col: buffer::int_opt(self.col),
            insert: self.insert,
            path: buffer::str_opt(self.path),
            theme: buffer::str_opt(self.theme),
            no_spell: self.no_spell,
            export: buffer::str_opt(self.export),
        }
    }
}

pub open spec fn no_args() -> ArgsV {
    ArgsV {
        line: None,
        col: None,
        insert: false,
        path: None,
        theme: None,
        no_spell: false,
        export: None,
    }
}

/// A number in an argument.
pub open spec fn count_in(s: Seq<char>) -> Option<int> {
    strs::plus_number(s, usize::MAX as int)
}

/// The number in `s`, or what there was before.
pub open spec fn count_or(s: Seq<char>, before: Option<int>) -> Option<int> {
    if count_in(s) is Some {
        count_in(s)
    } else {
        before
    }
}

impl ArgsV {
    /// One more argument, and the one behind it where there is one; with how
    /// many were used.
    pub open spec fn take(self, a: Seq<char>, next: Option<Seq<char>>) -> (ArgsV, int) {
        if let Some(n) = strs::after_prefix(a, "+"@) {
            (ArgsV { line: count_or(n, self.line), ..self }, 1)
        } else if a == "--theme"@ && next is Some {
            (ArgsV { theme: next, ..self }, 2)
        } else if let Some(t) = strs::after_prefix(a, "--theme="@) {
            (ArgsV { theme: Some(t), ..self }, 1)
        } else if a == "--col"@ && next is Some {
            (ArgsV { col: count_or(next->0, self.col), ..self }, 2)
        } else if let Some(n) = strs::after_prefix(a, "--col="@) {
            (ArgsV { col: count_or(n, self.col), ..self }, 1)
        } else if a == "--insert"@ {
            (ArgsV { insert: true, ..self }, 1)
        } else {
            self.take_rest(a, next)
        }
    }

    pub open spec fn take_rest(self, a: Seq<char>, next: Option<Seq<char>>) -> (ArgsV, int) {
        if a == "--export"@ && next is Some {
            (ArgsV { export: next, ..self }, 2)
        } else if let Some(f) = strs::after_prefix(a, "--export="@) {
            (ArgsV { export: Some(f), ..self }, 1)
        } else if a == "--pdf"@ {
            (ArgsV { export: Some("pdf"@), ..self }, 1)
        } else if a == "--no-spell"@ {
            (ArgsV { no_spell: true, ..self }, 1)
        } else if self.path is None {
            (ArgsV { path: Some(a), ..self }, 1)
        } else {
            (self, 1)
        }
    }
}

pub open spec fn arg_at(args: Seq<Seq<char>>, i: int) -> Option<Seq<char>> {
    if 0 <= i < args.len() {
        Some(args[i])
    } else {
        None
    }
}

/// The arguments from number `i` on, added to those before.
pub open spec fn args_from(args: Seq<Seq<char>>, i: int, a: ArgsV) -> ArgsV
    decreases args.len() - i,
{
    if i < 0 || i >= args.len() {
        a
    } else {
        let (b, n) = a.take(args[i], arg_at(args, i + 1));
        if n == 2 {
            args_from(args, i + 2, b)
        } else {
            args_from(args, i + 1, b)
        }
    }
}

fn count_arg(s: &str, before: Option<usize>) -> (r: Option<usize>)
    ensures
        buffer::int_opt(r) == count_or(s@, buffer::int_opt(before)),
{
    match parse_number(s, usize::MAX as u64) {
        Some(n) => Some(n as usize),
        None => before,
    }
}

fn copy_opt(s: Option<&String>) -> (r: Option<String>)
    ensures
        buffer::str_opt(r) == match s {
            Some(x) => Some(x@),
            None => None,
        },
{
    match s {
        Some(x) => Some(x.clone()),
        None => None,
    }
}

pub open spec fn ref_opt(s: Option<&String>) -> Option<Seq<char>> {
    match s {
        Some(x) => Some(x@),
        None => None,
    }
}

impl Args {
    fn take(&mut self, a: &str, next: Option<&String>) -> (n: usize)
        ensures
            (final(self)@, n as int) == old(self)@.take(a@, ref_opt(next)),
            n == 1 || n == 2,
    {
        if let Some(n) = strip_prefix(a, "+") {
            self.line = count_arg(&n, self.line);
            return 1;
        }
        if same(a, "--theme") && next.is_some() {
            self.theme = copy_opt(next);
            return 2;
        }
        if let Some(t) = strip_prefix(a, "--theme=") {
            self.theme = Some(t);
            return 1;
        }
        if same(a, "--col") {
            if let Some(x) = next {
                self.col = count_arg(x, self.col);
                return 2;
            }
        }
        if let Some(n) = strip_prefix(a, "--col=") {
            self.col = count_arg(&n, self.col);
            return 1;
        }
        if same(a, "--insert") {
            self.insert = true;
            return 1;
        }
        self.take_rest(a, next)
    }

    fn take_rest(&mut self, a: &str, next: Option<&String>) -> (n: usize)
        ensures
            (final(self)@, n as int) == old(self)@.take_rest(a@, ref_opt(next)),
            n == 1 || n == 2,
    {
        if same(a, "--export") && next.is_some() {
            self.export = copy_opt(next);
            return 2;
        }
        if let Some(f) = strip_prefix(a, "--export=") {
            self.export = Some(f);
        } else if same(a, "--pdf") {
            self.export = Some("pdf".to_owned());
        } else if same(a, "--no-spell") {
            self.no_spell = true;
        } else if self.path.is_none() {
            self.path = Some(a.to_owned());
        }
        1
    }

    /// Reads the arguments behind the name of the program.
    pub fn parse(args: &Vec<String>) -> (a: Args)
        ensures
            a@ == args_from(fold::views(args@), 0, no_args()),
    {
        let ghost av = fold::views(args@);
        let mut a: Args = Args {
            line: None,
            col: None,
            insert: false,
            path: None,
            theme: None,
            no_spell: false,
            export: None,
        };
        let mut i: usize = 0;
        while i < args.len()
            invariant
                i <= args.len(),
                av == fold::views(args@),
                args_from(av, 0, no_args()) == args_from(av, i as int, a@),
            decreases args.len() - i,
        {
            assert(av[i as int] == args@[i as int]@);
            let next: Option<&String> = if args.len() - i > 1 {
                Some(&args[i + 1])
            } else {
                None
            };
            assert(ref_opt(next) == arg_at(av, i + 1));
            let n: usize = a.take(&args[i], next);
            i = if n == 2 && args.len() - i > 1 {
                i + 2
            } else {
                i + 1
            };
        }
        a
    }
}

// ── The first state ─────────────────────────────────────────────────────

pub open spec fn some_or(a: Option<Seq<char>>, b: Seq<char>) -> Seq<char> {
    match a {
        Some(s) => s,
        None => b,
    }
}

/// The editor with a text before it, in a terminal of that size.
pub open spec fn first_state(
    buf: BufV,
    cols: u16,
    rows: u16,
    rc: RcV,
    theme: Option<Seq<char>>,
    regs: RegsV,
    abbrev: Seq<(Seq<char>, Seq<char>)>,
    assistant: Seq<char>,
) -> EdV {
    EdV {
        buf,
        mode: Mode::Normal,
        line: 0,
        col: 0,
        want: 0,
        scroll: 0,
        status: None,
        cols,
        rows,
        pane_x: 1,
        pane_w: cols,
        pane_h: state::minus(rows as int, 2) as u16,
        pending: state::no_pending(),
        regs,
        search: search::no_search(),
        anchor: 0,
        anchor_line: 0,
        anchor_col: 0,
        vb_anchor: 0,
        vb_cur: 0,
        block: None,
        last: None,
        capturing: false,
        captured: Seq::empty(),
        prefixes: state::no_prefixes(),
        options: Options {
            presentation: false,
            spell: false,
            numbers: rc.number,
            relative_numbers: rc.relative,
            reading: rc.reading,
            reading_width: rc.width as usize,
            paragraph_dim: rc.dim,
            textwidth: 0,
            autonumber: false,
            underline: 0,
            all_dates: rc.alldates,
            conceal: false,
        },
        spell_lang: some_or(rc.lang, "en_US"@),
        spell_stale: false,
        missp: Seq::empty(),
        abbrev,
        theme: some_or(
            if theme is Some {
                theme
            } else {
                rc.theme
            },
            "monokai"@,
        ),
        recording: None,
        last_macro: None,
        recorded: Seq::empty(),
        replay_depth: 0,
        marks: Map::empty(),
        keymaps: rc.keymaps,
        map_pending: None,
        map_depth: 0,
        folds: FoldsV::none(),
        showhide: None,
        calendar: rc.calendar,
        assistant,
        encrypted: false,
        feed: Seq::empty(),
    }.relayout()
}

/// A file that is kept encrypted: its text says so, or its name starts with a
/// dot.
pub open spec fn kept_encrypted(name: Seq<char>, content: Seq<char>) -> bool {
    strs::prefixed(content, "ENC:"@) || strs::prefixed(name, "."@)
}

/// Whether a file is kept encrypted, by its name and what it holds.
pub fn is_encrypted_dotfile(name: &str, content: &str) -> (r: bool)
    ensures
        r == kept_encrypted(name@, content@),
{
    starts_with(content, "ENC:") || starts_with(name, ".")
}

/// Whether the spelling checker starts by itself: for mail, or when the
/// settings say so.
pub fn auto_spell(buf: &Buffer, rc_spell: bool, suppressed: bool) -> (r: bool)
    ensures
        r == (!suppressed && (buf@.kind is Email || rc_spell)),
{
    !suppressed && (matches!(buf.kind_ref(), FileKind::Email) || rc_spell)
}

fn string_or(a: Option<String>, b: &str) -> (s: String)
    ensures
        s@ == some_or(buffer::str_opt(a), b@),
{
    match a {
        Some(s) => s,
        None => b.to_owned(),
    }
}

impl EdV {
    /// Where the command line asks to start.
    pub open spec fn started_at(self, line: Option<int>, col: Option<int>, insert: bool) -> EdV {
        let s = match line {
            Some(n) => if n > 0 {
                EdV { line: state::min(n - 1, self.last_line()), col: 0, want: 0, ..self }
            } else {
                self
            },
            None => self,
        };
        let l = s.line_text(s.line);
        let t = match col {
            Some(c) => if c > 0 {
                let b = text::off(l, state::min(c - 1, l.len() as int));
                EdV { col: b, want: b, ..s }
            } else {
                s
            },
            None => s,
        };
        if insert {
            EdV { mode: Mode::Insert, ..t }
        } else {
            t
        }
    }

    /// The file no longer reaches to where it was left.
    pub open spec fn ends_before(self, e: SessionEntry) -> bool {
        let k = self.last_line();
        e.line > k || (e.line == k && e.col > text::blen(self.line_text(k)))
    }

    /// Where the file was left; as it is when the file ends before that.
    pub open spec fn resumed(self, e: SessionEntry) -> EdV {
        let l = self.line_text(e.line as int);
        let c = text::floor(l, state::min(e.col as int, text::blen(l)));
        if self.ends_before(e) {
            self
        } else {
            EdV {
                line: e.line as int,
                col: c,
                want: c,
                scroll: state::min(e.scroll as int, self.last_line()),
                ..self
            }
        }
    }

    /// A text that was decrypted, all folds closed; its file is kept
    /// encrypted.
    pub open spec fn uncovered(self, b: BufV) -> EdV {
        let s = EdV { buf: b, line: 0, col: 0, want: 0, scroll: 0, encrypted: true, ..self };
        EdV { folds: s.folds.at_level(0, s.all_lines()), ..s }.say(
            " decrypted (folds collapsed)"@,
            46,
        )
    }
}

/// The prompt for a password at attempt `n`, counted from 0.
pub open spec fn password_prompt(n: int) -> Seq<char> {
    if n == 0 {
        "Password: "@
    } else {
        "Wrong — try again ("@ + strs::dec_of(n + 1) + "/3): "@
    }
}

pub fn password_label(n: usize) -> (s: String)
    requires
        n < usize::MAX,
    ensures
        s@ == password_prompt(n as int),
{
    if n == 0 {
        "Password: ".to_owned()
    } else {
        cat3("Wrong — try again (", &dec(n as u128 + 1), "/3): ")
    }
}

/// What the terminal sent.
pub enum Input {
    Resize,
    Paste(String),
    Key(String),
}

#[verifier::ext_equal]
pub enum InputV {
    Resize,
    Paste(Seq<char>),
    Key(Seq<char>),
}

impl View for Input {
    type V = InputV;

    open spec fn view(&self) -> InputV {
        match self {
            Input::Resize => InputV::Resize,
            Input::Paste(t) => InputV::Paste(t@),
            Input::Key(k) => InputV::Key(k@),
        }
    }
}

pub open spec fn input_of(k: Seq<char>) -> InputV {
    if k == "RESIZE"@ {
        InputV::Resize
    } else if let Some(t) = strs::after_prefix(k, "PASTE\0"@) {
        InputV::Paste(t)
    } else {
        InputV::Key(k)
    }
}

/// Reads what the terminal sent.
pub fn read_input(k: &str) -> (i: Input)
    ensures
        i@ == input_of(k@),
{
    if same(k, "RESIZE") {
        return Input::Resize;
    }
    match strip_prefix(k, "PASTE\0") {
        Some(t) => Input::Paste(t),
        None => Input::Key(k.to_owned()),
    }
}

impl Editor {
    /// The editor with a text before it.
    pub fn new(
        buf: Buffer,
        cols: u16,
        rows: u16,
        rc: RcConfig,
        theme: Option<String>,
        regs: Registers,
        abbrev: Vec<(String, String)>,
        assistant: String,
    ) -> (e: Editor)
        requires
            buf.wf(),
            buf@.calm(),
        ensures
            e.wf(),
            e@ == first_state(
                buf@,
                cols,
                rows,
                rc@,
                buffer::str_opt(theme),
                regs@,
                state::abbrev_view(abbrev@),
                assistant@,
            ),
    {
        let ghost want = first_state(
            buf@,
            cols,
            rows,
            rc@,
            buffer::str_opt(theme),
            regs@,
            state::abbrev_view(abbrev@),
            assistant@,
        );
        let name: Option<String> = if theme.is_some() {
            theme
        } else {
            rc.theme
        };
        let mut e = Editor {
            buf,
            mode: Mode::Normal,
            cur_line: 0,
            cur_col: 0,
            want_col: 0,
            scroll: 0,
            status: None,
            cols,
            rows,
            pane_x: 1,
            pane_w: cols,
            pane_h: if rows >= 2 {
                rows - 2
            } else {
                0
            },
            pending: Pending::none(),
            regs,
            search: SearchState::new(),
            visual_anchor: 0,
            visual_anchor_line: 0,
            visual_anchor_col: 0,
            vblock_anchor_vcol: 0,
            vblock_cur_vcol: 0,
            block_insert: None,
            last_change: None,
            capturing_insert: false,
            captured_insert: String::new(),
            prefixes: Prefixes {
                insert_register: false,
                z: false,
                bracket: None,
                leader: false,
                leader_sub: None,
                record: false,
                play: false,
                mark_set: false,
                mark_jump: false,
                mark_exact: false,
                visual_replace: false,
                turn: None,
                changing: false,
            },
            options: Options {
                presentation: false,
                spell: false,
                numbers: rc.number,
                relative_numbers: rc.relative_numbers,
                reading: rc.reading_mode,
                reading_width: rc.reading_width,
                paragraph_dim: rc.paragraph_dim,
                textwidth: 0,
                autonumber: false,
                underline: 0,
                all_dates: rc.alldates,
                conceal: false,
            },
            spell_lang: string_or(rc.spell_lang, "en_US"),
            spell_stale: false,
            misspellings: Vec::new(),
            abbrev,
            theme_name: string_or(name, "monokai"),
            recording: None,
            last_macro: None,
            recording_buf: String::new(),
            replay_depth: 0,
            marks: Marks::new(),
            keymaps: rc.keymaps,
            map_pending: None,
            map_depth: 0,
            folds: Folds::new(),
            showhide: None,
            calendar: rc.calendar,
            assistant,
            encrypted: false,
            feed: Vec::new(),
        };
        proof {
            cursor::lemma_line_off(e@.buf.text, 0);
            assert(e@.missp =~= Seq::empty());
            assert(e@.feed =~= Seq::empty());
            assert(e@.captured =~= Seq::empty());
            assert(e@.recorded =~= Seq::empty());
        }
        e.apply_layout();
        assert(e@ == want);
        e
    }

    /// Starts where the command line asks.
    pub fn start_at(&mut self, line: Option<usize>, col: Option<usize>, insert: bool)
        requires
            old(self).wf(),
        ensures
            final(self)@ == old(self)@.started_at(
                buffer::int_opt(line),
                buffer::int_opt(col),
                insert,
            ),
            final(self).wf(),
    {
        if let Some(n) = line {
            if n > 0 {
                let last: usize = self.buf.line_count() - 1;
                self.cur_line = if n - 1 <= last {
                    n - 1
                } else {
                    last
                };
                self.cur_col = 0;
                self.want_col = 0;
                proof {
                    cursor::lemma_line_off(self@.buf.text, self@.line);
                }
            }
        }
        if let Some(c) = col {
            if c > 0 {
                let v: Vec<char> = chars_of(&self.buf.line(self.cur_line));
                let i: usize = if c - 1 <= v.len() {
                    c - 1
                } else {
                    v.len()
                };
                let b: usize = offset_of(&v, i);
                proof {
                    let t = self@.buf.text;
                    lines::lemma_line_raw(t, self@.line);
                    text::lemma_at_off(t, lines::line_start(t, self@.line) + i);
                }
                self.cur_col = b;
                self.want_col = b;
            }
        }
        if insert {
            self.mode = Mode::Insert;
        }
    }

    /// Goes to where the file was left. Nothing happens when the file ends
    /// before that place.
    pub fn restore_session(&mut self, e: SessionEntry)
        requires
            old(self).wf(),
        ensures
            final(self)@ == old(self)@.resumed(e),
            final(self).wf(),
    {
        let last: usize = self.buf.line_count() - 1;
        if e.line > last || (e.line == last && e.col > byte_len(&self.buf.line(last))) {
            return;
        }
        self.cur_line = e.line;
        let n: usize = self.current_line_len();
        self.cur_col = if e.col <= n {
            e.col
        } else {
            n
        };
        self.scroll = if e.scroll <= last {
            e.scroll
        } else {
            last
        };
        self.snap_col_to_boundary();
        self.want_col = self.cur_col;
    }

    /// Where the file is left.
    pub fn session_entry(&self) -> (e: SessionEntry)
        ensures
            e.line == self@.line,
            e.col == self@.col,
            e.scroll == self@.scroll,
    {
        SessionEntry { line: self.cur_line, col: self.cur_col, scroll: self.scroll }
    }

    /// Takes a text that was decrypted.
    pub fn open_decrypted(&mut self, b: Buffer)
        requires
            old(self).wf(),
            b.wf(),
            b@.calm(),
        ensures
            final(self)@ == old(self)@.uncovered(b@),
            final(self).wf(),
    {
        self.buf = b;
        self.cur_line = 0;
        self.cur_col = 0;
        self.want_col = 0;
        self.scroll = 0;
        self.encrypted = true;
        let all: Vec<String> = self.all_lines();
        self.folds.set_level(0, &all);
        proof {
            cursor::lemma_line_off(self@.buf.text, 0);
        }
        self.set_status(" decrypted (folds collapsed)", 46);
    }

    /// Says that the password was wrong at attempt `n`, counted from 0.
    pub fn wrong_password(&mut self, n: usize)
        requires
            old(self).wf(),
            n < usize::MAX,
        ensures
            final(self)@ == old(self)@.say(
                " wrong password ("@ + strs::dec_of(n + 1) + " of 3)"@,
                196,
            ),
            final(self).wf(),
    {
        self.set_status(&cat3(" wrong password (", &dec(n as u128 + 1), " of 3)"), 196);
    }
}

/// What was left is where the file is taken up again, while the text is the
/// same.
pub proof fn law_session_resumes(s: EdV, e: SessionEntry)
    requires
        0 <= s.line <= s.last_line(),
        0 <= s.scroll <= s.last_line(),
        0 <= s.col <= s.line_len(),
        text::floor(s.line_text(s.line), s.col) == s.col,
        e.line == s.line,
        e.col == s.col,
        e.scroll == s.scroll,
    ensures
        s.resumed(e).line == s.line,
        s.resumed(e).col == s.col,
        s.resumed(e).scroll == s.scroll,
        s.resumed(e).buf == s.buf,
{
}

/// An option that takes a value may have it behind an equals sign or as the
/// next argument: both say the same. A PDF has an option of its own that says
/// what the general one would.
pub proof fn law_two_forms(a: ArgsV, v: Seq<char>, next: Option<Seq<char>>)
    ensures
        a.take("--theme="@ + v, next).0 == a.take("--theme"@, Some(v)).0,
        a.take("--col="@ + v, next).0 == a.take("--col"@, Some(v)).0,
        a.take("--export="@ + v, next).0 == a.take("--export"@, Some(v)).0,
        a.take("--pdf"@, next).0 == a.take("--export"@, Some("pdf"@)).0,
        a.take("--theme"@, Some(v)).0.theme == Some(v),
        a.take("--export"@, Some(v)).0.export == Some(v),
{
    lemma_options();
    let t = "--theme="@ + v;
    let k = "--col="@ + v;
    let e = "--export="@ + v;
    assert(t.take(8) =~= "--theme="@ && t.skip(8) =~= v);
    assert(k.take(6) =~= "--col="@ && k.skip(6) =~= v);
    assert(e.take(9) =~= "--export="@ && e.skip(9) =~= v);
    assert(t[0] == '-' && k[0] == '-' && e[0] == '-');
    assert(t[2] == 't' && k[2] == 'c' && e[2] == 'e' && t[7] == '=' && k[5] == '=' && e[8] == '=');
    lemma_no_prefix(t, "+"@, 0);
    lemma_no_prefix(k, "+"@, 0);
    lemma_no_prefix(e, "+"@, 0);
    lemma_no_prefix(k, "--theme="@, 2);
    lemma_no_prefix(e, "--theme="@, 2);
    lemma_no_prefix(e, "--col="@, 2);
    lemma_no_prefix("--theme"@, "+"@, 0);
    lemma_no_prefix("--col"@, "+"@, 0);
    lemma_no_prefix("--export"@, "+"@, 0);
    lemma_no_prefix("--pdf"@, "+"@, 0);
    lemma_no_prefix("--col"@, "--theme="@, 2);
    lemma_no_prefix("--export"@, "--theme="@, 2);
    lemma_no_prefix("--export"@, "--col="@, 2);
    lemma_no_prefix("--pdf"@, "--theme="@, 2);
    lemma_no_prefix("--pdf"@, "--col="@, 2);
    lemma_no_prefix("--pdf"@, "--export="@, 2);
}

proof fn lemma_no_prefix(s: Seq<char>, p: Seq<char>, i: int)
    requires
        0 <= i < p.len(),
        i < s.len() ==> s[i] != p[i],
    ensures
        strs::after_prefix(s, p) is None,
{
    if strs::prefixed(s, p) {
        assert(s.take(p.len() as int)[i] == s[i]);
    }
}

proof fn lemma_options()
    ensures
        "+"@.len() == 1 && "+"@[0] == '+',
        "--theme"@.len() == 7 && "--theme"@[0] == '-' && "--theme"@[2] == 't',
        "--theme="@.len() == 8 && "--theme="@[0] == '-' && "--theme="@[2] == 't',
        "--theme="@[7] == '=',
        "--col"@.len() == 5 && "--col"@[0] == '-' && "--col"@[2] == 'c',
        "--col="@.len() == 6 && "--col="@[0] == '-' && "--col="@[2] == 'c' && "--col="@[5] == '=',
        "--insert"@.len() == 8 && "--insert"@[0] == '-' && "--insert"@[2] == 'i',
        "--export"@.len() == 8 && "--export"@[0] == '-' && "--export"@[2] == 'e',
        "--export="@.len() == 9 && "--export="@[0] == '-' && "--export="@[2] == 'e',
        "--export="@[8] == '=',
        "--pdf"@.len() == 5 && "--pdf"@[0] == '-' && "--pdf"@[2] == 'p',
        "--no-spell"@.len() == 10 && "--no-spell"@[0] == '-' && "--no-spell"@[2] == 'n',
{
    reveal_strlit("+");
    reveal_strlit("--theme");
    reveal_strlit("--theme=");
    reveal_strlit("--col");
    reveal_strlit("--col=");
    reveal_strlit("--insert");
    reveal_strlit("--export");
    reveal_strlit("--export=");
    reveal_strlit("--pdf");
    reveal_strlit("--no-spell");
}

/// An argument that is no option names the file, the first one of them only,
/// and `+` with a number gives the line.
pub proof fn law_file_and_line(a: ArgsV, f: Seq<char>, next: Option<Seq<char>>, n: int)
    requires
        f.len() > 0,
        f[0] != '+' && f[0] != '-',
        0 <= n <= usize::MAX,
    ensures
        a.path is None ==> a.take(f, next) == (ArgsV { path: Some(f), ..a }, 1int),
        a.path is Some ==> a.take(f, next) == (a, 1int),
        a.take("+"@ + strs::dec_of(n), next) == (ArgsV { line: Some(n), ..a }, 1int),
{
    lemma_options();
    lemma_no_prefix(f, "+"@, 0);
    lemma_no_prefix(f, "--theme="@, 0);
    lemma_no_prefix(f, "--col="@, 0);
    lemma_no_prefix(f, "--export="@, 0);
    let p = "+"@ + strs::dec_of(n);
    assert(p.take(1) =~= "+"@);
    assert(p.skip(1) =~= strs::dec_of(n));
    strs::law_decimal(n, usize::MAX as int);
    strs::lemma_dec_value(n);
    assert(chars::is_digit(strs::dec_of(n)[0]));
}

/// Started at line `n` and column `c`, both counted from 1, the cursor stands
/// at that character of that line, where there is one.
pub proof fn law_started_at(s: EdV, n: int, c: int)
    requires
        1 <= n <= s.last_line() + 1,
        1 <= c <= s.line_text(n - 1).len() + 1,
    ensures
        ({
            let r = s.started_at(Some(n), Some(c), false);
            &&& r.line == n - 1
            &&& r.col == text::off(s.line_text(n - 1), c - 1)
            &&& r.want == r.col
            &&& r.mode == s.mode
            &&& r.buf == s.buf
            &&& s.started_at(Some(n), Some(c), true).mode is Insert
            &&& s.started_at(Some(n), None, false).col == 0
        }),
{
}

} // verus!
