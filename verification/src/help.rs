//! The index of what the editor can do, and the search in it.

use vstd::prelude::*;
use vstd::string::*;
use crate::chars;
use crate::chars::upper_char;
use crate::strs;
use crate::strs::{cat2, cat3, has_sub, trim};
use crate::text::{chars_of, piece, same};

verus! {

/// A row of the index: what it is about, what to type and what that does.
pub struct Entry {
    pub category: String,
    pub trigger: String,
    pub description: String,
}

/// Model of an [`Entry`].
#[verifier::ext_equal]
pub struct EntryV {
    pub category: Seq<char>,
    pub trigger: Seq<char>,
    pub description: Seq<char>,
}

impl View for Entry {
    type V = EntryV;

    open spec fn view(&self) -> EntryV {
        EntryV {
            category: self.category@,
            trigger: self.trigger@,
            description: self.description@,
        }
    }
}

pub open spec fn entries_view(v: Seq<Entry>) -> Seq<EntryV> {
    Seq::new(v.len(), |i: int| v[i]@)
}

pub open spec fn row(c: Seq<char>, t: Seq<char>, d: Seq<char>) -> EntryV {
    EntryV { category: c, trigger: t, description: d }
}

fn entry(c: &str, t: &str, d: &str) -> (e: Entry)
    ensures
        e@ == row(c@, t@, d@),
{
    Entry { category: c.to_owned(), trigger: t.to_owned(), description: d.to_owned() }
}

pub open spec fn about_motion() -> Seq<EntryV> {
    seq![
        row("Motion"@, "h j k l"@, "left / down / up / right (arrows too)"@),
        row("Motion"@, "0 ^ $"@, "line start / first non-blank / end (Home/End)"@),
        row("Motion"@, "gg G"@, "first / last line; 12G jumps to line 12"@),
        row("Motion"@, "w b e  W B E"@, "next/prev word, end of word; CAPS = WORD"@),
        row("Motion"@, "f F t T {c}"@, "jump on/before next/prev char on the line"@),
        row("Motion"@, "Ctrl-D Ctrl-U"@, "half-page scroll down/up (PgDn/PgUp full)"@),
        row("Motion"@, "n N"@, "next / previous search match"@),
        row("Motion"@, "* #"@, "search word under cursor forward / back"@),
        row("Motion"@, "{count}"@, "prefix any motion: 5j, 12G, 3w"@),
    ]
}

fn add_about_motion(v: &mut Vec<Entry>)
    ensures
        entries_view(final(v)@) == entries_view(old(v)@) + about_motion(),
{
    let ghost before = entries_view(v@);
    v.push(entry("Motion", "h j k l", "left / down / up / right (arrows too)"));
    v.push(entry("Motion", "0 ^ $", "line start / first non-blank / end (Home/End)"));
    v.push(entry("Motion", "gg G", "first / last line; 12G jumps to line 12"));
    v.push(entry("Motion", "w b e  W B E", "next/prev word, end of word; CAPS = WORD"));
    v.push(entry("Motion", "f F t T {c}", "jump on/before next/prev char on the line"));
    v.push(entry("Motion", "Ctrl-D Ctrl-U", "half-page scroll down/up (PgDn/PgUp full)"));
    v.push(entry("Motion", "n N", "next / previous search match"));
    v.push(entry("Motion", "* #", "search word under cursor forward / back"));
    v.push(entry("Motion", "{count}", "prefix any motion: 5j, 12G, 3w"));
    assert(entries_view(v@) =~= before + about_motion());
}

pub open spec fn about_insert() -> Seq<EntryV> {
    seq![
        row("Insert"@, "i a"@, "insert before / after cursor"@),
        row("Insert"@, "I A"@, "insert at line start / end"@),
        row("Insert"@, "o O"@, "open new line below / above"@),
        row("Insert"@, "s S"@, "substitute char / line and enter Insert"@),
        row("Insert"@, "Ctrl-Y Ctrl-E"@, "insert char from column on line above / below"@),
    ]
}

fn add_about_insert(v: &mut Vec<Entry>)
    ensures
        entries_view(final(v)@) == entries_view(old(v)@) + about_insert(),
{
    let ghost before = entries_view(v@);
    v.push(entry("Insert", "i a", "insert before / after cursor"));
    v.push(entry("Insert", "I A", "insert at line start / end"));
    v.push(entry("Insert", "o O", "open new line below / above"));
    v.push(entry("Insert", "s S", "substitute char / line and enter Insert"));
    v.push(entry("Insert", "Ctrl-Y Ctrl-E", "insert char from column on line above / below"));
    assert(entries_view(v@) =~= before + about_insert());
}

pub open spec fn about_operator() -> Seq<EntryV> {
    seq![
        row("Operator"@, "d c y > < gq"@, "delete/change/yank/indent/dedent/format + motion"@),
        row("Operator"@, "dd cc yy >> <<"@, "linewise (doubled operator)"@),
        row("Operator"@, "D C Y"@, "delete / change / yank to end of line"@),
        row("Text-obj"@, "iw aw  ip ap"@, "inner/around word, paragraph (after an operator)"@),
        row("Text-obj"@, "i\" a\"  i( a(  i{ a{"@, "inner/around quotes, brackets, braces (ci\", dap)"@),
    ]
}

fn add_about_operator(v: &mut Vec<Entry>)
    ensures
        entries_view(final(v)@) == entries_view(old(v)@) + about_operator(),
{
    let ghost before = entries_view(v@);
    v.push(entry("Operator", "d c y > < gq", "delete/change/yank/indent/dedent/format + motion"));
    v.push(entry("Operator", "dd cc yy >> <<", "linewise (doubled operator)"));
    v.push(entry("Operator", "D C Y", "delete / change / yank to end of line"));
    v.push(entry("Text-obj", "iw aw  ip ap", "inner/around word, paragraph (after an operator)"));
    v.push(entry("Text-obj", "i\" a\"  i( a(  i{ a{", "inner/around quotes, brackets, braces (ci\", dap)"));
    assert(entries_view(v@) =~= before + about_operator());
}

pub open spec fn about_edit() -> Seq<EntryV> {
    seq![
        row("Edit"@, "x X"@, "delete char forward / backward"@),
        row("Edit"@, "r{c}"@, "replace char under cursor"@),
        row("Edit"@, "J"@, "join line below"@),
        row("Edit"@, "~"@, "toggle case under cursor"@),
        row("Edit"@, "p P"@, "paste after / before"@),
        row("Edit"@, "Ctrl-A Ctrl-X"@, "increment / decrement number or ISO date"@),
        row("Edit"@, "Ctrl-Up Ctrl-Down"@, "swap current line up / down"@),
        row("Edit"@, "."@, "dot-repeat the last change"@),
    ]
}

fn add_about_edit(v: &mut Vec<Entry>)
    ensures
        entries_view(final(v)@) == entries_view(old(v)@) + about_edit(),
{
    let ghost before = entries_view(v@);
    v.push(entry("Edit", "x X", "delete char forward / backward"));
    v.push(entry("Edit", "r{c}", "replace char under cursor"));
    v.push(entry("Edit", "J", "join line below"));
    v.push(entry("Edit", "~", "toggle case under cursor"));
    v.push(entry("Edit", "p P", "paste after / before"));
    v.push(entry("Edit", "Ctrl-A Ctrl-X", "increment / decrement number or ISO date"));
    v.push(entry("Edit", "Ctrl-Up Ctrl-Down", "swap current line up / down"));
    v.push(entry("Edit", ".", "dot-repeat the last change"));
    assert(entries_view(v@) =~= before + about_edit());
}

pub open spec fn about_visual() -> Seq<EntryV> {
    seq![
        row("Visual"@, "v V Ctrl-v"@, "visual char / line / block; live selection stats"@),
        row("Register"@, "\"a..\"z  \"0-\"9"@, "named registers; \"ay$ yanks into a"@),
        row("Register"@, "\"+ \"*"@, "system clipboard via OSC 52"@),
        row("Register"@, ":reg"@, "register inspector popup (also :registers)"@),
        row("Search"@, "/pat  ?pat"@, "regex search forward / backward"@),
        row("Search"@, ":s/pat/rep/[gi]"@, "substitute on the current line"@),
        row("Search"@, ":%s/pat/rep/[gi]"@, "substitute the whole buffer (one undo)"@),
    ]
}

fn add_about_visual(v: &mut Vec<Entry>)
    ensures
        entries_view(final(v)@) == entries_view(old(v)@) + about_visual(),
{
    let ghost before = entries_view(v@);
    v.push(entry("Visual", "v V Ctrl-v", "visual char / line / block; live selection stats"));
    v.push(entry("Register", "\"a..\"z  \"0-\"9", "named registers; \"ay$ yanks into a"));
    v.push(entry("Register", "\"+ \"*", "system clipboard via OSC 52"));
    v.push(entry("Register", ":reg", "register inspector popup (also :registers)"));
    v.push(entry("Search", "/pat  ?pat", "regex search forward / backward"));
    v.push(entry("Search", ":s/pat/rep/[gi]", "substitute on the current line"));
    v.push(entry("Search", ":%s/pat/rep/[gi]", "substitute the whole buffer (one undo)"));
    assert(entries_view(v@) =~= before + about_visual());
}

pub open spec fn about_undo() -> Seq<EntryV> {
    seq![
        row("Undo"@, "u  Ctrl-R"@, "undo / redo (in-memory undo tree)"@),
        row("Macro"@, "M{reg}"@, "start recording into reg; M again stops"@),
        row("Macro"@, "@{reg}  @@"@, "replay macro / replay last-played"@),
        row("Mark"@, "m{a-z}"@, "set a mark at the cursor"@),
        row("Mark"@, "'a  `a"@, "jump to mark: line / exact column"@),
    ]
}

fn add_about_undo(v: &mut Vec<Entry>)
    ensures
        entries_view(final(v)@) == entries_view(old(v)@) + about_undo(),
{
    let ghost before = entries_view(v@);
    v.push(entry("Undo", "u  Ctrl-R", "undo / redo (in-memory undo tree)"));
    v.push(entry("Macro", "M{reg}", "start recording into reg; M again stops"));
    v.push(entry("Macro", "@{reg}  @@", "replay macro / replay last-played"));
    v.push(entry("Mark", "m{a-z}", "set a mark at the cursor"));
    v.push(entry("Mark", "'a  `a", "jump to mark: line / exact column"));
    assert(entries_view(v@) =~= before + about_undo());
}

pub open spec fn about_fold() -> Seq<EntryV> {
    seq![
        row("Fold"@, "zo zc  Space"@, "open / close fold; Space toggles under cursor"@),
        row("Fold"@, "zs zh"@, "show / hide lines matching a pattern"@),
        row("Spell"@, ":set spell / nospell"@, "toggle spellcheck"@),
        row("Spell"@, ":set spelllang=NAME"@, "switch dictionary (alias :set lang=)"@),
        row("Spell"@, "]s [s  (zn zp)"@, "next / previous misspelling"@),
        row("Spell"@, "z="@, "spelling suggestions (type the number)"@),
        row("Spell"@, "zg"@, "add word at cursor to personal dictionary"@),
    ]
}

fn add_about_fold(v: &mut Vec<Entry>)
    ensures
        entries_view(final(v)@) == entries_view(old(v)@) + about_fold(),
{
    let ghost before = entries_view(v@);
    v.push(entry("Fold", "zo zc  Space", "open / close fold; Space toggles under cursor"));
    v.push(entry("Fold", "zs zh", "show / hide lines matching a pattern"));
    v.push(entry("Spell", ":set spell / nospell", "toggle spellcheck"));
    v.push(entry("Spell", ":set spelllang=NAME", "switch dictionary (alias :set lang=)"));
    v.push(entry("Spell", "]s [s  (zn zp)", "next / previous misspelling"));
    v.push(entry("Spell", "z=", "spelling suggestions (type the number)"));
    v.push(entry("Spell", "zg", "add word at cursor to personal dictionary"));
    assert(entries_view(v@) =~= before + about_fold());
}

pub open spec fn about_reading() -> Seq<EntryV> {
    seq![
        row("Reading"@, ":read  zr"@, "toggle distraction-free reading mode"@),
        row("Reading"@, ":set readingwidth=N"@, "centered column width (alias rw); 0 = full"@),
        row("Reading"@, ":set paragraphdim"@, "dim all paragraphs but the cursor's (alias pdim)"@),
        row("Wrap"@, ":set textwidth=N"@, "auto-wrap typing at column N (alias tw); 0 = off"@),
        row("Theme"@, ":set theme=NAME"@, "monokai / solarized / nord / dracula / gruvbox / plain"@),
    ]
}

fn add_about_reading(v: &mut Vec<Entry>)
    ensures
        entries_view(final(v)@) == entries_view(old(v)@) + about_reading(),
{
    let ghost before = entries_view(v@);
    v.push(entry("Reading", ":read  zr", "toggle distraction-free reading mode"));
    v.push(entry("Reading", ":set readingwidth=N", "centered column width (alias rw); 0 = full"));
    v.push(entry("Reading", ":set paragraphdim", "dim all paragraphs but the cursor's (alias pdim)"));
    v.push(entry("Wrap", ":set textwidth=N", "auto-wrap typing at column N (alias tw); 0 = off"));
    v.push(entry("Theme", ":set theme=NAME", "monokai / solarized / nord / dracula / gruvbox / plain"));
    assert(entries_view(v@) =~= before + about_reading());
}

pub open spec fn about_syntax() -> Seq<EntryV> {
    seq![
        row("Syntax"@, ":set syntax=NAME"@, "force filetype (aliases :set ft= / :set filetype=)"@),
        row("Syntax"@, ":set syntax=md|html|hl"@, "render markdown / html / hyperlist"@),
        row("Style"@, "\\C"@, "colour the Visual selection (prism picks fg/bg)"@),
        row("Style"@, "\\F"@, "set the selection's font (fonts picker, then size prompt)"@),
        row("Style"@, "\\M"@, "toggle colour/font markup conceal (reveals on cursor line)"@),
    ]
}

fn add_about_syntax(v: &mut Vec<Entry>)
    ensures
        entries_view(final(v)@) == entries_view(old(v)@) + about_syntax(),
{
    let ghost before = entries_view(v@);
    v.push(entry("Syntax", ":set syntax=NAME", "force filetype (aliases :set ft= / :set filetype=)"));
    v.push(entry("Syntax", ":set syntax=md|html|hl", "render markdown / html / hyperlist"));
    v.push(entry("Style", "\\C", "colour the Visual selection (prism picks fg/bg)"));
    v.push(entry("Style", "\\F", "set the selection's font (fonts picker, then size prompt)"));
    v.push(entry("Style", "\\M", "toggle colour/font markup conceal (reveals on cursor line)"));
    assert(entries_view(v@) =~= before + about_syntax());
}

pub open spec fn about_export() -> Seq<EntryV> {
    seq![
        row("Export"@, "\\xh \\xl \\xm \\xp"@, "export HTML / LaTeX / Markdown / PDF"@),
        row("Export"@, "\\xd \\xo"@, "export docx / odt via LibreOffice"@),
        row("Number"@, ":set number"@, "line numbers (nu; rnu relative; nonu off)"@),
        row("Config"@, ":config"@, "config popup: theme / numbers / spell / save"@),
        row("HyperList"@, "\\0 .. \\9"@, "fold to level 0..9"@),
        row("HyperList"@, "\\a"@, "open all folds"@),
        row("HyperList"@, "\\v \\V \\o"@, "checkbox / + timestamp / in-progress"@),
        row("HyperList"@, "\\n"@, "autonumber toggle"@),
        row("HyperList"@, "\\R"@, "renumber the Visual selection"@),
        row("HyperList"@, "\\s"@, "sort the Visual selection by indent"@),
        row("HyperList"@, "\\u"@, "state / transition underline cycle"@),
        row("HyperList"@, "\\h"@, "limelight highlight (reading mode)"@),
        row("HyperList"@, "\\r"@, "reference jump (in-file ref / file path / URL)"@),
        row("HyperList"@, "\\p"@, "presentation mode toggle"@),
        row("HyperList"@, "\\c"@, "complexity report"@),
        row("HyperList"@, "\\g"@, "calendar add"@),
        row("HyperList"@, "\\S \\H \\N"@, "show / hide / clear word filter"@),
    ]
}

fn add_about_export(v: &mut Vec<Entry>)
    ensures
        entries_view(final(v)@) == entries_view(old(v)@) + about_export(),
{
    let ghost before = entries_view(v@);
    v.push(entry("Export", "\\xh \\xl \\xm \\xp", "export HTML / LaTeX / Markdown / PDF"));
    v.push(entry("Export", "\\xd \\xo", "export docx / odt via LibreOffice"));
    v.push(entry("Number", ":set number", "line numbers (nu; rnu relative; nonu off)"));
    v.push(entry("Config", ":config", "config popup: theme / numbers / spell / save"));
    v.push(entry("HyperList", "\\0 .. \\9", "fold to level 0..9"));
    v.push(entry("HyperList", "\\a", "open all folds"));
    v.push(entry("HyperList", "\\v \\V \\o", "checkbox / + timestamp / in-progress"));
    v.push(entry("HyperList", "\\n", "autonumber toggle"));
    v.push(entry("HyperList", "\\R", "renumber the Visual selection"));
    v.push(entry("HyperList", "\\s", "sort the Visual selection by indent"));
    v.push(entry("HyperList", "\\u", "state / transition underline cycle"));
    v.push(entry("HyperList", "\\h", "limelight highlight (reading mode)"));
    v.push(entry("HyperList", "\\r", "reference jump (in-file ref / file path / URL)"));
    v.push(entry("HyperList", "\\p", "presentation mode toggle"));
    v.push(entry("HyperList", "\\c", "complexity report"));
    v.push(entry("HyperList", "\\g", "calendar add"));
    v.push(entry("HyperList", "\\S \\H \\N", "show / hide / clear word filter"));
    assert(entries_view(v@) =~= before + about_export());
}

/// A name with its first letter in upper case.
pub open spec fn titled(name: Seq<char>) -> Seq<char> {
    if name.len() > 0 {
        chars::upper_char_of(name[0]) + name.skip(1)
    } else {
        name
    }
}

fn title(name: &str) -> (r: String)
    ensures
        r@ == titled(name@),
{
    let v: Vec<char> = chars_of(name);
    if v.len() > 0 {
        let rest: String = piece(&v, 1, v.len());
        assert(rest@ =~= name@.skip(1));
        cat2(&upper_char(v[0]), &rest)
    } else {
        name.to_owned()
    }
}

/// What there is besides, `name` being the assistant's command.
pub open spec fn about_crypt(name: Seq<char>) -> Seq<EntryV> {
    seq![
        row("Crypt"@, "\\ee \\ed \\ek"@, "encrypt / decrypt / rekey the buffer"@),
        row("Lookup"@, "\\w  K"@, "look up the word under the cursor via "@ + titled(name)),
        row("Command"@, ":w :wq :q :q!"@, "write / write-quit / quit / force-quit"@),
        row("Command"@, ":e <file>"@, "open a file in the buffer"@),
        row(
            "Command"@,
            ":"@ + name + " {prompt}"@,
            "run "@ + name + " -p over selection / paragraph / buffer"@,
        ),
        row("Command"@, ":chat"@, "full interactive "@ + titled(name) + " session"@),
        row("Command"@, ":help  :h"@, "open the bundled README in the buffer"@),
    ]
}

fn add_about_crypt(v: &mut Vec<Entry>, name: &str)
    ensures
        entries_view(final(v)@) == entries_view(old(v)@) + about_crypt(name@),
{
    let ghost before = entries_view(v@);
    let t: String = title(name);
    v.push(entry("Crypt", "\\ee \\ed \\ek", "encrypt / decrypt / rekey the buffer"));
    v.push(entry("Lookup", "\\w  K", &cat2("look up the word under the cursor via ", &t)));
    v.push(entry("Command", ":w :wq :q :q!", "write / write-quit / quit / force-quit"));
    v.push(entry("Command", ":e <file>", "open a file in the buffer"));
    v.push(
        entry(
            "Command",
            &cat3(":", name, " {prompt}"),
            &cat3("run ", name, " -p over selection / paragraph / buffer"),
        ),
    );
    v.push(entry("Command", ":chat", &cat3("full interactive ", &t, " session")));
    v.push(entry("Command", ":help  :h", "open the bundled README in the buffer"));
    assert(entries_view(v@) =~= before + about_crypt(name@));
}

pub open spec fn about_quit() -> Seq<EntryV> {
    seq![
        row("Quit"@, "q"@, "quit when clean; refuses + warns if dirty"@),
        row("Quit"@, "Q  zz"@, "Q discards unsaved changes; zz saves + quits"@),
        row("Help"@, "\\?  g?"@, "this searchable help index"@),
    ]
}

fn add_about_quit(v: &mut Vec<Entry>)
    ensures
        entries_view(final(v)@) == entries_view(old(v)@) + about_quit(),
{
    let ghost before = entries_view(v@);
    v.push(entry("Quit", "q", "quit when clean; refuses + warns if dirty"));
    v.push(entry("Quit", "Q  zz", "Q discards unsaved changes; zz saves + quits"));
    v.push(entry("Help", "\\?  g?", "this searchable help index"));
    assert(entries_view(v@) =~= before + about_quit());
}

/// The whole index, `name` being the assistant's command.
pub open spec fn index(name: Seq<char>) -> Seq<EntryV> {
    about_motion() + about_insert() + about_operator() + about_edit() + about_visual()
        + about_undo() + about_fold() + about_reading() + about_syntax() + about_export()
        + about_crypt(name) + about_quit()
}

/// The whole index, with the name of the assistant's command.
pub fn help_index(name: &str) -> (v: Vec<Entry>)
    ensures
        entries_view(v@) == index(name@),
{
    let mut v: Vec<Entry> = Vec::new();
    assert(entries_view(v@) + about_motion() =~= about_motion());
    add_about_motion(&mut v);
    add_about_insert(&mut v);
    add_about_operator(&mut v);
    add_about_edit(&mut v);
    add_about_visual(&mut v);
    add_about_undo(&mut v);
    add_about_fold(&mut v);
    add_about_reading(&mut v);
    add_about_syntax(&mut v);
    add_about_export(&mut v);
    add_about_crypt(&mut v, name);
    add_about_quit(&mut v);
    v
}

pub open spec fn holds(s: Seq<char>, q: Seq<char>) -> bool {
    strs::contains(chars::lower_of(s), q)
}

/// The row is about `q`, in lower case, in any of its parts.
pub open spec fn about(e: EntryV, q: Seq<char>) -> bool {
    q.len() == 0 || holds(e.trigger, q) || holds(e.description, q) || holds(e.category, q)
}

/// Those of the first `n` rows that are about `q` and whose trigger is just
/// that, or is not.
pub open spec fn rows_about(r: Seq<EntryV>, q: Seq<char>, exact: bool, n: int) -> Seq<EntryV>
    decreases n,
{
    if n <= 0 {
        Seq::empty()
    } else {
        let s = rows_about(r, q, exact, n - 1);
        if about(r[n - 1], q) && (q.len() > 0 && chars::lower_of(r[n - 1].trigger) == q) == exact {
            s.push(r[n - 1])
        } else {
            s
        }
    }
}

/// The rows about a query, in whatever case; every row for an empty one. A
/// row with just that trigger comes first.
pub open spec fn found(query: Seq<char>, name: Seq<char>) -> Seq<EntryV> {
    let q = chars::lower_of(strs::trimmed(query));
    let r = index(name);
    rows_about(r, q, true, r.len() as int) + rows_about(r, q, false, r.len() as int)
}

fn is_about(e: &Entry, q: &str) -> (r: bool)
    ensures
        r == about(e@, q@),
{
    chars_of(q).len() == 0 || has_sub(&e.trigger.to_lowercase(), q) || has_sub(
        &e.description.to_lowercase(),
        q,
    ) || has_sub(&e.category.to_lowercase(), q)
}

fn collect(rows: &Vec<Entry>, q: &str, exact: bool) -> (out: Vec<Entry>)
    ensures
        entries_view(out@) == rows_about(entries_view(rows@), q@, exact, rows@.len() as int),
{
    let ghost rv = entries_view(rows@);
    let mut out: Vec<Entry> = Vec::new();
    let mut i: usize = 0;
    assert(entries_view(out@) =~= rows_about(rv, q@, exact, 0));
    while i < rows.len()
        invariant
            i <= rows.len(),
            rv == entries_view(rows@),
            entries_view(out@) == rows_about(rv, q@, exact, i as int),
        decreases rows.len() - i,
    {
        let ghost before = out@;
        assert(rv[i as int] == rows@[i as int]@);
        let e: &Entry = &rows[i];
        let just: bool = chars_of(q).len() > 0 && same(&e.trigger.to_lowercase(), q);
        if is_about(e, q) && just == exact {
            out.push(entry(&e.category, &e.trigger, &e.description));
            assert(entries_view(out@) =~= entries_view(before).push(rv[i as int]));
        }
        i += 1;
    }
    out
}

/// The rows of the index about a query, with the name of the assistant's
/// command.
pub fn search(query: &str, name: &str) -> (out: Vec<Entry>)
    ensures
        entries_view(out@) == found(query@, name@),
{
    let q: String = trim(query).to_lowercase();
    let rows: Vec<Entry> = help_index(name);
    let mut out: Vec<Entry> = collect(&rows, &q, true);
    let mut rest: Vec<Entry> = collect(&rows, &q, false);
    let ghost a = entries_view(out@);
    let ghost b = entries_view(rest@);
    out.append(&mut rest);
    assert(entries_view(out@) =~= a + b);
    out
}

proof fn lemma_rows_about(r: Seq<EntryV>, q: Seq<char>, exact: bool, n: int)
    requires
        0 <= n <= r.len(),
    ensures
        forall|k: int|
            0 <= k < n && about(r[k], q) && (q.len() > 0 && chars::lower_of((#[trigger] r[k]).trigger)
                == q) == exact ==> rows_about(r, q, exact, n).contains(r[k]),
        forall|j: int|
            0 <= j < rows_about(r, q, exact, n).len() ==> r.contains(
                #[trigger] rows_about(r, q, exact, n)[j],
            ) && about(rows_about(r, q, exact, n)[j], q) && (q.len() > 0 && chars::lower_of(
                rows_about(r, q, exact, n)[j].trigger,
            ) == q) == exact,
    decreases n,
{
    if n > 0 {
        lemma_rows_about(r, q, exact, n - 1);
        let s = rows_about(r, q, exact, n - 1);
        let u = rows_about(r, q, exact, n);
        if u != s {
            assert(u == s.push(r[n - 1]));
            assert(u[s.len() as int] == r[n - 1]);
        }
        assert forall|k: int|
            0 <= k < n && about(r[k], q) && (q.len() > 0 && chars::lower_of((#[trigger] r[k]).trigger)
                == q) == exact implies u.contains(r[k]) by {
            if k < n - 1 {
                assert(s.contains(r[k]));
                let j = choose|j: int| 0 <= j < s.len() && s[j] == r[k];
                assert(u[j] == r[k]);
            } else {
                assert(u == s.push(r[n - 1]));
            }
        }
    }
}

/// Help on a query shows just the rows in which it occurs, in whatever case:
/// none is left out and none shown besides. A row with that very trigger comes
/// before the rows that only speak of it.
pub proof fn law_help_found(query: Seq<char>, name: Seq<char>, e: EntryV)
    ensures
        ({
            let q = chars::lower_of(strs::trimmed(query));
            let f = found(query, name);
            let named = |x: EntryV| q.len() > 0 && chars::lower_of(x.trigger) == q;
            &&& f.contains(e) <==> index(name).contains(e) && (strs::contains(
                chars::lower_of(e.trigger),
                q,
            ) || strs::contains(chars::lower_of(e.description), q) || strs::contains(
                chars::lower_of(e.category),
                q,
            ) || q.len() == 0)
            &&& forall|i: int, j: int|
                0 <= i < j < f.len() && named(#[trigger] f[j]) ==> named(#[trigger] f[i])
        }),
{
    let q = chars::lower_of(strs::trimmed(query));
    let r = index(name);
    let n = r.len() as int;
    let a = rows_about(r, q, true, n);
    let b = rows_about(r, q, false, n);
    let f = found(query, name);
    lemma_rows_about(r, q, true, n);
    lemma_rows_about(r, q, false, n);
    assert(f == a + b);
    if f.contains(e) {
        let j = choose|j: int| 0 <= j < f.len() && f[j] == e;
        if j < a.len() {
            assert(a[j] == e);
        } else {
            assert(b[j - a.len()] == e);
        }
    }
    if r.contains(e) && about(e, q) {
        let k = choose|k: int| 0 <= k < r.len() && r[k] == e;
        if q.len() > 0 && chars::lower_of(e.trigger) == q {
            assert(a.contains(r[k]));
            let j = choose|j: int| 0 <= j < a.len() && a[j] == e;
            assert(f[j] == e);
        } else {
            assert(b.contains(r[k]));
            let j = choose|j: int| 0 <= j < b.len() && b[j] == e;
            assert(f[a.len() + j] == e);
        }
    }
    assert forall|i: int, j: int|
        0 <= i < j < f.len() && q.len() > 0 && chars::lower_of((#[trigger] f[j]).trigger)
            == q implies chars::lower_of((#[trigger] f[i]).trigger) == q by {
        if j >= a.len() {
            assert(f[j] == b[j - a.len()]);
        }
        if i < a.len() {
            assert(f[i] == a[i]);
        }
    }
}

} // verus!
