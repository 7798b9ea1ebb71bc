//! Popups: lines of styled text, and the keys that scroll and close them.

use vstd::prelude::*;
use vstd::string::*;
use crate::chars;
use crate::strs;
use crate::strs::{cat3, repeat, trim};
use crate::text;
use crate::text::{chars_of, same};

verus! {

/// A piece of a line in one style.
pub struct Span {
    pub text: String,
    /// Colour of the text, or the popup's own.
    pub color: Option<u8>,
    pub bold: bool,
}

#[verifier::ext_equal]
pub struct SpanV {
    pub text: Seq<char>,
    pub color: Option<u8>,
    pub bold: bool,
}

impl View for Span {
    type V = SpanV;

    open spec fn view(&self) -> SpanV {
        SpanV { text: self.text@, color: self.color, bold: self.bold }
    }
}

pub open spec fn line_view(l: Seq<Span>) -> Seq<SpanV> {
    Seq::new(l.len(), |i: int| l[i]@)
}

pub open spec fn popup_view(p: Seq<Vec<Span>>) -> Seq<Seq<SpanV>> {
    Seq::new(p.len(), |i: int| line_view(p[i]@))
}

pub open spec fn pairs_view(v: Seq<(String, String)>) -> Seq<(Seq<char>, Seq<char>)> {
    Seq::new(v.len(), |i: int| (v[i].0@, v[i].1@))
}

pub open spec fn plain(t: Seq<char>) -> SpanV {
    SpanV { text: t, color: None, bold: false }
}

pub open spec fn colored(t: Seq<char>, c: u8) -> SpanV {
    SpanV { text: t, color: Some(c), bold: false }
}

/// A line of one span, set in by two columns.
pub open spec fn set_in(s: SpanV) -> Seq<SpanV> {
    seq![plain("  "@), s]
}

pub open spec fn heading(t: Seq<char>) -> Seq<SpanV> {
    set_in(SpanV { text: t, color: Some(81), bold: true })
}

pub open spec fn title(t: Seq<char>) -> Seq<SpanV> {
    set_in(SpanV { text: t, color: Some(220), bold: true })
}

/// A rule across a popup of `w` columns.
pub open spec fn rule(w: int) -> Seq<SpanV> {
    set_in(colored(strs::repeated("-"@, w - 4), 238))
}

/// A key and what it does, the text from a fixed column on.
pub open spec fn key_row(k: Seq<char>, d: Seq<char>) -> Seq<SpanV> {
    seq![plain("  "@), colored(k, 220), plain(strs::repeated(" "@, 18 - k.len()) + "  "@ + d)]
}

/// A section of the list of keys, with an empty line behind it.
pub open spec fn key_section(t: Seq<char>, rows: Seq<(Seq<char>, Seq<char>)>) -> Seq<Seq<SpanV>> {
    seq![heading(t)] + Seq::new(rows.len(), |i: int| key_row(rows[i].0, rows[i].1)) + seq![
        Seq::<SpanV>::empty(),
    ]
}

// ── Keys ────────────────────────────────────────────────────────────────

pub open spec fn motion_keys() -> Seq<(Seq<char>, Seq<char>)> {
    seq![
        ("h j k l"@, "left / down / up / right"@),
        ("0  ^  $"@, "line start / first non-blank / end"@),
        ("HOME / END"@, "line start / end"@),
        ("gg  G  12G"@, "first / last line / line N"@),
        ("w b e"@, "next / prev word, end of word"@),
        ("W B"@, "WORD (whitespace-delimited)"@),
        ("f{c} F{c}"@, "jump on next / prev c on line"@),
        ("t{c} T{c}"@, "jump before next / prev c on line"@),
        ("Ctrl-D / Ctrl-U"@, "half-page down / up"@),
        ("PgDn / PgUp"@, "full page down / up"@),
        ("*  #"@, "search word under cursor"@),
        ("n  N"@, "next / prev search match"@),
        ("K"@, "assistant lookup for word under cursor"@),
    ]
}

fn list_motion_keys() -> (v: Vec<(String, String)>)
    ensures
        pairs_view(v@) == motion_keys(),
{
    let mut v: Vec<(String, String)> = Vec::new();
    v.push(("h j k l".to_owned(), "left / down / up / right".to_owned()));
    v.push(("0  ^  $".to_owned(), "line start / first non-blank / end".to_owned()));
    v.push(("HOME / END".to_owned(), "line start / end".to_owned()));
    v.push(("gg  G  12G".to_owned(), "first / last line / line N".to_owned()));
    v.push(("w b e".to_owned(), "next / prev word, end of word".to_owned()));
    v.push(("W B".to_owned(), "WORD (whitespace-delimited)".to_owned()));
    v.push(("f{c} F{c}".to_owned(), "jump on next / prev c on line".to_owned()));
    v.push(("t{c} T{c}".to_owned(), "jump before next / prev c on line".to_owned()));
    v.push(("Ctrl-D / Ctrl-U".to_owned(), "half-page down / up".to_owned()));
    v.push(("PgDn / PgUp".to_owned(), "full page down / up".to_owned()));
    v.push(("*  #".to_owned(), "search word under cursor".to_owned()));
    v.push(("n  N".to_owned(), "next / prev search match".to_owned()));
    v.push(("K".to_owned(), "assistant lookup for word under cursor".to_owned()));
    assert(pairs_view(v@) =~= motion_keys());
    v
}

pub open spec fn modes_keys() -> Seq<(Seq<char>, Seq<char>)> {
    seq![
        ("i  a"@, "insert before / after cursor"@),
        ("I  A"@, "insert at line start / end"@),
        ("o  O"@, "open new line below / above"@),
        ("s  S"@, "substitute char / line, enter Insert"@),
        ("v  V  Ctrl-V"@, "visual char / line / block"@),
        (":"@, "command mode"@),
        ("Esc"@, "return to Normal"@),
    ]
}

fn list_modes_keys() -> (v: Vec<(String, String)>)
    ensures
        pairs_view(v@) == modes_keys(),
{
    let mut v: Vec<(String, String)> = Vec::new();
    v.push(("i  a".to_owned(), "insert before / after cursor".to_owned()));
    v.push(("I  A".to_owned(), "insert at line start / end".to_owned()));
    v.push(("o  O".to_owned(), "open new line below / above".to_owned()));
    v.push(("s  S".to_owned(), "substitute char / line, enter Insert".to_owned()));
    v.push(("v  V  Ctrl-V".to_owned(), "visual char / line / block".to_owned()));
    v.push((":".to_owned(), "command mode".to_owned()));
    v.push(("Esc".to_owned(), "return to Normal".to_owned()));
    assert(pairs_view(v@) =~= modes_keys());
    v
}

pub open spec fn edit_keys() -> Seq<(Seq<char>, Seq<char>)> {
    seq![
        ("x  X"@, "delete char fwd / back"@),
        ("r{c}"@, "replace char under cursor"@),
        ("J  ~"@, "join below / toggle case"@),
        ("p  P"@, "paste after / before"@),
        ("u  Ctrl-R"@, "undo / redo"@),
        ("Ctrl-A / Ctrl-X"@, "increment / decrement number or ISO date"@),
        ("Ctrl-Up/Down"@, "swap current line with above / below"@),
        ("."@, "dot-repeat last change"@),
    ]
}

fn list_edit_keys() -> (v: Vec<(String, String)>)
    ensures
        pairs_view(v@) == edit_keys(),
{
    let mut v: Vec<(String, String)> = Vec::new();
    v.push(("x  X".to_owned(), "delete char fwd / back".to_owned()));
    v.push(("r{c}".to_owned(), "replace char under cursor".to_owned()));
    v.push(("J  ~".to_owned(), "join below / toggle case".to_owned()));
    v.push(("p  P".to_owned(), "paste after / before".to_owned()));
    v.push(("u  Ctrl-R".to_owned(), "undo / redo".to_owned()));
    v.push(("Ctrl-A / Ctrl-X".to_owned(), "increment / decrement number or ISO date".to_owned()));
    v.push(("Ctrl-Up/Down".to_owned(), "swap current line with above / below".to_owned()));
    v.push((".".to_owned(), "dot-repeat last change".to_owned()));
    assert(pairs_view(v@) =~= edit_keys());
    v
}

pub open spec fn operators_keys() -> Seq<(Seq<char>, Seq<char>)> {
    seq![
        ("d  c  y"@, "delete / change / yank"@),
        (">  <"@, "indent / outdent"@),
        ("gq"@, "text-wrap"@),
        ("dd cc yy"@, "linewise (also  >>  <<  gqq)"@),
        ("D  C  Y"@, "to end of line"@),
        ("(examples)"@, "5dw  d3w  cgg  yG  c$  >ap  gqap"@),
    ]
}

fn list_operators_keys() -> (v: Vec<(String, String)>)
    ensures
        pairs_view(v@) == operators_keys(),
{
    let mut v: Vec<(String, String)> = Vec::new();
    v.push(("d  c  y".to_owned(), "delete / change / yank".to_owned()));
    v.push((">  <".to_owned(), "indent / outdent".to_owned()));
    v.push(("gq".to_owned(), "text-wrap".to_owned()));
    v.push(("dd cc yy".to_owned(), "linewise (also  >>  <<  gqq)".to_owned()));
    v.push(("D  C  Y".to_owned(), "to end of line".to_owned()));
    v.push(("(examples)".to_owned(), "5dw  d3w  cgg  yG  c$  >ap  gqap".to_owned()));
    assert(pairs_view(v@) =~= operators_keys());
    v
}

pub open spec fn objects_keys() -> Seq<(Seq<char>, Seq<char>)> {
    seq![
        ("iw  aw"@, "word (inner / around)"@),
        ("i\"  a\""@, "string (also '  `)"@),
        ("i(  a("@, "parens (also [ { <)"@),
        ("ib  iB"@, "shortcut for ()  / {}"@),
        ("ip  ap"@, "paragraph"@),
    ]
}

fn list_objects_keys() -> (v: Vec<(String, String)>)
    ensures
        pairs_view(v@) == objects_keys(),
{
    let mut v: Vec<(String, String)> = Vec::new();
    v.push(("iw  aw".to_owned(), "word (inner / around)".to_owned()));
    v.push(("i\"  a\"".to_owned(), "string (also '  `)".to_owned()));
    v.push(("i(  a(".to_owned(), "parens (also [ { <)".to_owned()));
    v.push(("ib  iB".to_owned(), "shortcut for ()  / {}".to_owned()));
    v.push(("ip  ap".to_owned(), "paragraph".to_owned()));
    assert(pairs_view(v@) =~= objects_keys());
    v
}

pub open spec fn registers_keys() -> Seq<(Seq<char>, Seq<char>)> {
    seq![
        ("\"a ... \"z"@, "named slots ( \"ay$ → yank into a )"@),
        ("\"0"@, "last yank only"@),
        ("\"\""@, "unnamed (default for p / P)"@),
        ("\"+  \"*"@, "system clipboard (OSC 52)"@),
        ("Ctrl-R {reg}"@, "Insert-mode paste from register"@),
        ("Ctrl-R ="@, "Insert-mode eval expr and paste result"@),
        (":reg"@, "inspector popup"@),
    ]
}

fn list_registers_keys() -> (v: Vec<(String, String)>)
    ensures
        pairs_view(v@) == registers_keys(),
{
    let mut v: Vec<(String, String)> = Vec::new();
    v.push(("\"a ... \"z".to_owned(), "named slots ( \"ay$ → yank into a )".to_owned()));
    v.push(("\"0".to_owned(), "last yank only".to_owned()));
    v.push(("\"\"".to_owned(), "unnamed (default for p / P)".to_owned()));
    v.push(("\"+  \"*".to_owned(), "system clipboard (OSC 52)".to_owned()));
    v.push(("Ctrl-R {reg}".to_owned(), "Insert-mode paste from register".to_owned()));
    v.push(("Ctrl-R =".to_owned(), "Insert-mode eval expr and paste result".to_owned()));
    v.push((":reg".to_owned(), "inspector popup".to_owned()));
    assert(pairs_view(v@) =~= registers_keys());
    v
}

pub open spec fn search_keys() -> Seq<(Seq<char>, Seq<char>)> {
    seq![
        ("/pat  ?pat"@, "regex forward / backward"@),
        (":s/p/r/[gi]"@, "substitute on current line"@),
        (":%s/p/r/[gi]"@, "substitute on whole buffer"@),
    ]
}

fn list_search_keys() -> (v: Vec<(String, String)>)
    ensures
        pairs_view(v@) == search_keys(),
{
    let mut v: Vec<(String, String)> = Vec::new();
    v.push(("/pat  ?pat".to_owned(), "regex forward / backward".to_owned()));
    v.push((":s/p/r/[gi]".to_owned(), "substitute on current line".to_owned()));
    v.push((":%s/p/r/[gi]".to_owned(), "substitute on whole buffer".to_owned()));
    assert(pairs_view(v@) =~= search_keys());
    v
}

pub open spec fn marks_keys() -> Seq<(Seq<char>, Seq<char>)> {
    seq![
        ("m{a-z}"@, "set mark"@),
        ("'{a-z}"@, "jump to mark (line start, first non-blank)"@),
        ("`{a-z}"@, "jump to mark (exact column)"@),
    ]
}

fn list_marks_keys() -> (v: Vec<(String, String)>)
    ensures
        pairs_view(v@) == marks_keys(),
{
    let mut v: Vec<(String, String)> = Vec::new();
    v.push(("m{a-z}".to_owned(), "set mark".to_owned()));
    v.push(("'{a-z}".to_owned(), "jump to mark (line start, first non-blank)".to_owned()));
    v.push(("`{a-z}".to_owned(), "jump to mark (exact column)".to_owned()));
    assert(pairs_view(v@) =~= marks_keys());
    v
}

pub open spec fn macros_keys() -> Seq<(Seq<char>, Seq<char>)> {
    seq![
        ("M{reg}"@, "start recording; M to stop"@),
        ("@{reg}  @@"@, "replay (last)"@),
    ]
}

fn list_macros_keys() -> (v: Vec<(String, String)>)
    ensures
        pairs_view(v@) == macros_keys(),
{
    let mut v: Vec<(String, String)> = Vec::new();
    v.push(("M{reg}".to_owned(), "start recording; M to stop".to_owned()));
    v.push(("@{reg}  @@".to_owned(), "replay (last)".to_owned()));
    assert(pairs_view(v@) =~= macros_keys());
    v
}

pub open spec fn spell_keys() -> Seq<(Seq<char>, Seq<char>)> {
    seq![
        ("]s  [s"@, "next / prev misspelling (also  zn / zp)"@),
        ("z="@, "suggestions (numbered)"@),
        ("zg"@, "add word at cursor to personal dict"@),
        ("zs  zh  z0"@, "show / hide word, clear show-hide"@),
        (":spell <LANG>"@, "enable + set language atomically (en_US, nb_NO, …)"@),
        (":spell"@, "enable with the current language"@),
        (":set spell"@, "toggle (also  :set nospell)"@),
        (":set spelllang="@, "switch dictionary without enabling"@),
        ("(per-lang)"@, "wire quick keys in scriberc [keymap]  →  :map"@),
    ]
}

fn list_spell_keys() -> (v: Vec<(String, String)>)
    ensures
        pairs_view(v@) == spell_keys(),
{
    let mut v: Vec<(String, String)> = Vec::new();
    v.push(("]s  [s".to_owned(), "next / prev misspelling (also  zn / zp)".to_owned()));
    v.push(("z=".to_owned(), "suggestions (numbered)".to_owned()));
    v.push(("zg".to_owned(), "add word at cursor to personal dict".to_owned()));
    v.push(("zs  zh  z0".to_owned(), "show / hide word, clear show-hide".to_owned()));
    v.push((":spell <LANG>".to_owned(), "enable + set language atomically (en_US, nb_NO, …)".to_owned()));
    v.push((":spell".to_owned(), "enable with the current language".to_owned()));
    v.push((":set spell".to_owned(), "toggle (also  :set nospell)".to_owned()));
    v.push((":set spelllang=".to_owned(), "switch dictionary without enabling".to_owned()));
    v.push(("(per-lang)".to_owned(), "wire quick keys in scriberc [keymap]  →  :map".to_owned()));
    assert(pairs_view(v@) =~= spell_keys());
    v
}

pub open spec fn folds_keys() -> Seq<(Seq<char>, Seq<char>)> {
    seq![
        ("zo  zc  za"@, "open / close / toggle fold"@),
        ("zR  zM"@, "open all / close all"@),
        ("zs  zh"@, "fold by section / heading"@),
    ]
}

fn list_folds_keys() -> (v: Vec<(String, String)>)
    ensures
        pairs_view(v@) == folds_keys(),
{
    let mut v: Vec<(String, String)> = Vec::new();
    v.push(("zo  zc  za".to_owned(), "open / close / toggle fold".to_owned()));
    v.push(("zR  zM".to_owned(), "open all / close all".to_owned()));
    v.push(("zs  zh".to_owned(), "fold by section / heading".to_owned()));
    assert(pairs_view(v@) =~= folds_keys());
    v
}

pub open spec fn leader_keys() -> Seq<(Seq<char>, Seq<char>)> {
    seq![
        ("\\?"@, "HyperList leader cheatsheet popup"@),
        ("\\w"@, "assistant word lookup (same as K)"@),
        ("\\v  \\V  \\o"@, "checkbox / +timestamp / in-progress"@),
        ("\\0 .. \\9"@, "fold to level"@),
        ("\\e[ekd]"@, "encrypt / decrypt / rekey"@),
        ("\\x[hlm]"@, "export HTML / LaTeX / Markdown"@),
    ]
}

fn list_leader_keys() -> (v: Vec<(String, String)>)
    ensures
        pairs_view(v@) == leader_keys(),
{
    let mut v: Vec<(String, String)> = Vec::new();
    v.push(("\\?".to_owned(), "HyperList leader cheatsheet popup".to_owned()));
    v.push(("\\w".to_owned(), "assistant word lookup (same as K)".to_owned()));
    v.push(("\\v  \\V  \\o".to_owned(), "checkbox / +timestamp / in-progress".to_owned()));
    v.push(("\\0 .. \\9".to_owned(), "fold to level".to_owned()));
    v.push(("\\e[ekd]".to_owned(), "encrypt / decrypt / rekey".to_owned()));
    v.push(("\\x[hlm]".to_owned(), "export HTML / LaTeX / Markdown".to_owned()));
    assert(pairs_view(v@) =~= leader_keys());
    v
}

pub open spec fn commands_keys() -> Seq<(Seq<char>, Seq<char>)> {
    seq![
        (":w  :wq  :q  :q!"@, "save / save-quit / quit (! discards)"@),
        (":e <file>"@, "edit file"@),
        (":help [topic]"@, "README in a popup (topic: hl)"@),
        (":keys"@, "this popup"@),
        (":map"@, "your personal keymaps (scriberc [keymap])"@),
        (":reg"@, "registers inspector"@),
        (":config"@, "preferences popup"@),
        (":chat"@, "launch assistant session"@),
        (":set ..."@, "runtime settings (spell, lang, theme, …)"@),
        (":export <fmt>"@, "html / latex / markdown / pdf"@),
    ]
}

fn list_commands_keys() -> (v: Vec<(String, String)>)
    ensures
        pairs_view(v@) == commands_keys(),
{
    let mut v: Vec<(String, String)> = Vec::new();
    v.push((":w  :wq  :q  :q!".to_owned(), "save / save-quit / quit (! discards)".to_owned()));
    v.push((":e <file>".to_owned(), "edit file".to_owned()));
    v.push((":help [topic]".to_owned(), "README in a popup (topic: hl)".to_owned()));
    v.push((":keys".to_owned(), "this popup".to_owned()));
    v.push((":map".to_owned(), "your personal keymaps (scriberc [keymap])".to_owned()));
    v.push((":reg".to_owned(), "registers inspector".to_owned()));
    v.push((":config".to_owned(), "preferences popup".to_owned()));
    v.push((":chat".to_owned(), "launch assistant session".to_owned()));
    v.push((":set ...".to_owned(), "runtime settings (spell, lang, theme, …)".to_owned()));
    v.push((":export <fmt>".to_owned(), "html / latex / markdown / pdf".to_owned()));
    assert(pairs_view(v@) =~= commands_keys());
    v
}

pub open spec fn screen_keys() -> Seq<(Seq<char>, Seq<char>)> {
    seq![
        ("Ctrl-L"@, "redraw"@),
    ]
}

fn list_screen_keys() -> (v: Vec<(String, String)>)
    ensures
        pairs_view(v@) == screen_keys(),
{
    let mut v: Vec<(String, String)> = Vec::new();
    v.push(("Ctrl-L".to_owned(), "redraw".to_owned()));
    assert(pairs_view(v@) =~= screen_keys());
    v
}

/// The list of keys, for a popup of `w` columns.
pub open spec fn keys_lines(w: int) -> Seq<Seq<SpanV>> {
    seq![Seq::<SpanV>::empty(), title("Scribe — keybindings (:keys)"@), rule(w)] + key_section(
        "MOTION"@,
        motion_keys(),
    ) + key_section(
        "MODES"@,
        modes_keys(),
    ) + key_section(
        "EDIT"@,
        edit_keys(),
    ) + key_section(
        "OPERATORS  +  motion / text-object"@,
        operators_keys(),
    ) + key_section(
        "TEXT OBJECTS"@,
        objects_keys(),
    ) + key_section(
        "REGISTERS"@,
        registers_keys(),
    ) + key_section(
        "SEARCH / SUBSTITUTE"@,
        search_keys(),
    ) + key_section(
        "MARKS"@,
        marks_keys(),
    ) + key_section(
        "MACROS"@,
        macros_keys(),
    ) + key_section(
        "SPELL"@,
        spell_keys(),
    ) + key_section(
        "FOLDS"@,
        folds_keys(),
    ) + key_section(
        "LEADER  \\   (HyperList — full list via \\?)"@,
        leader_keys(),
    ) + key_section(
        "COMMANDS"@,
        commands_keys(),
    ) + key_section(
        "UI"@,
        screen_keys(),
    ) + seq![
        rule(w),
        seq![
            plain("  "@),
            colored("j/k"@, 220),
            plain("  "@),
            colored("PgUp/PgDn"@, 220),
            plain("  "@),
            colored("g/G"@, 220),
            plain("  "@),
            colored("scroll   ESC / q  close"@, 244),
        ],
    ]
}

pub(crate) fn plain_span(t: &str) -> (s: Span)
    ensures
        s@ == plain(t@),
{
    Span { text: t.to_owned(), color: None, bold: false }
}

pub(crate) fn color_span(t: &str, c: u8) -> (s: Span)
    ensures
        s@ == colored(t@, c),
{
    Span { text: t.to_owned(), color: Some(c), bold: false }
}

pub(crate) fn indented(s: Span) -> (l: Vec<Span>)
    ensures
        line_view(l@) == set_in(s@),
{
    let ghost sv = s@;
    let mut l: Vec<Span> = Vec::new();
    l.push(plain_span("  "));
    l.push(s);
    assert(line_view(l@) =~= set_in(sv));
    l
}

pub(crate) fn strong(t: &str, c: u8) -> (s: Span)
    ensures
        s@ == (SpanV { text: t@, color: Some(c), bold: true }),
{
    Span { text: t.to_owned(), color: Some(c), bold: true }
}

pub(crate) fn draw_rule(w: usize) -> (l: Vec<Span>)
    ensures
        line_view(l@) == rule(w as int),
{
    let n: usize = if w > 4 {
        w - 4
    } else {
        0
    };
    assert(w < 4 ==> strs::repeated("-"@, w - 4) =~= strs::repeated("-"@, 0));
    indented(color_span(&repeat("-", n), 238))
}

pub(crate) fn add_line(p: &mut Vec<Vec<Span>>, l: Vec<Span>)
    ensures
        popup_view(final(p)@) == popup_view(old(p)@).push(line_view(l@)),
{
    let ghost before = p@;
    let ghost lv = line_view(l@);
    p.push(l);
    assert(popup_view(p@) =~= popup_view(before).push(lv));
}

pub(crate) fn add_blank(p: &mut Vec<Vec<Span>>)
    ensures
        popup_view(final(p)@) == popup_view(old(p)@).push(Seq::<SpanV>::empty()),
{
    let l: Vec<Span> = Vec::new();
    assert(line_view(l@) =~= Seq::<SpanV>::empty());
    add_line(p, l);
}

fn draw_key_row(k: &str, d: &str) -> (l: Vec<Span>)
    ensures
        line_view(l@) == key_row(k@, d@),
{
    let n: usize = chars_of(k).len();
    let pad: usize = if n < 18 {
        18 - n
    } else {
        0
    };
    assert(n > 18 ==> strs::repeated(" "@, 18 - n) =~= strs::repeated(" "@, 0));
    let mut l: Vec<Span> = Vec::new();
    l.push(plain_span("  "));
    l.push(color_span(k, 220));
    l.push(plain_span(&cat3(&repeat(" ", pad), "  ", d)));
    assert(line_view(l@) =~= key_row(k@, d@));
    l
}

fn add_section(p: &mut Vec<Vec<Span>>, t: &str, rows: Vec<(String, String)>)
    ensures
        popup_view(final(p)@) == popup_view(old(p)@) + key_section(t@, pairs_view(rows@)),
{
    let ghost base = popup_view(p@);
    let ghost rv = pairs_view(rows@);
    add_line(p, indented(strong(t, 81)));
    let ghost top = popup_view(p@);
    let mut i: usize = 0;
    assert(top + Seq::new(0, |k: int| key_row(rv[k].0, rv[k].1)) =~= top);
    while i < rows.len()
        invariant
            i <= rows.len(),
            rv == pairs_view(rows@),
            popup_view(p@) == top + Seq::new(i as nat, |k: int| key_row(rv[k].0, rv[k].1)),
        decreases rows.len() - i,
    {
        let ghost before = popup_view(p@);
        assert(rv[i as int] == (rows@[i as int].0@, rows@[i as int].1@));
        add_line(p, draw_key_row(&rows[i].0, &rows[i].1));
        assert(popup_view(p@) =~= top + Seq::new(
            (i + 1) as nat,
            |k: int| key_row(rv[k].0, rv[k].1),
        ));
        i += 1;
    }
    add_blank(p);
    assert(popup_view(p@) =~= base + key_section(t@, rv));
}

/// The popup that lists the keys.
pub fn show_keys_popup(w: usize) -> (p: Vec<Vec<Span>>)
    ensures
        popup_view(p@) == keys_lines(w as int),
{
    let mut p: Vec<Vec<Span>> = Vec::new();
    add_blank(&mut p);
    add_line(&mut p, indented(strong("Scribe — keybindings (:keys)", 220)));
    add_line(&mut p, draw_rule(w));
    let ghost top = seq![
        Seq::<SpanV>::empty(),
        title("Scribe — keybindings (:keys)"@),
        rule(w as int),
    ];
    assert(popup_view(p@) =~= top);
    add_section(&mut p, "MOTION", list_motion_keys());
    add_section(&mut p, "MODES", list_modes_keys());
    add_section(&mut p, "EDIT", list_edit_keys());
    add_section(&mut p, "OPERATORS  +  motion / text-object", list_operators_keys());
    add_section(&mut p, "TEXT OBJECTS", list_objects_keys());
    add_section(&mut p, "REGISTERS", list_registers_keys());
    add_section(&mut p, "SEARCH / SUBSTITUTE", list_search_keys());
    add_section(&mut p, "MARKS", list_marks_keys());
    add_section(&mut p, "MACROS", list_macros_keys());
    add_section(&mut p, "SPELL", list_spell_keys());
    add_section(&mut p, "FOLDS", list_folds_keys());
    add_section(&mut p, "LEADER  \\   (HyperList — full list via \\?)", list_leader_keys());
    add_section(&mut p, "COMMANDS", list_commands_keys());
    add_section(&mut p, "UI", list_screen_keys());
    let ghost body = popup_view(p@);
    add_line(&mut p, draw_rule(w));
    let mut l: Vec<Span> = Vec::new();
    l.push(plain_span("  "));
    l.push(color_span("j/k", 220));
    l.push(plain_span("  "));
    l.push(color_span("PgUp/PgDn", 220));
    l.push(plain_span("  "));
    l.push(color_span("g/G", 220));
    l.push(plain_span("  "));
    l.push(color_span("scroll   ESC / q  close", 244));
    assert(line_view(l@) =~= seq![
        plain("  "@),
        colored("j/k"@, 220),
        plain("  "@),
        colored("PgUp/PgDn"@, 220),
        plain("  "@),
        colored("g/G"@, 220),
        plain("  "@),
        colored("scroll   ESC / q  close"@, 244),
    ]);
    let ghost lv = line_view(l@);
    add_line(&mut p, l);
    assert(popup_view(p@) =~= body + seq![rule(w as int), lv]);
    p
}

// ── Leader bindings ─────────────────────────────────────────────────────

pub open spec fn leader_bindings() -> Seq<(Seq<char>, Seq<char>)> {
    seq![
        ("\\0..\\9"@, "        fold to level 0..9"@),
        ("\\a"@, "           fold all open"@),
        ("\\v \\V \\o"@, "      checkbox / + timestamp / in-progress"@),
        ("\\n"@, "           autonumber toggle"@),
        ("\\R"@, "           renumber selection (visual)"@),
        ("\\s"@, "           sort by indent (visual)"@),
        ("\\u"@, "           state/transition underline"@),
        ("\\h"@, "           limelight highlight"@),
        ("\\r"@, "           reference jump (ref/file/URL)"@),
        ("\\p"@, "           presentation mode toggle"@),
        ("\\c"@, "           complexity report"@),
        ("\\C"@, "           colour selection (visual, prism)"@),
        ("\\F"@, "           font on selection (visual, fonts)"@),
        ("\\M"@, "           toggle colour/font markup"@),
        ("\\g"@, "           calendar add (gcalcli)"@),
        ("\\S \\H \\N"@, "     show / hide / clear word"@),
        ("\\ee \\ed \\ek"@, "        encrypt / decrypt / rekey"@),
        ("\\xh \\xl \\xm \\xp \\xd \\xo"@, " export HTML/LaTeX/MD/PDF/docx/odt"@),
    ]
}

fn list_leader_bindings() -> (v: Vec<(String, String)>)
    ensures
        pairs_view(v@) == leader_bindings(),
{
    let mut v: Vec<(String, String)> = Vec::new();
    v.push(("\\0..\\9".to_owned(), "        fold to level 0..9".to_owned()));
    v.push(("\\a".to_owned(), "           fold all open".to_owned()));
    v.push(("\\v \\V \\o".to_owned(), "      checkbox / + timestamp / in-progress".to_owned()));
    v.push(("\\n".to_owned(), "           autonumber toggle".to_owned()));
    v.push(("\\R".to_owned(), "           renumber selection (visual)".to_owned()));
    v.push(("\\s".to_owned(), "           sort by indent (visual)".to_owned()));
    v.push(("\\u".to_owned(), "           state/transition underline".to_owned()));
    v.push(("\\h".to_owned(), "           limelight highlight".to_owned()));
    v.push(("\\r".to_owned(), "           reference jump (ref/file/URL)".to_owned()));
    v.push(("\\p".to_owned(), "           presentation mode toggle".to_owned()));
    v.push(("\\c".to_owned(), "           complexity report".to_owned()));
    v.push(("\\C".to_owned(), "           colour selection (visual, prism)".to_owned()));
    v.push(("\\F".to_owned(), "           font on selection (visual, fonts)".to_owned()));
    v.push(("\\M".to_owned(), "           toggle colour/font markup".to_owned()));
    v.push(("\\g".to_owned(), "           calendar add (gcalcli)".to_owned()));
    v.push(("\\S \\H \\N".to_owned(), "     show / hide / clear word".to_owned()));
    v.push(("\\ee \\ed \\ek".to_owned(), "        encrypt / decrypt / rekey".to_owned()));
    v.push(("\\xh \\xl \\xm \\xp \\xd \\xo".to_owned(), " export HTML/LaTeX/MD/PDF/docx/odt".to_owned()));
    assert(pairs_view(v@) =~= leader_bindings());
    v
}

/// A binding and what it does.
pub open spec fn binding_row(k: Seq<char>, d: Seq<char>) -> Seq<SpanV> {
    seq![plain("  "@), colored(k, 220), plain(d)]
}

/// The list of leader bindings, for a popup of 64 columns.
pub open spec fn cheatsheet_lines() -> Seq<Seq<SpanV>> {
    let b = leader_bindings();
    seq![
        Seq::<SpanV>::empty(),
        set_in(SpanV { text: "HyperList — leader bindings (\\)"@, color: None, bold: true }),
        rule(64),
    ] + Seq::new(b.len(), |i: int| binding_row(b[i].0, b[i].1)) + seq![
        rule(64),
        binding_row("ESC"@, "  Close"@),
    ]
}

pub(crate) fn draw_binding(k: &str, d: &str) -> (l: Vec<Span>)
    ensures
        line_view(l@) == binding_row(k@, d@),
{
    let mut l: Vec<Span> = Vec::new();
    l.push(plain_span("  "));
    l.push(color_span(k, 220));
    l.push(plain_span(d));
    assert(line_view(l@) =~= binding_row(k@, d@));
    l
}

/// The popup that lists the leader bindings.
pub fn show_hl_cheatsheet() -> (p: Vec<Vec<Span>>)
    ensures
        popup_view(p@) == cheatsheet_lines(),
{
    let rows: Vec<(String, String)> = list_leader_bindings();
    let ghost rv = pairs_view(rows@);
    let mut p: Vec<Vec<Span>> = Vec::new();
    add_blank(&mut p);
    add_line(
        &mut p,
        indented(Span { text: "HyperList — leader bindings (\\)".to_owned(), color: None, bold: true }),
    );
    add_line(&mut p, draw_rule(64));
    let ghost top = popup_view(p@);
    let mut i: usize = 0;
    assert(top + Seq::new(0, |k: int| binding_row(rv[k].0, rv[k].1)) =~= top);
    while i < rows.len()
        invariant
            i <= rows.len(),
            rv == pairs_view(rows@),
            popup_view(p@) == top + Seq::new(i as nat, |k: int| binding_row(rv[k].0, rv[k].1)),
        decreases rows.len() - i,
    {
        assert(rv[i as int] == (rows@[i as int].0@, rows@[i as int].1@));
        add_line(&mut p, draw_binding(&rows[i].0, &rows[i].1));
        assert(popup_view(p@) =~= top + Seq::new(
            (i + 1) as nat,
            |k: int| binding_row(rv[k].0, rv[k].1),
        ));
        i += 1;
    }
    add_line(&mut p, draw_rule(64));
    add_line(&mut p, draw_binding("ESC", "  Close"));
    assert(popup_view(p@) =~= cheatsheet_lines());
    p
}

// ── Size and keys ───────────────────────────────────────────────────────

/// Columns of a popup on a screen of `cols` columns: two less, and from 50 to
/// `most`.
pub open spec fn width_of(cols: int, most: int) -> int {
    let w = if cols >= 2 {
        cols - 2
    } else {
        0
    };
    let w = if w > most {
        most
    } else {
        w
    };
    if w < 50 {
        50
    } else {
        w
    }
}

/// Rows of a popup on a screen of `rows` rows: six less, and at least 12.
pub open spec fn height_of(rows: int) -> int {
    if rows < 18 {
        12
    } else {
        rows - 6
    }
}

pub fn popup_width(cols: u16, most: u16) -> (w: u16)
    ensures
        w == width_of(cols as int, most as int),
{
    let w: u16 = if cols >= 2 {
        cols - 2
    } else {
        0
    };
    let w: u16 = if w > most {
        most
    } else {
        w
    };
    if w < 50 {
        50
    } else {
        w
    }
}

pub fn popup_height(rows: u16) -> (h: u16)
    ensures
        h == height_of(rows as int),
{
    if rows < 18 {
        12
    } else {
        rows - 6
    }
}

/// What a key does to a popup.
#[derive(Copy, Clone, Debug, PartialEq, Eq, Structural)]
pub enum PopupStep {
    Stay,
    Close,
    Down,
    Up,
    PageDown,
    PageUp,
    Top,
    Bottom,
}

pub open spec fn step_of(k: Seq<char>) -> PopupStep {
    if k == "ESC"@ || k == "q"@ {
        PopupStep::Close
    } else if k == "j"@ || k == "DOWN"@ {
        PopupStep::Down
    } else if k == "k"@ || k == "UP"@ {
        PopupStep::Up
    } else if k == "PgDOWN"@ || k == " "@ {
        PopupStep::PageDown
    } else if k == "PgUP"@ {
        PopupStep::PageUp
    } else if k == "g"@ || k == "HOME"@ {
        PopupStep::Top
    } else if k == "G"@ || k == "END"@ {
        PopupStep::Bottom
    } else {
        PopupStep::Stay
    }
}

/// Reads a key typed into a popup.
pub fn popup_step(k: &str) -> (s: PopupStep)
    ensures
        s == step_of(k@),
{
    if same(k, "ESC") || same(k, "q") {
        PopupStep::Close
    } else if same(k, "j") || same(k, "DOWN") {
        PopupStep::Down
    } else if same(k, "k") || same(k, "UP") {
        PopupStep::Up
    } else if same(k, "PgDOWN") || same(k, " ") {
        PopupStep::PageDown
    } else if same(k, "PgUP") {
        PopupStep::PageUp
    } else if same(k, "g") || same(k, "HOME") {
        PopupStep::Top
    } else if same(k, "G") || same(k, "END") {
        PopupStep::Bottom
    } else {
        PopupStep::Stay
    }
}

// ── Help ────────────────────────────────────────────────────────────────

/// The topic is the HyperList format.
pub open spec fn on_hyperlist(topic: Seq<char>) -> bool {
    let t = chars::lower_of(strs::trimmed(topic));
    t == "hl"@ || t == "hyperlist"@
}

/// Whether the help is about the HyperList format.
pub fn is_hyperlist_topic(topic: &str) -> (r: bool)
    ensures
        r == on_hyperlist(topic@),
{
    let t: String = trim(topic).to_lowercase();
    same(&t, "hl") || same(&t, "hyperlist")
}

/// The first line of the help popup.
pub open spec fn help_head(topic: Seq<char>) -> Seq<char> {
    ":help — "@ + (if on_hyperlist(topic) {
        "HyperList"@
    } else {
        "README"@
    }) + " (ESC/q close, j/k scroll)"@
}

pub fn open_help(topic: &str) -> (s: String)
    ensures
        s@ == help_head(topic@),
{
    let name: &str = if is_hyperlist_topic(topic) {
        "HyperList"
    } else {
        "README"
    };
    cat3(":help — ", name, " (ESC/q close, j/k scroll)")
}

} // verus!
