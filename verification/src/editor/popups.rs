//! Popups that show the editor's own state: key maps, registers and
//! preferences.

use vstd::prelude::*;
use vstd::string::*;
use crate::buffer;
use crate::chars;
use crate::config::Preferences;
use crate::editor::spelling;
use crate::editor::state;
use crate::editor::state::{Editor, EdV, KeyMap, KeyMapV, Options};
use crate::fold;
use crate::popup;
use crate::popup::{
    add_blank, add_line, color_span, draw_rule, indented, plain_span, strong, Span, SpanV,
};
use crate::register::{Yank, YankKind, YankV};
use crate::strs;
use crate::strs::{cat2, cat3, clip, dec, join, one, parse_number, repeat, replace_char, trim};
use crate::text;
use crate::text::{chars_of, same};

verus! {

// ── Key maps ────────────────────────────────────────────────────────────

/// `a` is `b`, which is in lower case, apart from the case of ASCII letters.
pub open spec fn same_name(a: Seq<char>, b: Seq<char>) -> bool {
    &&& a.len() == b.len()
    &&& forall|i: int|
        0 <= i < a.len() ==> #[trigger] a[i] == b[i] || (chars::is_ascii_upper(a[i]) && a[i] as u32
            + 32 == b[i] as u32)
}

/// The modes that key maps are grouped by.
pub open spec fn is_known_mode(m: Seq<char>) -> bool {
    same_name(m, "normal"@) || same_name(m, "insert"@) || same_name(m, "visual"@)
}

/// A text padded with spaces to eight characters.
pub open spec fn padded(s: Seq<char>) -> Seq<char> {
    s + strs::repeated(" "@, 8 - s.len())
}

pub open spec fn map_row(m: KeyMapV) -> Seq<SpanV> {
    seq![
        popup::plain("  "@),
        popup::colored(padded(strs::joined(m.lhs, ""@)), 220),
        popup::plain("    "@),
        popup::colored(m.rhs, 81),
    ]
}

pub open spec fn odd_map_row(m: KeyMapV) -> Seq<SpanV> {
    seq![
        popup::plain("  "@),
        popup::colored(m.mode, 244),
        popup::plain("  "@),
        popup::colored(strs::joined(m.lhs, ""@), 220),
        popup::plain("  "@),
        popup::colored(m.rhs, 81),
    ]
}

/// Rows of those of the first `n` maps that are for a mode.
pub open spec fn mode_rows(ms: Seq<KeyMapV>, mode: Seq<char>, n: int) -> Seq<Seq<SpanV>>
    decreases n,
{
    if n <= 0 {
        Seq::empty()
    } else if same_name(ms[n - 1].mode, mode) {
        mode_rows(ms, mode, n - 1).push(map_row(ms[n - 1]))
    } else {
        mode_rows(ms, mode, n - 1)
    }
}

/// Rows of those of the first `n` maps that are for some other mode.
pub open spec fn odd_rows(ms: Seq<KeyMapV>, n: int) -> Seq<Seq<SpanV>>
    decreases n,
{
    if n <= 0 {
        Seq::empty()
    } else if !is_known_mode(ms[n - 1].mode) {
        odd_rows(ms, n - 1).push(odd_map_row(ms[n - 1]))
    } else {
        odd_rows(ms, n - 1)
    }
}

/// A group of rows behind those before it, if it has any.
pub open spec fn grouped(
    before: Seq<Seq<SpanV>>,
    name: Seq<char>,
    rows: Seq<Seq<SpanV>>,
) -> Seq<Seq<SpanV>> {
    if rows.len() == 0 {
        before
    } else if before.len() == 0 {
        seq![popup::heading(name)] + rows
    } else {
        before.push(Seq::empty()).push(popup::heading(name)) + rows
    }
}

/// The key maps by mode.
pub open spec fn map_groups(ms: Seq<KeyMapV>) -> Seq<Seq<SpanV>> {
    let n = ms.len() as int;
    grouped(
        grouped(
            grouped(
                grouped(Seq::empty(), "NORMAL"@, mode_rows(ms, "normal"@, n)),
                "INSERT"@,
                mode_rows(ms, "insert"@, n),
            ),
            "VISUAL"@,
            mode_rows(ms, "visual"@, n),
        ),
        "OTHER"@,
        odd_rows(ms, n),
    )
}

pub open spec fn grey(t: Seq<char>) -> Seq<SpanV> {
    popup::set_in(popup::colored(t, 244))
}

/// How to write key maps, shown while there are none.
pub open spec fn map_advice() -> Seq<Seq<SpanV>> {
    seq![
        grey("(no user keymaps defined)"@),
        Seq::empty(),
        popup::heading("Add bindings to your scriberc"@),
        grey("~/.config/scribe/scriberc — start the section with `[keymap]`,"@),
        grey("then one mapping per line:"@),
        Seq::empty(),
        popup::set_in(popup::colored("    MODE  LHS  RHS"@, 81)),
        Seq::empty(),
        grey("MODE is normal / insert / visual (case-insensitive)."@),
        grey("LHS uses macro notation: literal chars, plus <CR>, <Esc>,"@),
        grey("<C-Space>, etc. RHS keeps internal spaces; an RHS that starts"@),
        grey("with `:` is fed straight to the command executor."@),
        Seq::empty(),
        popup::heading("Example"@),
        popup::set_in(popup::colored("    normal  ø  ddO<CR><CR><Up>"@, 81)),
    ]
}

/// The list of key maps, for a popup of `w` columns.
pub open spec fn maps_lines(ms: Seq<KeyMapV>, w: int) -> Seq<Seq<SpanV>> {
    seq![
        Seq::empty(),
        popup::title("Scribe — your personal keymaps (:map)"@),
        popup::rule(w),
    ] + (if ms.len() == 0 {
        map_advice()
    } else {
        map_groups(ms)
    }) + seq![
        Seq::empty(),
        popup::rule(w),
        seq![
            popup::plain("  "@),
            popup::colored(strs::dec_of(ms.len() as int) + " mapping(s)"@, 244),
            popup::plain("   "@),
            popup::colored("j/k scroll   ESC / q  close"@, 244),
        ],
    ]
}

/// Whether two names are the same.
pub fn is_same_name(a: &str, b: &str) -> (r: bool)
    ensures
        r == same_name(a@, b@),
{
    let v: Vec<char> = chars_of(a);
    let w: Vec<char> = chars_of(b);
    if v.len() != w.len() {
        return false;
    }
    let mut i: usize = 0;
    while i < v.len()
        invariant
            v@ == a@,
            w@ == b@,
            i <= v.len(),
            v.len() == w.len(),
            forall|k: int|
                0 <= k < i ==> #[trigger] a@[k] == b@[k] || (chars::is_ascii_upper(a@[k])
                    && a@[k] as u32 + 32 == b@[k] as u32),
        decreases v.len() - i,
    {
        let up: bool = chars::ascii_upper(v[i]) && v[i] as u32 + 32 == w[i] as u32;
        if v[i] != w[i] && !up {
            assert(!(a@[i as int] == b@[i as int] || (chars::is_ascii_upper(a@[i as int])
                && a@[i as int] as u32 + 32 == b@[i as int] as u32)));
            return false;
        }
        i += 1;
    }
    true
}

fn draw_map(m: &KeyMap) -> (l: Vec<Span>)
    ensures
        popup::line_view(l@) == map_row(m@),
{
    let lhs: String = join(&m.lhs, "");
    let n: usize = chars_of(&lhs).len();
    let pad: usize = if n < 8 {
        8 - n
    } else {
        0
    };
    assert(n > 8 ==> strs::repeated(" "@, 8 - n) =~= strs::repeated(" "@, 0));
    let mut l: Vec<Span> = Vec::new();
    l.push(plain_span("  "));
    l.push(color_span(&cat2(&lhs, &repeat(" ", pad)), 220));
    l.push(plain_span("    "));
    l.push(color_span(&m.rhs, 81));
    assert(popup::line_view(l@) =~= map_row(m@));
    l
}

fn draw_odd_map(m: &KeyMap) -> (l: Vec<Span>)
    ensures
        popup::line_view(l@) == odd_map_row(m@),
{
    let mut l: Vec<Span> = Vec::new();
    l.push(plain_span("  "));
    l.push(color_span(&m.mode, 244));
    l.push(plain_span("  "));
    l.push(color_span(&join(&m.lhs, ""), 220));
    l.push(plain_span("  "));
    l.push(color_span(&m.rhs, 81));
    assert(popup::line_view(l@) =~= odd_map_row(m@));
    l
}

fn draw_mode(ms: &Vec<KeyMap>, mode: &str) -> (p: Vec<Vec<Span>>)
    ensures
        popup::popup_view(p@) == mode_rows(state::maps_view(ms@), mode@, ms@.len() as int),
{
    let ghost mv = state::maps_view(ms@);
    let mut p: Vec<Vec<Span>> = Vec::new();
    let mut i: usize = 0;
    assert(popup::popup_view(p@) =~= Seq::empty());
    while i < ms.len()
        invariant
            i <= ms.len(),
            mv == state::maps_view(ms@),
            popup::popup_view(p@) == mode_rows(mv, mode@, i as int),
        decreases ms.len() - i,
    {
        assert(mv[i as int] == ms@[i as int]@);
        if is_same_name(&ms[i].mode, mode) {
            add_line(&mut p, draw_map(&ms[i]));
        }
        i += 1;
    }
    p
}

fn draw_odd(ms: &Vec<KeyMap>) -> (p: Vec<Vec<Span>>)
    ensures
        popup::popup_view(p@) == odd_rows(state::maps_view(ms@), ms@.len() as int),
{
    let ghost mv = state::maps_view(ms@);
    let mut p: Vec<Vec<Span>> = Vec::new();
    let mut i: usize = 0;
    assert(popup::popup_view(p@) =~= Seq::empty());
    while i < ms.len()
        invariant
            i <= ms.len(),
            mv == state::maps_view(ms@),
            popup::popup_view(p@) == odd_rows(mv, i as int),
        decreases ms.len() - i,
    {
        assert(mv[i as int] == ms@[i as int]@);
        let m: &str = &ms[i].mode;
        if !is_same_name(m, "normal") && !is_same_name(m, "insert") && !is_same_name(m, "visual") {
            add_line(&mut p, draw_odd_map(&ms[i]));
        }
        i += 1;
    }
    p
}

fn add_group(p: &mut Vec<Vec<Span>>, name: &str, rows: Vec<Vec<Span>>)
    ensures
        popup::popup_view(final(p)@) == grouped(
            popup::popup_view(old(p)@),
            name@,
            popup::popup_view(rows@),
        ),
{
    let ghost base = popup::popup_view(p@);
    let ghost rv = popup::popup_view(rows@);
    assert(base.len() == p@.len());
    assert(rv.len() == rows@.len());
    if rows.len() == 0 {
        return;
    }
    if p.len() > 0 {
        add_blank(p);
    }
    add_line(p, indented(strong(name, 81)));
    let ghost before = p@;
    let ghost rs = rows@;
    let mut rest: Vec<Vec<Span>> = rows;
    p.append(&mut rest);
    assert(popup::popup_view(p@) =~= popup::popup_view(before) + popup::popup_view(rs));
    assert(popup::popup_view(p@) =~= grouped(base, name@, rv));
}

fn draw_advice() -> (p: Vec<Vec<Span>>)
    ensures
        popup::popup_view(p@) == map_advice(),
{
    let mut p: Vec<Vec<Span>> = Vec::new();
    assert(popup::popup_view(p@) =~= Seq::empty());
    add_line(&mut p, indented(color_span("(no user keymaps defined)", 244)));
    add_blank(&mut p);
    add_line(&mut p, indented(strong("Add bindings to your scriberc", 81)));
    add_line(
        &mut p,
        indented(
            color_span("~/.config/scribe/scriberc — start the section with `[keymap]`,", 244),
        ),
    );
    add_line(&mut p, indented(color_span("then one mapping per line:", 244)));
    add_blank(&mut p);
    add_line(&mut p, indented(color_span("    MODE  LHS  RHS", 81)));
    add_blank(&mut p);
    add_line(
        &mut p,
        indented(color_span("MODE is normal / insert / visual (case-insensitive).", 244)),
    );
    add_line(
        &mut p,
        indented(color_span("LHS uses macro notation: literal chars, plus <CR>, <Esc>,", 244)),
    );
    add_line(
        &mut p,
        indented(
            color_span("<C-Space>, etc. RHS keeps internal spaces; an RHS that starts", 244),
        ),
    );
    add_line(
        &mut p,
        indented(color_span("with `:` is fed straight to the command executor.", 244)),
    );
    add_blank(&mut p);
    add_line(&mut p, indented(strong("Example", 81)));
    add_line(&mut p, indented(color_span("    normal  ø  ddO<CR><CR><Up>", 81)));
    assert(popup::popup_view(p@) =~= map_advice());
    p
}

fn draw_groups(ms: &Vec<KeyMap>) -> (p: Vec<Vec<Span>>)
    ensures
        popup::popup_view(p@) == map_groups(state::maps_view(ms@)),
{
    let mut p: Vec<Vec<Span>> = Vec::new();
    assert(popup::popup_view(p@) =~= Seq::empty());
    assert(state::maps_view(ms@).len() == ms@.len());
    add_group(&mut p, "NORMAL", draw_mode(ms, "normal"));
    add_group(&mut p, "INSERT", draw_mode(ms, "insert"));
    add_group(&mut p, "VISUAL", draw_mode(ms, "visual"));
    add_group(&mut p, "OTHER", draw_odd(ms));
    p
}

// ── Registers ───────────────────────────────────────────────────────────

/// Registers in the order in which they are listed.
pub open spec fn listed_registers() -> Seq<char> {
    "\"0abcdefghijklmnopqrstuvwxyz123456789"@
}

pub open spec fn kind_letter(k: YankKind) -> Seq<char> {
    match k {
        YankKind::Charwise => "c"@,
        YankKind::Linewise => "l"@,
        YankKind::Block => "b"@,
    }
}

/// The text of a register on one line of at most 60 characters.
pub open spec fn preview(t: Seq<char>) -> Seq<char> {
    let p = strs::char_replaced(t, '\n', "\\n"@, t.len() as int);
    if p.len() > 60 {
        p.take(60) + "…"@
    } else {
        p
    }
}

pub open spec fn reg_row(c: char, y: YankV) -> Seq<SpanV> {
    seq![
        popup::plain("  "@),
        popup::colored("\""@ + seq![c], 220),
        popup::plain("  ["@),
        popup::colored(kind_letter(y.kind), 244),
        popup::plain("]  "@),
        popup::colored(preview(y.text), 81),
    ]
}

fn draw_preview(t: &str) -> (s: String)
    ensures
        s@ == preview(t@),
{
    let p: String = replace_char(t, '\n', "\\n");
    if chars_of(&p).len() > 60 {
        assert(strs::clipped(p@, 60) =~= p@.take(60));
        cat2(&clip(&p, 60), "…")
    } else {
        p
    }
}

fn draw_register(c: char, y: &Yank) -> (l: Vec<Span>)
    ensures
        popup::line_view(l@) == reg_row(c, y@),
{
    let kind: &str = match y.kind {
        YankKind::Charwise => "c",
        YankKind::Linewise => "l",
        YankKind::Block => "b",
    };
    let mut l: Vec<Span> = Vec::new();
    l.push(plain_span("  "));
    l.push(color_span(&cat2("\"", &one(c)), 220));
    l.push(plain_span("  ["));
    l.push(color_span(kind, 244));
    l.push(plain_span("]  "));
    l.push(color_span(&draw_preview(&y.text), 81));
    assert(popup::line_view(l@) =~= reg_row(c, y@));
    l
}

impl EdV {
    /// Rows of the first `n` registers that are set.
    pub open spec fn reg_rows(self, n: int) -> Seq<Seq<SpanV>>
        decreases n,
    {
        if n <= 0 {
            Seq::empty()
        } else {
            let c = listed_registers()[n - 1];
            match self.regs.get(c) {
                Some(y) => self.reg_rows(n - 1).push(reg_row(c, y)),
                None => self.reg_rows(n - 1),
            }
        }
    }

    /// The list of registers.
    pub open spec fn reg_lines(self) -> Seq<Seq<SpanV>> {
        let rows = self.reg_rows(listed_registers().len() as int);
        seq![
            Seq::empty(),
            popup::set_in(SpanV { text: "Registers"@, color: None, bold: true }),
            popup::rule(70),
        ] + (if rows.len() == 0 {
            seq![grey("(no registers set)"@)]
        } else {
            rows
        }) + seq![Seq::empty(), popup::rule(70), popup::binding_row("ESC"@, "  Close"@)]
    }
}

impl Editor {
    /// The popup that lists the key maps.
    pub fn show_maps_popup(&self, w: usize) -> (p: Vec<Vec<Span>>)
        ensures
            popup::popup_view(p@) == maps_lines(self@.keymaps, w as int),
    {
        assert(self@.keymaps.len() == self.keymaps@.len());
        let mut p: Vec<Vec<Span>> = Vec::new();
        assert(popup::popup_view(p@) =~= Seq::empty());
        add_blank(&mut p);
        add_line(&mut p, indented(strong("Scribe — your personal keymaps (:map)", 220)));
        add_line(&mut p, draw_rule(w));
        let ghost top = p@;
        let mut rows: Vec<Vec<Span>> = if self.keymaps.len() == 0 {
            draw_advice()
        } else {
            draw_groups(&self.keymaps)
        };
        let ghost rs = rows@;
        p.append(&mut rows);
        assert(popup::popup_view(p@) =~= popup::popup_view(top) + popup::popup_view(rs));
        add_blank(&mut p);
        add_line(&mut p, draw_rule(w));
        let mut l: Vec<Span> = Vec::new();
        l.push(plain_span("  "));
        l.push(color_span(&cat2(&dec(self.keymaps.len() as u128), " mapping(s)"), 244));
        l.push(plain_span("   "));
        l.push(color_span("j/k scroll   ESC / q  close", 244));
        assert(popup::line_view(l@) =~= seq![
            popup::plain("  "@),
            popup::colored(strs::dec_of(self@.keymaps.len() as int) + " mapping(s)"@, 244),
            popup::plain("   "@),
            popup::colored("j/k scroll   ESC / q  close"@, 244),
        ]);
        add_line(&mut p, l);
        assert(popup::popup_view(p@) =~= maps_lines(self@.keymaps, w as int));
        p
    }

    /// The popup that lists the registers.
    pub fn show_reg_popup(&self) -> (p: Vec<Vec<Span>>)
        ensures
            popup::popup_view(p@) == self@.reg_lines(),
    {
        let names: Vec<char> = chars_of("\"0abcdefghijklmnopqrstuvwxyz123456789");
        let mut rows: Vec<Vec<Span>> = Vec::new();
        let mut i: usize = 0;
        assert(popup::popup_view(rows@) =~= Seq::empty());
        while i < names.len()
            invariant
                i <= names.len(),
                names@ == listed_registers(),
                popup::popup_view(rows@) == self@.reg_rows(i as int),
            decreases names.len() - i,
        {
            if let Some(y) = self.regs.get(names[i]) {
                add_line(&mut rows, draw_register(names[i], y));
            }
            i += 1;
        }
        assert(popup::popup_view(rows@).len() == rows@.len());
        let mut p: Vec<Vec<Span>> = Vec::new();
        assert(popup::popup_view(p@) =~= Seq::empty());
        add_blank(&mut p);
        add_line(
            &mut p,
            indented(Span { text: "Registers".to_owned(), color: None, bold: true }),
        );
        add_line(&mut p, draw_rule(70));
        let ghost top = p@;
        let ghost rs = rows@;
        if rows.len() == 0 {
            add_line(&mut p, indented(color_span("(no registers set)", 244)));
        } else {
            p.append(&mut rows);
            assert(popup::popup_view(p@) =~= popup::popup_view(top) + popup::popup_view(rs));
        }
        add_blank(&mut p);
        add_line(&mut p, draw_rule(70));
        add_line(&mut p, popup::draw_binding("ESC", "  Close"));
        assert(popup::popup_view(p@) =~= self@.reg_lines());
        p
    }
}

// ── Preferences ─────────────────────────────────────────────────────────

pub open spec fn switch(b: bool) -> SpanV {
    if b {
        popup::colored("on"@, 35)
    } else {
        popup::colored("off"@, 196)
    }
}

/// A key, the name of a preference and its value.
pub open spec fn pref_row(k: Seq<char>, name: Seq<char>, v: SpanV) -> Seq<SpanV> {
    seq![popup::plain("  "@), popup::colored(k, 220), popup::plain(name), v]
}

/// What a key in the preferences asks of the shell.
pub enum ConfigStep {
    Stay,
    Close,
    /// Switch the highlighter to that theme.
    SetTheme(String),
    /// Start the spelling checker; then say how many words it found.
    StartSpell,
    /// Ask for the language of the spelling checker.
    AskLang,
    /// Ask for the colour of the line under misspelt words.
    AskColor,
    /// Write the settings file.
    Save,
}

#[verifier::ext_equal]
pub enum ConfigV {
    Stay,
    Close,
    SetTheme(Seq<char>),
    StartSpell,
    AskLang,
    AskColor,
    Save,
}

impl View for ConfigStep {
    type V = ConfigV;

    open spec fn view(&self) -> ConfigV {
        match self {
            ConfigStep::Stay => ConfigV::Stay,
            ConfigStep::Close => ConfigV::Close,
            ConfigStep::SetTheme(t) => ConfigV::SetTheme(t@),
            ConfigStep::StartSpell => ConfigV::StartSpell,
            ConfigStep::AskLang => ConfigV::AskLang,
            ConfigStep::AskColor => ConfigV::AskColor,
            ConfigStep::Save => ConfigV::Save,
        }
    }
}

/// Number of the theme with that name, from number `i` on; the first theme
/// when there is none.
pub open spec fn theme_number(themes: Seq<Seq<char>>, name: Seq<char>, i: int) -> int
    decreases themes.len() - i,
{
    if i < 0 || i >= themes.len() {
        0
    } else if themes[i] == name {
        i
    } else {
        theme_number(themes, name, i + 1)
    }
}

impl EdV {
    /// The preferences, with the colour of the line under misspelt words.
    pub open spec fn config_lines(self, themes: Seq<Seq<char>>, miss: u8) -> Seq<Seq<SpanV>> {
        seq![
            Seq::empty(),
            popup::set_in(SpanV { text: "Preferences"@, color: None, bold: true }),
            popup::rule(60),
            pref_row(
                "t"@,
                "  Theme:        "@,
                popup::colored(themes[theme_number(themes, self.theme, 0)], 81),
            ),
            pref_row("n"@, "  Number col:   "@, switch(self.options.numbers)),
            pref_row("r"@, "  Relative no:  "@, switch(self.options.relative_numbers)),
            Seq::empty(),
            pref_row("s"@, "  Spell:        "@, switch(self.options.spell)),
            pref_row("l"@, "  Spell lang:   "@, popup::colored(self.spell_lang, 81)),
            pref_row(
                "c"@,
                "  Spell color:  "@,
                popup::colored(strs::dec_of(miss as int), 81),
            ).push(popup::plain(" "@)).push(popup::colored("███"@, miss)),
            Seq::empty(),
            popup::rule(60),
            seq![
                popup::plain("  "@),
                popup::colored("W"@, 220),
                popup::plain("  Save to scriberc       "@),
                popup::colored("ESC"@, 220),
                popup::plain("  Close"@),
            ],
        ]
    }

    /// A key typed into the preferences.
    #[verifier::opaque]
    pub open spec fn config_key(self, k: Seq<char>, themes: Seq<Seq<char>>) -> (EdV, ConfigV) {
        let o = self.options;
        if k == "ESC"@ || k == "q"@ {
            (self, ConfigV::Close)
        } else if k == "t"@ {
            let next = themes[(theme_number(themes, self.theme, 0) + 1) % themes.len() as int];
            (EdV { theme: next, ..self }, ConfigV::SetTheme(next))
        } else if k == "n"@ {
            (
                EdV {
                    options: Options {
                        numbers: !o.numbers,
                        relative_numbers: o.relative_numbers && !o.numbers,
                        ..o
                    },
                    ..self
                },
                ConfigV::Stay,
            )
        } else if k == "r"@ {
            (
                EdV {
                    options: Options {
                        relative_numbers: !o.relative_numbers,
                        numbers: o.numbers || !o.relative_numbers,
                        ..o
                    },
                    ..self
                },
                ConfigV::Stay,
            )
        } else if k == "s"@ {
            if o.spell {
                (self.spell_off().say(" spell off"@, 244), ConfigV::Stay)
            } else {
                (self, ConfigV::StartSpell)
            }
        } else if k == "l"@ {
            (self, ConfigV::AskLang)
        } else if k == "c"@ {
            (self, ConfigV::AskColor)
        } else if k == "W"@ {
            (self, ConfigV::Save)
        } else {
            (self, ConfigV::Stay)
        }
    }

    /// How many words the checker found, once it runs.
    pub open spec fn say_flagged(self) -> EdV {
        if self.options.spell {
            self.say(
                " spell on ("@ + strs::dec_of(self.missp.len() as int) + " words flagged)"@,
                46,
            )
        } else {
            self
        }
    }

    /// As [`EdV::say_flagged`], for `:set spell`.
    pub open spec fn say_words(self) -> EdV {
        if self.options.spell {
            self.say(
                " spell on ("@ + strs::dec_of(self.missp.len() as int) + " words)"@,
                244,
            )
        } else {
            self
        }
    }

    pub open spec fn rc_saved(self, failed: Option<Seq<char>>) -> EdV {
        match failed {
            None => self.say(" scriberc saved"@, 46),
            Some(e) => self.say(" scriberc save failed: "@ + e, 196),
        }
    }
}

/// In the preferences, relative numbers are never on without numbers.
pub proof fn law_relative_with_numbers(s: EdV, k: Seq<char>, themes: Seq<Seq<char>>)
    requires
        s.options.relative_numbers ==> s.options.numbers,
    ensures
        ({
            let o = s.config_key(k, themes).0.options;
            o.relative_numbers ==> o.numbers
        }),
{
    reveal(EdV::config_key);
    reveal(EdV::spell_off);
}

fn draw_pref(k: &str, name: &str, v: Span) -> (l: Vec<Span>)
    ensures
        popup::line_view(l@) == pref_row(k@, name@, v@),
{
    let ghost vv = v@;
    let mut l: Vec<Span> = Vec::new();
    l.push(plain_span("  "));
    l.push(color_span(k, 220));
    l.push(plain_span(name));
    l.push(v);
    assert(popup::line_view(l@) =~= pref_row(k@, name@, vv));
    l
}

fn draw_switch(b: bool) -> (s: Span)
    ensures
        s@ == switch(b),
{
    if b {
        color_span("on", 35)
    } else {
        color_span("off", 196)
    }
}

fn find_theme(themes: &Vec<String>, name: &str) -> (i: usize)
    requires
        themes.len() > 0,
    ensures
        i == theme_number(fold::views(themes@), name@, 0),
        i < themes@.len(),
{
    let ghost tv = fold::views(themes@);
    let mut i: usize = 0;
    while i < themes.len()
        invariant
            i <= themes.len(),
            themes.len() > 0,
            tv == fold::views(themes@),
            theme_number(tv, name@, 0) == theme_number(tv, name@, i as int),
        decreases themes.len() - i,
    {
        assert(tv[i as int] == themes@[i as int]@);
        if same(&themes[i], name) {
            return i;
        }
        i += 1;
    }
    0
}

/// The colour that an answer names.
pub fn parse_color(s: &str) -> (r: Option<u8>)
    ensures
        (match r {
            Some(n) => Some(n as int),
            None => None,
        }) == strs::plus_number(strs::trimmed(s@), 255),
{
    match parse_number(&trim(s), 255) {
        Some(n) => Some(n as u8),
        None => None,
    }
}

impl Editor {
    fn draw_color(miss: u8) -> (l: Vec<Span>)
        ensures
            popup::line_view(l@) == pref_row(
                "c"@,
                "  Spell color:  "@,
                popup::colored(strs::dec_of(miss as int), 81),
            ).push(popup::plain(" "@)).push(popup::colored("███"@, miss)),
    {
        let mut l: Vec<Span> = draw_pref(
            "c",
            "  Spell color:  ",
            color_span(&dec(miss as u128), 81),
        );
        let ghost before = popup::line_view(l@);
        l.push(plain_span(" "));
        l.push(color_span("███", miss));
        assert(popup::line_view(l@) =~= before.push(popup::plain(" "@)).push(
            popup::colored("███"@, miss),
        ));
        l
    }

    /// The popup of the preferences.
    pub fn show_config_popup(&self, themes: &Vec<String>, miss: u8) -> (p: Vec<Vec<Span>>)
        requires
            themes.len() > 0,
        ensures
            popup::popup_view(p@) == self@.config_lines(fold::views(themes@), miss),
    {
        let t: usize = find_theme(themes, &self.theme_name);
        assert(fold::views(themes@)[t as int] == themes@[t as int]@);
        let mut p: Vec<Vec<Span>> = Vec::new();
        assert(popup::popup_view(p@) =~= Seq::empty());
        add_blank(&mut p);
        add_line(
            &mut p,
            indented(Span { text: "Preferences".to_owned(), color: None, bold: true }),
        );
        add_line(&mut p, draw_rule(60));
        add_line(&mut p, draw_pref("t", "  Theme:        ", color_span(&themes[t], 81)));
        add_line(&mut p, draw_pref("n", "  Number col:   ", draw_switch(self.options.numbers)));
        add_line(
            &mut p,
            draw_pref("r", "  Relative no:  ", draw_switch(self.options.relative_numbers)),
        );
        add_blank(&mut p);
        add_line(&mut p, draw_pref("s", "  Spell:        ", draw_switch(self.options.spell)));
        add_line(&mut p, draw_pref("l", "  Spell lang:   ", color_span(&self.spell_lang, 81)));
        add_line(&mut p, Self::draw_color(miss));
        add_blank(&mut p);
        add_line(&mut p, draw_rule(60));
        let mut l: Vec<Span> = Vec::new();
        l.push(plain_span("  "));
        l.push(color_span("W", 220));
        l.push(plain_span("  Save to scriberc       "));
        l.push(color_span("ESC", 220));
        l.push(plain_span("  Close"));
        assert(popup::line_view(l@) =~= seq![
            popup::plain("  "@),
            popup::colored("W"@, 220),
            popup::plain("  Save to scriberc       "@),
            popup::colored("ESC"@, 220),
            popup::plain("  Close"@),
        ]);
        add_line(&mut p, l);
        assert(popup::popup_view(p@) =~= self@.config_lines(fold::views(themes@), miss));
        p
    }

    /// Takes a key typed into the preferences.
    pub fn config_key(&mut self, k: &str, themes: &Vec<String>) -> (r: ConfigStep)
        requires
            old(self).wf(),
            themes.len() > 0,
        ensures
            (final(self)@, r@) == old(self)@.config_key(k@, fold::views(themes@)),
            final(self).wf(),
    {
        proof {
            reveal(EdV::config_key);
        }
        let o: Options = self.options;
        if same(k, "ESC") || same(k, "q") {
            ConfigStep::Close
        } else if same(k, "t") {
            let t: usize = find_theme(themes, &self.theme_name);
            let n: usize = if t + 1 < themes.len() {
                t + 1
            } else {
                0
            };
            proof {
                let m = themes@.len() as int;
                if t + 1 < m {
                    vstd::arithmetic::div_mod::lemma_small_mod((t + 1) as nat, m as nat);
                } else {
                    vstd::arithmetic::div_mod::lemma_mod_self_0(m);
                }
            }
            assert(fold::views(themes@)[n as int] == themes@[n as int]@);
            self.theme_name = themes[n].clone();
            ConfigStep::SetTheme(themes[n].clone())
        } else if same(k, "n") {
            self.set_options(
                Options {
                    numbers: !o.numbers,
                    relative_numbers: o.relative_numbers && !o.numbers,
                    ..o
                },
            );
            ConfigStep::Stay
        } else if same(k, "r") {
            self.set_options(
                Options {
                    relative_numbers: !o.relative_numbers,
                    numbers: o.numbers || !o.relative_numbers,
                    ..o
                },
            );
            ConfigStep::Stay
        } else if same(k, "s") {
            if o.spell {
                self.spell_disable();
                self.set_status(" spell off", 244);
                ConfigStep::Stay
            } else {
                ConfigStep::StartSpell
            }
        } else if same(k, "l") {
            ConfigStep::AskLang
        } else if same(k, "c") {
            ConfigStep::AskColor
        } else if same(k, "W") {
            ConfigStep::Save
        } else {
            ConfigStep::Stay
        }
    }

    /// Says how many words the checker found.
    pub fn say_flagged(&mut self)
        requires
            old(self).wf(),
        ensures
            final(self)@ == old(self)@.say_flagged(),
            final(self).wf(),
    {
        if self.options.spell {
            let n: String = dec(self.misspellings.len() as u128);
            self.set_status(&cat3(" spell on (", &n, " words flagged)"), 46);
        }
    }

    /// As [`Editor::say_flagged`], for `:set spell`.
    pub fn say_words(&mut self)
        requires
            old(self).wf(),
        ensures
            final(self)@ == old(self)@.say_words(),
            final(self).wf(),
    {
        if self.options.spell {
            let n: String = dec(self.misspellings.len() as u128);
            self.set_status(&cat3(" spell on (", &n, " words)"), 244);
        }
    }

    /// The settings that the preferences write.
    pub fn preferences(&self, miss: u8) -> (p: Preferences)
        ensures
            p.theme@ == self@.theme,
            p.number == self@.options.numbers,
            p.relative_numbers == self@.options.relative_numbers,
            p.spell == self@.options.spell,
            p.lang@ == self@.spell_lang,
            p.spell_color == miss,
    {
        Preferences {
            theme: self.theme_name.clone(),
            number: self.options.numbers,
            relative_numbers: self.options.relative_numbers,
            spell: self.options.spell,
            lang: self.spell_lang.clone(),
            spell_color: miss,
        }
    }

    /// The settings file was written, or why not.
    pub fn rc_saved(&mut self, failed: Option<String>)
        requires
            old(self).wf(),
        ensures
            final(self)@ == old(self)@.rc_saved(buffer::str_opt(failed)),
            final(self).wf(),
    {
        match failed {
            None => self.set_status(" scriberc saved", 46),
            Some(e) => self.set_status(&cat2(" scriberc save failed: ", &e), 196),
        }
    }
}

} // verus!
