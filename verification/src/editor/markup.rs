//! Colours and fonts as inline spans, saving with and without them, exports
//! and new passwords.

use vstd::prelude::*;
use vstd::string::*;
use crate::buffer;
use crate::editor::edits;
use crate::editor::popups;
use crate::editor::popups::is_same_name;
use crate::editor::state::{Editor, EdV};
use crate::export;
use crate::export::{parse_target, render, Target};
use crate::fold;
use crate::pattern;
use crate::pattern::{check, replace_all};
use crate::strs;
use crate::strs::{
    cat2, cat3, dec, first_char, has_sub, parse_number, split_lines, starts_with, strip_prefix,
    trim,
};
use crate::text;
use crate::text::{chars_of, index_at, piece, same};

verus! {

// ── Colours and fonts ───────────────────────────────────────────────────

/// Colours that the first `n` lines name, of text and background: black on
/// white unless they say otherwise.
pub open spec fn picked_colors(ls: Seq<Seq<char>>, n: int) -> (Seq<char>, Seq<char>)
    decreases n,
{
    if n <= 0 {
        ("#000000"@, "#ffffff"@)
    } else {
        let (fg, bg) = picked_colors(ls, n - 1);
        let l = ls[n - 1];
        if let Some(h) = strs::after_prefix(l, "fg="@) {
            (strs::trimmed(h), bg)
        } else if let Some(h) = strs::after_prefix(l, "bg="@) {
            (fg, strs::trimmed(h))
        } else {
            (fg, bg)
        }
    }
}

/// Reads what the colour picker wrote.
pub fn parse_colors(t: &str) -> (r: (String, String))
    ensures
        (r.0@, r.1@) == picked_colors(
            strs::lines_from(t@, 0),
            strs::lines_from(t@, 0).len() as int,
        ),
{
    let ls: Vec<String> = split_lines(t);
    let ghost lv = strs::lines_from(t@, 0);
    let mut fg: String = "#000000".to_owned();
    let mut bg: String = "#ffffff".to_owned();
    let mut i: usize = 0;
    while i < ls.len()
        invariant
            i <= ls.len(),
            lv == fold::views(ls@),
            (fg@, bg@) == picked_colors(lv, i as int),
        decreases ls.len() - i,
    {
        assert(lv[i as int] == ls@[i as int]@);
        if let Some(h) = strip_prefix(&ls[i], "fg=") {
            fg = trim(&h);
        } else if let Some(h) = strip_prefix(&ls[i], "bg=") {
            bg = trim(&h);
        }
        i += 1;
    }
    assert(lv.len() == ls@.len());
    (fg, bg)
}

pub open spec fn size_of_text(s: Seq<char>) -> int {
    match strs::plus_number(strs::trimmed(s), u32::MAX as int) {
        Some(n) => n,
        None => 0,
    }
}

/// Font family and size that the first `n` lines name.
pub open spec fn picked_font(ls: Seq<Seq<char>>, n: int) -> (Seq<char>, int)
    decreases n,
{
    if n <= 0 {
        (Seq::empty(), 0)
    } else {
        let (f, s) = picked_font(ls, n - 1);
        let l = ls[n - 1];
        if let Some(v) = strs::after_prefix(l, "family="@) {
            (strs::trimmed(v), s)
        } else if let Some(v) = strs::after_prefix(l, "size="@) {
            (f, size_of_text(v))
        } else {
            (f, s)
        }
    }
}

/// Reads what the font picker wrote; without a family nothing was picked.
pub fn parse_font(t: &str) -> (r: Option<(String, u32)>)
    ensures
        ({
            let (f, s) = picked_font(
                strs::lines_from(t@, 0),
                strs::lines_from(t@, 0).len() as int,
            );
            match r {
                Some((family, size)) => f.len() > 0 && family@ == f && size == s,
                None => f.len() == 0,
            }
        }),
{
    let ls: Vec<String> = split_lines(t);
    let ghost lv = strs::lines_from(t@, 0);
    let mut family: String = String::new();
    let mut size: u32 = 0;
    let mut i: usize = 0;
    assert(family@ =~= Seq::empty());
    while i < ls.len()
        invariant
            i <= ls.len(),
            lv == fold::views(ls@),
            (family@, size as int) == picked_font(lv, i as int),
        decreases ls.len() - i,
    {
        assert(lv[i as int] == ls@[i as int]@);
        if let Some(v) = strip_prefix(&ls[i], "family=") {
            family = trim(&v);
        } else if let Some(v) = strip_prefix(&ls[i], "size=") {
            size = match parse_number(&trim(&v), u32::MAX as u64) {
                Some(n) => n as u32,
                None => 0,
            };
        }
        i += 1;
    }
    assert(lv.len() == ls@.len());
    if chars_of(&family).len() == 0 {
        None
    } else {
        Some((family, size))
    }
}

/// Style of a colour span: white as the background is none.
pub open spec fn color_style(fg: Seq<char>, bg: Seq<char>) -> Seq<char> {
    "color:"@ + fg + (if popups::same_name(bg, "#ffffff"@) {
        ""@
    } else {
        ";background-color:"@ + bg
    })
}

pub open spec fn font_style(family: Seq<char>, size: int) -> Seq<char> {
    "font-family:'"@ + family + "'"@ + (if size > 0 {
        ";font-size:"@ + strs::dec_of(size) + "pt"@
    } else {
        ""@
    })
}

pub open spec fn span_of(style: Seq<char>, t: Seq<char>) -> Seq<char> {
    "<span style=\""@ + style + "\">"@ + (t + "</span>"@)
}

/// What a range of bytes covers, limited to the text and rounded to
/// characters.
pub open spec fn covered(t: Seq<char>, a: int, b: int) -> Seq<char> {
    let i = text::at(t, a);
    let j = text::at(t, b);
    if i <= j {
        t.subrange(i, j)
    } else {
        Seq::empty()
    }
}

impl EdV {
    /// A range of bytes put into a span, as one step of the history.
    #[verifier::opaque]
    pub open spec fn in_span(self, lo: int, hi: int, style: Seq<char>, msg: Seq<char>) -> EdV {
        if lo >= hi || hi > text::blen(self.buf.text) {
            self
        } else {
            self.open_undo().edit(
                lo,
                hi,
                span_of(style, covered(self.buf.text, lo, hi)),
            ).close_undo().land(lo).say(msg, 46)
        }
    }

    pub open spec fn colored(
        self,
        lo: int,
        hi: int,
        pick: Option<(Seq<char>, Seq<char>)>,
    ) -> EdV {
        match pick {
            Some((fg, bg)) => self.in_span(lo, hi, color_style(fg, bg), " coloured (\\C)"@),
            None => self.say(" prism not available"@, 196),
        }
    }

    pub open spec fn set_in_font(self, lo: int, hi: int, pick: Option<(Seq<char>, int)>) -> EdV {
        match pick {
            Some((f, n)) => self.in_span(
                lo,
                hi,
                font_style(f, n),
                " font: "@ + f + " "@ + (strs::dec_of(n) + "pt (\\F)"@),
            ),
            None => self.say(" font pick cancelled"@, 244),
        }
    }

    // ── Saving ──────────────────────────────────────────────────────────

    /// There is a colour span in the text.
    pub open spec fn has_color(self) -> bool {
        strs::contains(self.buf.text, "<span style=\"color:"@) || strs::contains(
            self.buf.text,
            "<span style=\"background-color:"@,
        )
    }

    /// The text without its colour spans, what they hold kept: one step of
    /// the history.
    #[verifier::opaque]
    pub open spec fn without_colors(self) -> EdV {
        let t = self.buf.text;
        let r = pattern::regex_replaced_all(color_pattern(), t, "$1"@);
        if pattern::regex_error(color_pattern()) is None && r != t {
            self.open_undo().edit(0, text::blen(t), r).close_undo().settle()
        } else {
            self
        }
    }

    /// The file was written, under a new name if there is one, or why not.
    pub open spec fn written(self, path: Option<Seq<char>>, failed: Option<Seq<char>>) -> EdV {
        match failed {
            None => EdV { buf: buffer::BufV { dirty: false, ..self.buf }, ..self }.say(
                match path {
                    Some(p) => " written → "@ + p,
                    None => " written"@,
                },
                46,
            ),
            Some(e) => self.say(" save failed: "@ + e, 196),
        }
    }

    /// A copy of the text was written elsewhere, or why not.
    pub open spec fn copied_to(self, path: Seq<char>, failed: Option<Seq<char>>) -> EdV {
        match failed {
            None => self.say(" written to "@ + path, 46),
            Some(e) => self.say(" save failed: "@ + e, 196),
        }
    }

    /// The text was exported to a file, or why not.
    pub open spec fn exported(self, t: Target, r: Result<Seq<char>, Seq<char>>) -> EdV {
        match r {
            Ok(p) => self.say(" exported → "@ + p, 46),
            Err(e) => self.say(
                match t {
                    Target::Pdf => " pdf export failed: "@,
                    Target::Docx => " docx export failed: "@,
                    Target::Odt => " odt export failed: "@,
                    _ => " export failed: "@,
                } + e,
                196,
            ),
        }
    }

    /// The text encrypted anew, or what stopped it.
    #[verifier::opaque]
    pub open spec fn rekeyed(self, r: RekeyV) -> EdV {
        match r {
            RekeyV::Cancelled => self.say(" cancelled"@, 244),
            RekeyV::WrongPassword => self.say(" wrong password"@, 196),
            RekeyV::Failed(e) => self.say(" rekey failed: "@ + e, 196),
            RekeyV::Done(c) => self.open_undo().edit(
                0,
                text::blen(self.buf.text),
                c,
            ).close_undo().settle().say(" rekeyed"@, 46),
        }
    }

    /// A path or address was handed to the system's opener, or why not.
    pub open spec fn opened_outside(self, path: Seq<char>, failed: Option<Seq<char>>) -> EdV {
        match failed {
            None => self.say(" opened "@ + path, 244),
            Some(e) => self.say(" open failed: "@ + e, 196),
        }
    }
}

/// Pattern of a colour span; its group is what the span holds.
pub open spec fn color_pattern() -> Seq<char> {
    "(?s)<span style=\"(?:color|background-color):[^\"]*\">(.*?)</span>"@
}

/// How a new password for the text turned out.
pub enum Rekey {
    Cancelled,
    WrongPassword,
    Failed(String),
    /// The text under the new password.
    Done(String),
}

#[verifier::ext_equal]
pub enum RekeyV {
    Cancelled,
    WrongPassword,
    Failed(Seq<char>),
    Done(Seq<char>),
}

impl View for Rekey {
    type V = RekeyV;

    open spec fn view(&self) -> RekeyV {
        match self {
            Rekey::Cancelled => RekeyV::Cancelled,
            Rekey::WrongPassword => RekeyV::WrongPassword,
            Rekey::Failed(e) => RekeyV::Failed(e@),
            Rekey::Done(c) => RekeyV::Done(c@),
        }
    }
}

/// Files of that extension keep colour spans.
pub open spec fn keeps_colors(ext: Seq<char>) -> bool {
    popups::same_name(ext, "md"@) || popups::same_name(ext, "markdown"@) || popups::same_name(
        ext,
        "html"@,
    ) || popups::same_name(ext, "htm"@)
}

/// Whether files of that extension keep colour spans.
pub fn is_markup(ext: &str) -> (r: bool)
    ensures
        r == keeps_colors(ext@),
{
    is_same_name(ext, "md") || is_same_name(ext, "markdown") || is_same_name(ext, "html")
        || is_same_name(ext, "htm")
}

/// What to do with colours that the file would not keep.
#[derive(Copy, Clone, Debug, PartialEq, Eq, Structural)]
pub enum SaveChoice {
    Markdown,
    Html,
    Discard,
    Cancel,
}

pub open spec fn choice_of(ans: Seq<char>) -> SaveChoice {
    match strs::head(strs::trimmed(ans)) {
        Some(c) => if c == 'm' || c == 'M' {
            SaveChoice::Markdown
        } else if c == 'h' || c == 'H' {
            SaveChoice::Html
        } else if c == 'd' || c == 'D' {
            SaveChoice::Discard
        } else {
            SaveChoice::Cancel
        },
        None => SaveChoice::Cancel,
    }
}

/// Reads the answer to what is to be done with the colours.
pub fn save_choice(ans: &str) -> (r: SaveChoice)
    ensures
        r == choice_of(ans@),
{
    match first_char(&trim(ans)) {
        Some(c) => if c == 'm' || c == 'M' {
            SaveChoice::Markdown
        } else if c == 'h' || c == 'H' {
            SaveChoice::Html
        } else if c == 'd' || c == 'D' {
            SaveChoice::Discard
        } else {
            SaveChoice::Cancel
        },
        None => SaveChoice::Cancel,
    }
}

fn draw_span(style: &str, t: &str) -> (s: String)
    ensures
        s@ == span_of(style@, t@),
{
    cat2(&cat3("<span style=\"", style, "\">"), &cat2(t, "</span>"))
}

fn draw_color_style(fg: &str, bg: &str) -> (s: String)
    ensures
        s@ == color_style(fg@, bg@),
{
    let b: String = if is_same_name(bg, "#ffffff") {
        "".to_owned()
    } else {
        cat2(";background-color:", bg)
    };
    cat3("color:", fg, &b)
}

fn draw_font_style(family: &str, size: u32) -> (s: String)
    ensures
        s@ == font_style(family@, size as int),
{
    let b: String = if size > 0 {
        cat3(";font-size:", &dec(size as u128), "pt")
    } else {
        "".to_owned()
    };
    cat2(&cat3("font-family:'", family, "'"), &b)
}

impl Editor {
    fn put_in_span(&mut self, lo: usize, hi: usize, style: &str, msg: &str)
        requires
            old(self).wf(),
        ensures
            final(self)@ == old(self)@.in_span(lo as int, hi as int, style@, msg@),
            final(self).wf(),
    {
        proof {
            reveal(EdV::in_span);
        }
        if lo >= hi || hi > self.buf.len_bytes() {
            return;
        }
        let v: Vec<char> = self.buf.chars();
        let i: usize = index_at(&v, lo);
        let j: usize = index_at(&v, hi);
        proof {
            text::lemma_at_mono(self@.buf.text, lo as int, hi as int);
        }
        let sel: String = piece(&v, i, j);
        self.open_undo();
        self.edit(lo, hi, &draw_span(style, &sel));
        self.close_undo();
        self.land(lo);
        self.set_status(msg, 46);
    }

    /// Colours a range of bytes as picked.
    pub fn color_done(&mut self, lo: usize, hi: usize, pick: Option<(String, String)>)
        requires
            old(self).wf(),
        ensures
            final(self)@ == old(self)@.colored(
                lo as int,
                hi as int,
                match pick {
                    Some((fg, bg)) => Some((fg@, bg@)),
                    None => None,
                },
            ),
            final(self).wf(),
    {
        match pick {
            Some((fg, bg)) => {
                self.put_in_span(lo, hi, &draw_color_style(&fg, &bg), " coloured (\\C)");
            },
            None => {
                self.set_status(" prism not available", 196);
            },
        }
    }

    /// Sets a range of bytes in the font picked.
    pub fn font_done(&mut self, lo: usize, hi: usize, pick: Option<(String, u32)>)
        requires
            old(self).wf(),
        ensures
            final(self)@ == old(self)@.set_in_font(
                lo as int,
                hi as int,
                match pick {
                    Some((f, n)) => Some((f@, n as int)),
                    None => None,
                },
            ),
            final(self).wf(),
    {
        match pick {
            Some((f, n)) => {
                let msg: String = cat2(
                    &cat3(" font: ", &f, " "),
                    &cat2(&dec(n as u128), "pt (\\F)"),
                );
                self.put_in_span(lo, hi, &draw_font_style(&f, n), &msg);
            },
            None => {
                self.set_status(" font pick cancelled", 244);
            },
        }
    }

    /// Whether the text holds a colour span.
    pub fn buffer_has_color(&self) -> (r: bool)
        ensures
            r == self@.has_color(),
    {
        let t: String = self.buf.text();
        has_sub(&t, "<span style=\"color:") || has_sub(&t, "<span style=\"background-color:")
    }

    /// Whether saving to a file of that extension would lose colours.
    pub fn loses_color(&self, ext: &str) -> (r: bool)
        ensures
            r == (self@.has_color() && !keeps_colors(ext@)),
    {
        self.buffer_has_color() && !is_markup(ext)
    }

    /// Takes the colour spans out of the text.
    pub fn strip_color_spans(&mut self)
        requires
            old(self).wf(),
        ensures
            final(self)@ == old(self)@.without_colors(),
            final(self).wf(),
    {
        proof {
            reveal(EdV::without_colors);
        }
        let p: &str = "(?s)<span style=\"(?:color|background-color):[^\"]*\">(.*?)</span>";
        match check(p) {
            Ok(_) => {
                let t: String = self.buf.text();
                let r: String = replace_all(p, &t, "$1");
                if !same(&r, &t) {
                    let n: usize = self.buf.len_bytes();
                    self.open_undo();
                    self.edit(0, n, &r);
                    self.close_undo();
                    self.settle();
                }
            },
            Err(_) => {},
        }
    }

    /// Gives the text another file.
    pub fn rename(&mut self, path: &str)
        requires
            old(self).wf(),
        ensures
            final(self)@ == (EdV {
                buf: buffer::BufV { path: Some(path@), ..old(self)@.buf },
                ..old(self)@
            }),
            final(self).wf(),
    {
        self.buf.set_path(path.to_owned());
    }

    /// The file was written, or why not.
    pub fn written(&mut self, path: Option<String>, failed: Option<String>)
        requires
            old(self).wf(),
        ensures
            final(self)@ == old(self)@.written(buffer::str_opt(path), buffer::str_opt(failed)),
            final(self).wf(),
    {
        match failed {
            None => {
                self.buf.mark_saved();
                match path {
                    Some(p) => self.set_status(&cat2(" written → ", &p), 46),
                    None => self.set_status(" written", 46),
                }
            },
            Some(e) => self.set_status(&cat2(" save failed: ", &e), 196),
        }
    }

    /// A copy of the text was written elsewhere, or why not.
    pub fn copied_to(&mut self, path: &str, failed: Option<String>)
        requires
            old(self).wf(),
        ensures
            final(self)@ == old(self)@.copied_to(path@, buffer::str_opt(failed)),
            final(self).wf(),
    {
        match failed {
            None => self.set_status(&cat2(" written to ", path), 46),
            Some(e) => self.set_status(&cat2(" save failed: ", &e), 196),
        }
    }

    /// What to write for an export: the format and the text in it, or `None`
    /// for a format that is not known.
    pub fn export_to(&mut self, fmt: &str, title: &str) -> (r: Option<(Target, String)>)
        requires
            old(self).wf(),
        ensures
            final(self).wf(),
            match export::target_of(fmt@) {
                Some(t) => {
                    &&& r matches Some((u, s))
                    &&& u == t
                    &&& s@ == export::rendered(t, old(self)@.buf.text, title@)
                    &&& final(self)@ == old(self)@
                },
                None => r is None && final(self)@ == old(self)@.say(
                    " unknown export format: "@ + fmt@,
                    196,
                ),
            },
    {
        match parse_target(fmt) {
            Some(t) => Some((t, render(t, &self.buf.text(), title))),
            None => {
                self.set_status(&cat2(" unknown export format: ", fmt), 196);
                None
            },
        }
    }

    /// The export was written, or why not.
    pub fn export_done(&mut self, t: Target, r: Result<String, String>)
        requires
            old(self).wf(),
        ensures
            final(self)@ == old(self)@.exported(
                t,
                match r {
                    Ok(p) => Ok(p@),
                    Err(e) => Err(e@),
                },
            ),
            final(self).wf(),
    {
        match r {
            Ok(p) => self.set_status(&cat2(" exported → ", &p), 46),
            Err(e) => {
                let what: &str = match t {
                    Target::Pdf => " pdf export failed: ",
                    Target::Docx => " docx export failed: ",
                    Target::Odt => " odt export failed: ",
                    _ => " export failed: ",
                };
                self.set_status(&cat2(what, &e), 196);
            },
        }
    }

    /// Whether the text is encrypted.
    pub fn is_encrypted(&self) -> (r: bool)
        ensures
            r == strs::prefixed(self@.buf.text, "ENC:"@),
    {
        starts_with(&self.buf.text(), "ENC:")
    }

    /// Takes the text under its new password.
    pub fn rekey_done(&mut self, r: Rekey)
        requires
            old(self).wf(),
        ensures
            final(self)@ == old(self)@.rekeyed(r@),
            final(self).wf(),
    {
        proof {
            reveal(EdV::rekeyed);
        }
        match r {
            Rekey::Cancelled => self.set_status(" cancelled", 244),
            Rekey::WrongPassword => self.set_status(" wrong password", 196),
            Rekey::Failed(e) => self.set_status(&cat2(" rekey failed: ", &e), 196),
            Rekey::Done(c) => {
                let n: usize = self.buf.len_bytes();
                self.open_undo();
                self.edit(0, n, &c);
                self.close_undo();
                self.settle();
                self.set_status(" rekeyed", 46);
            },
        }
    }

    /// A path or address was handed to the system's opener, or why not.
    pub fn opened_outside(&mut self, path: &str, failed: Option<String>)
        requires
            old(self).wf(),
        ensures
            final(self)@ == old(self)@.opened_outside(path@, buffer::str_opt(failed)),
            final(self).wf(),
    {
        match failed {
            None => self.set_status(&cat2(" opened ", path), 244),
            Some(e) => self.set_status(&cat2(" open failed: ", &e), 196),
        }
    }
}

/// A range that is put into a span stays where it is, as it is, with the tags
/// around it; nothing else changes.
pub proof fn law_in_span(s: EdV, i: int, j: int, style: Seq<char>, msg: Seq<char>)
    requires
        0 <= i < j <= s.buf.text.len(),
        s.buf.depth == 0,
    ensures
        ({
            let t = s.buf.text;
            let r = s.in_span(text::off(t, i), text::off(t, j), style, msg);
            r.buf.text == t.take(i) + "<span style=\""@ + style + "\">"@ + t.subrange(i, j)
                + "</span>"@ + t.skip(j)
        }),
{
    reveal(EdV::in_span);
    let t = s.buf.text;
    text::lemma_at_off(t, i);
    text::lemma_at_off(t, j);
    text::lemma_off_mono(t, i, j);
    text::lemma_off_mono(t, j, t.len() as int);
    let x = span_of(style, t.subrange(i, j));
    edits::law_edit(s.open_undo(), i, j, x);
    assert(t.take(i) + x + t.skip(j) =~= t.take(i) + "<span style=\""@ + style + "\">"@
        + t.subrange(i, j) + "</span>"@ + t.skip(j));
}

proof fn lemma_colors_front(ls: Seq<Seq<char>>, l: Seq<char>, n: int)
    requires
        n <= ls.len(),
    ensures
        picked_colors(ls.push(l), n) == picked_colors(ls, n),
        picked_font(ls.push(l), n) == picked_font(ls, n),
    decreases n,
{
    if n > 0 {
        lemma_colors_front(ls, l, n - 1);
        assert(ls.push(l)[n - 1] == ls[n - 1]);
    }
}

/// A line that names a colour or part of a font sets just that, whatever the
/// lines before it said, and leaves the other as they have it; with no line at
/// all it is black on white.
pub proof fn law_picked(ls: Seq<Seq<char>>, h: Seq<char>)
    ensures
        ({
            let n = ls.len() as int;
            let fg = ls.push("fg="@ + h);
            let bg = ls.push("bg="@ + h);
            let family = ls.push("family="@ + h);
            let size = ls.push("size="@ + h);
            &&& picked_colors(fg, n + 1) == (strs::trimmed(h), picked_colors(ls, n).1)
            &&& picked_colors(bg, n + 1) == (picked_colors(ls, n).0, strs::trimmed(h))
            &&& picked_font(family, n + 1) == (strs::trimmed(h), picked_font(ls, n).1)
            &&& picked_font(size, n + 1) == (picked_font(ls, n).0, size_of_text(h))
            &&& picked_colors(ls, 0) == ("#000000"@, "#ffffff"@)
        }),
{
    let n = ls.len() as int;
    reveal_strlit("fg=");
    reveal_strlit("bg=");
    reveal_strlit("family=");
    reveal_strlit("size=");
    let a = "fg="@ + h;
    let b = "bg="@ + h;
    let c = "family="@ + h;
    let d = "size="@ + h;
    assert(a.take(3) =~= "fg="@ && a.skip(3) =~= h);
    assert(b.take(3) =~= "bg="@ && b.skip(3) =~= h);
    assert(c.take(7) =~= "family="@ && c.skip(7) =~= h);
    assert(d.take(5) =~= "size="@ && d.skip(5) =~= h);
    assert("fg="@[0] == 'f' && "family="@[0] == 'f');
    assert(b[0] == 'b' && b.take(3)[0] == 'b');
    assert(d.len() >= 7 ==> d.take(7)[0] == d[0]);
    assert(d[0] == 's');
    lemma_colors_front(ls, a, n);
    lemma_colors_front(ls, b, n);
    lemma_colors_front(ls, c, n);
    lemma_colors_front(ls, d, n);
    assert(ls.push(a)[n] == a);
    assert(ls.push(b)[n] == b);
    assert(ls.push(c)[n] == c);
    assert(ls.push(d)[n] == d);
}

} // verus!
