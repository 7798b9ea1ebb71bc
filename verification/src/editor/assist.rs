//! Questions to an assistant outside: what a word means, and changes to the
//! text.

use vstd::prelude::*;
use vstd::string::*;
use crate::chars;
use crate::editor::cursor;
use crate::editor::edits;
use crate::editor::markup;
use crate::editor::spelling;
use crate::editor::state;
use crate::editor::state::{Editor, EdV};
use crate::fold;
use crate::layout;
use crate::layout::wrap_to_width;
use crate::lines;
use crate::mode;
use crate::mode::Mode;
use crate::popup;
use crate::popup::{
    add_blank, add_line, color_span, indented, plain_span, strong, Span, SpanV,
};
use crate::strs;
use crate::strs::{cat2, cat3, clip, dec, ends_with, join, repeat, strip_back, trim};
use crate::text;
use crate::text::{byte_len, chars_of, index_at, piece, same};
use crate::textobj;
use crate::textobj::around_paragraph;

verus! {

// ── Words to look up ────────────────────────────────────────────────────

pub open spec fn ascii_space(c: char) -> bool {
    c == ' ' || c == '\t' || c == '\n' || c == '\x0c' || c == '\r'
}

pub open spec fn token_fn() -> spec_fn(char) -> bool {
    |c: char| !ascii_space(c)
}

/// Punctuation that does not belong to the end of a term.
pub open spec fn closes_term(c: char) -> bool {
    c == ',' || c == '.' || c == ';' || c == ':' || c == '!' || c == '?' || c == ')' || c == ']'
        || c == '}' || c == '"' || c == '\''
}

pub open spec fn closing_fn() -> spec_fn(char) -> bool {
    |c: char| closes_term(c)
}

/// Punctuation that does not belong to the start of a term.
pub open spec fn opens_term(c: char) -> bool {
    c == '(' || c == '[' || c == '{' || c == '"' || c == '\''
}

pub open spec fn opening_fn() -> spec_fn(char) -> bool {
    |c: char| opens_term(c)
}

/// A term without the punctuation around it.
pub open spec fn bare(t: Seq<char>) -> Seq<char> {
    let u = t.take(text::skip_back(t, t.len() as int, closing_fn()));
    u.skip(text::skip_fwd(u, 0, opening_fn()))
}

fn is_ascii_space(c: char) -> (r: bool)
    ensures
        r == ascii_space(c),
{
    c == ' ' || c == '\t' || c == '\n' || c == '\x0c' || c == '\r'
}

fn is_closing(c: char) -> (r: bool)
    ensures
        r == closes_term(c),
{
    c == ',' || c == '.' || c == ';' || c == ':' || c == '!' || c == '?' || c == ')' || c == ']'
        || c == '}' || c == '"' || c == '\''
}

fn is_opening(c: char) -> (r: bool)
    ensures
        r == opens_term(c),
{
    c == '(' || c == '[' || c == '{' || c == '"' || c == '\''
}

fn strip_term(v: &Vec<char>, lo: usize, hi: usize) -> (s: String)
    requires
        lo <= hi <= v.len(),
    ensures
        s@ == bare(v@.subrange(lo as int, hi as int)),
{
    let ghost t = v@.subrange(lo as int, hi as int);
    let mut b: usize = hi;
    while b > lo && is_closing(v[b - 1])
        invariant
            lo <= b <= hi <= v.len(),
            t == v@.subrange(lo as int, hi as int),
            text::skip_back(t, t.len() as int, closing_fn()) == text::skip_back(
                t,
                b - lo,
                closing_fn(),
            ),
        decreases b,
    {
        assert(t[b - lo - 1] == v@[b - 1]);
        b -= 1;
    }
    proof {
        if b > lo {
            assert(t[b - lo - 1] == v@[b - 1]);
        }
    }
    let ghost u = t.take(b - lo);
    let mut a: usize = lo;
    while a < b && is_opening(v[a])
        invariant
            lo <= a <= b <= hi <= v.len(),
            t == v@.subrange(lo as int, hi as int),
            u == t.take(b - lo),
            text::skip_fwd(u, 0, opening_fn()) == text::skip_fwd(u, a - lo, opening_fn()),
        decreases b - a,
    {
        assert(u[a - lo] == v@[a as int]);
        a += 1;
    }
    proof {
        if a < b {
            assert(u[a - lo] == v@[a as int]);
        }
    }
    let s: String = piece(v, a, b);
    assert(s@ =~= u.skip(a - lo));
    s
}

/// A term, its short form for a heading, what stands around it and the
/// question about it.
pub struct Lookup {
    pub term: String,
    pub label: String,
    pub context: String,
    pub prompt: String,
}

#[verifier::ext_equal]
pub struct LookupV {
    pub term: Seq<char>,
    pub label: Seq<char>,
    pub context: Seq<char>,
    pub prompt: Seq<char>,
}

impl View for Lookup {
    type V = LookupV;

    open spec fn view(&self) -> LookupV {
        LookupV {
            term: self.term@,
            label: self.label@,
            context: self.context@,
            prompt: self.prompt@,
        }
    }
}

/// A selection as a heading: at most 40 characters.
pub open spec fn label_of(t: Seq<char>) -> Seq<char> {
    if t.len() > 40 {
        t.take(37) + "…"@
    } else {
        t
    }
}

/// The question about a term.
pub open spec fn question(term: Seq<char>) -> Seq<char> {
    "Explain \""@ + term
        + "\" as it is used in the snippet below. One or two short sentences. Stay specific to *this* sense / usage — if it's technical, give the technical reading; if it's a name, identify it; if it's an idiom or phrase, gloss the whole expression. No preamble, no quoting back the snippet, no closing pleasantries."@
}

impl EdV {
    /// The term under the cursor: the run of characters that are not blank,
    /// without the punctuation around it; else the word under the cursor.
    pub open spec fn token_here(self) -> Option<Seq<char>> {
        let l = self.line_text(self.line);
        let i = text::at(l, state::min(self.col, text::blen(l)));
        let a = text::skip_back(l, i, token_fn());
        let b = text::skip_fwd(l, i, token_fn());
        match self.missp_here() {
            Some(m) => Some(m.word),
            None => if a >= b || bare(l.subrange(a, b)).len() == 0 {
                self.word_here()
            } else {
                Some(bare(l.subrange(a, b)))
            },
        }
    }

    /// The selection by line or by character.
    pub open spec fn marked_text(self) -> Seq<char> {
        let (a, b) = if self.mode is VisualLine {
            self.visual_line_range()
        } else {
            self.visual_range()
        };
        markup::covered(self.buf.text, a, b)
    }

    /// What to look up and its heading: the selection, or the term under the
    /// cursor; or why there is nothing.
    pub open spec fn lookup_term(self) -> Result<(Seq<char>, Seq<char>), Seq<char>> {
        if self.mode is Visual || self.mode is VisualLine {
            let t = strs::trimmed(self.marked_text());
            if t.len() == 0 {
                Err(" empty selection"@)
            } else {
                Ok((t, label_of(t)))
            }
        } else {
            match self.token_here() {
                Some(t) => Ok((t, t)),
                None => Err(" no token under cursor"@),
            }
        }
    }

    /// The cursor's line and the five lines on either side of it.
    pub open spec fn context(self) -> Seq<char> {
        let lo = state::minus(self.line, 5);
        let hi = state::min(self.line + 5, self.last_line());
        strs::joined(
            Seq::new(
                if lo <= hi {
                    (hi - lo + 1) as nat
                } else {
                    0
                },
                |i: int| self.line_text(lo + i),
            ),
            "\n"@,
        )
    }

    /// The question to ask, and what is said meanwhile.
    #[verifier::opaque]
    pub open spec fn lookup(self) -> (EdV, Option<LookupV>) {
        match self.lookup_term() {
            Ok((term, label)) => (
                self.say(" looking up “"@ + label + "”…"@, 244),
                Some(LookupV { term, label, context: self.context(), prompt: question(term) }),
            ),
            Err(e) => (self.say(e, 244), None),
        }
    }

    /// Something said of the assistant.
    pub open spec fn say_assistant(self, msg: Seq<char>, color: u8) -> EdV {
        self.say(" "@ + self.assistant + ": "@ + msg, color)
    }

    pub open spec fn say_empty(self) -> EdV {
        self.say(" "@ + self.assistant + " returned empty response"@, 196)
    }

    /// The answer, when there is one to show.
    pub open spec fn looked_up(self, r: Result<Seq<char>, Seq<char>>) -> (EdV, Option<Seq<char>>) {
        match r {
            Ok(s) => if strs::trimmed(s).len() == 0 {
                (self.say_empty(), None)
            } else {
                (self, Some(strs::trimmed(s)))
            },
            Err(e) => (self.say_assistant(e, 196), None),
        }
    }

    // ── Changes to the text ─────────────────────────────────────────────

    /// What a request is about: a range of bytes, its text, and whether the
    /// answer replaces it. To continue, it is all before the cursor; else the
    /// selection, or the cursor's paragraph.
    pub open spec fn request(self, raw: Seq<char>) -> (int, int, Seq<char>, bool) {
        let t = self.buf.text;
        let cur = self.cursor();
        if raw.len() == 0 || raw == "continue"@ {
            (cur, cur, markup::covered(t, 0, cur), false)
        } else {
            let (a, b) = if mode::visual(self.mode) {
                self.selected_range()
            } else {
                textobj::paragraph_around(t, cur)
            };
            (a, b, markup::covered(t, a, b), true)
        }
    }

    /// The text with the answer in it, as one step of the history. The answer
    /// ends with a line feed just when what it answers did.
    #[verifier::opaque]
    pub open spec fn answered(
        self,
        req: (int, int, Seq<char>, bool),
        r: Result<Seq<char>, Seq<char>>,
    ) -> EdV {
        let (a, b, input, replace) = req;
        match r {
            Err(e) => self.say_assistant(e, 196).leave_selection(),
            Ok(s) => {
                let bare = strs::without_back(s, '\n');
                let ans = if strs::suffixed(input, "\n"@) {
                    bare + "\n"@
                } else {
                    bare
                };
                if bare.len() == 0 {
                    self.say_empty()
                } else {
                    let lo = if replace {
                        a
                    } else {
                        self.cursor()
                    };
                    let hi = if replace {
                        b
                    } else {
                        self.cursor()
                    };
                    self.open_undo().edit(lo, hi, ans).close_undo().goto(
                        state::plus(lo, text::blen(ans)),
                    ).say_assistant(
                        strs::dec_of(text::blen(ans)) + " chars  (u to undo)"@,
                        46,
                    ).leave_selection()
                }
            },
        }
    }

    pub open spec fn leave_selection(self) -> EdV {
        if mode::visual(self.mode) {
            EdV { mode: Mode::Normal, ..self }
        } else {
            self
        }
    }
}

/// The full wording of a request: some have short names.
pub open spec fn wording(raw: Seq<char>) -> Seq<char> {
    if raw.len() == 0 || raw == "continue"@ {
        "Continue the text naturally from where it leaves off. Output only the continuation, no preamble."@
    } else if raw == "grammar"@ {
        "Fix grammar, spelling, and punctuation. Preserve meaning, tone, and voice. Output only the corrected text."@
    } else if raw == "tighten"@ {
        "Rewrite to be more concise. Preserve meaning and voice. Output only the rewritten text."@
    } else if raw == "plain"@ {
        "Rewrite in plainer English. Preserve meaning. Output only the rewritten text."@
    } else {
        raw
    }
}

/// The full wording of a request.
pub fn assist_prompt(raw: &str) -> (s: String)
    ensures
        s@ == wording(raw@),
{
    if chars_of(raw).len() == 0 || same(raw, "continue") {
        "Continue the text naturally from where it leaves off. Output only the continuation, no preamble.".to_owned()
    } else if same(raw, "grammar") {
        "Fix grammar, spelling, and punctuation. Preserve meaning, tone, and voice. Output only the corrected text.".to_owned()
    } else if same(raw, "tighten") {
        "Rewrite to be more concise. Preserve meaning and voice. Output only the rewritten text.".to_owned()
    } else if same(raw, "plain") {
        "Rewrite in plainer English. Preserve meaning. Output only the rewritten text.".to_owned()
    } else {
        raw.to_owned()
    }
}

/// First message of a conversation about the text.
pub open spec fn chat_message(path: Seq<char>, copy: Seq<char>) -> Seq<char> {
    "I'm editing "@ + path + (
    " in scribe. The current buffer content (including unsaved edits) is in "@ + copy
        + ". Help me work with this text — feel free to read the snapshot when you need to. When you're done, /exit returns me to the editor."@)
}

pub fn chat_intro(path: &Option<String>, copy: &str) -> (s: String)
    ensures
        s@ == chat_message(
            match *path {
                Some(p) => p@,
                None => "[no name]"@,
            },
            copy@,
        ),
{
    let name: String = match path {
        Some(p) => p.clone(),
        None => "[no name]".to_owned(),
    };
    cat3(
        "I'm editing ",
        &name,
        &cat3(
            " in scribe. The current buffer content (including unsaved edits) is in ",
            copy,
            ". Help me work with this text — feel free to read the snapshot when you need to. When you're done, /exit returns me to the editor.",
        ),
    )
}

// ── The popup of an answer ──────────────────────────────────────────────

/// Columns of the popup on a screen of `cols` columns.
pub open spec fn answer_width(cols: int) -> int {
    let w = state::min(state::minus(cols, 4), 80);
    state::max(w, 40)
}

/// Rows of the popup for `n` lines on a screen of `rows` rows.
pub open spec fn answer_height(n: int, rows: int) -> int {
    state::max(state::min(n + 6, state::minus(rows, 4)), 8)
}

pub open spec fn answer_lines(label: Seq<char>, ls: Seq<Seq<char>>, w: int) -> Seq<Seq<SpanV>> {
    seq![
        Seq::empty(),
        popup::title(label),
        popup::set_in(popup::colored(strs::repeated("-"@, w - 4), 238)),
    ] + Seq::new(ls.len(), |i: int| popup::set_in(popup::plain(ls[i]))) + seq![
        Seq::empty(),
        seq![popup::plain("  "@), popup::colored("ESC / q"@, 244), popup::plain("  Close"@)],
    ]
}

fn draw_answer(label: &str, ls: &Vec<String>, w: usize) -> (p: Vec<Vec<Span>>)
    requires
        w >= 4,
    ensures
        popup::popup_view(p@) == answer_lines(label@, fold::views(ls@), w as int),
{
    let ghost lv = fold::views(ls@);
    let mut p: Vec<Vec<Span>> = Vec::new();
    assert(popup::popup_view(p@) =~= Seq::empty());
    add_blank(&mut p);
    add_line(&mut p, indented(strong(label, 220)));
    add_line(&mut p, indented(color_span(&repeat("-", w - 4), 238)));
    let ghost top = popup::popup_view(p@);
    let mut i: usize = 0;
    assert(top + Seq::new(0, |k: int| popup::set_in(popup::plain(lv[k]))) =~= top);
    while i < ls.len()
        invariant
            i <= ls.len(),
            lv == fold::views(ls@),
            popup::popup_view(p@) == top + Seq::new(
                i as nat,
                |k: int| popup::set_in(popup::plain(lv[k])),
            ),
        decreases ls.len() - i,
    {
        assert(lv[i as int] == ls@[i as int]@);
        add_line(&mut p, indented(plain_span(&ls[i])));
        assert(popup::popup_view(p@) =~= top + Seq::new(
            (i + 1) as nat,
            |k: int| popup::set_in(popup::plain(lv[k])),
        ));
        i += 1;
    }
    add_blank(&mut p);
    let mut l: Vec<Span> = Vec::new();
    l.push(plain_span("  "));
    l.push(color_span("ESC / q", 244));
    l.push(plain_span("  Close"));
    assert(popup::line_view(l@) =~= seq![
        popup::plain("  "@),
        popup::colored("ESC / q"@, 244),
        popup::plain("  Close"@),
    ]);
    add_line(&mut p, l);
    assert(lv.len() == ls@.len());
    assert(popup::popup_view(p@) =~= answer_lines(label@, lv, w as int));
    p
}

/// The popup of an answer: its columns, its rows and its lines.
pub fn answer_popup(label: &str, answer: &str, cols: u16, rows: u16) -> (r: (
    u16,
    u16,
    Vec<Vec<Span>>,
))
    ensures
        r.0 == answer_width(cols as int),
        ({
            let w = answer_width(cols as int);
            let ls = layout::wrapped(strs::split_from(answer@, '\n', 0), w - 4, 0);
            &&& r.1 == answer_height(ls.len() as int, rows as int)
            &&& popup::popup_view(r.2@) == answer_lines(label@, ls, w)
        }),
{
    let c: u16 = if cols > 84 {
        80
    } else if cols >= 4 {
        cols - 4
    } else {
        0
    };
    let w: u16 = if c < 40 {
        40
    } else {
        c
    };
    let ls: Vec<String> = wrap_to_width(answer, w as usize - 4);
    assert(fold::views(ls@).len() == ls@.len());
    let most: usize = if rows > 4 {
        (rows - 4) as usize
    } else {
        0
    };
    let h: usize = if most >= 6 && ls.len() <= most - 6 {
        ls.len() + 6
    } else {
        most
    };
    let h: u16 = if h < 8 {
        8
    } else {
        h as u16
    };
    (w, h, draw_answer(label, &ls, w as usize))
}

impl Editor {
    fn say_assistant(&mut self, msg: &str, color: u8)
        requires
            old(self).wf(),
        ensures
            final(self)@ == old(self)@.say_assistant(msg@, color),
            final(self).wf(),
    {
        let who: String = cat3(" ", &self.assistant, ": ");
        self.set_status(&cat2(&who, msg), color);
    }

    fn say_empty(&mut self)
        requires
            old(self).wf(),
        ensures
            final(self)@ == old(self)@.say_empty(),
            final(self).wf(),
    {
        let msg: String = cat3(" ", &self.assistant, " returned empty response");
        self.set_status(&msg, 196);
    }

    /// The term under the cursor.
    pub fn token_at_cursor(&self) -> (r: Option<String>)
        requires
            self.wf(),
        ensures
            crate::buffer::str_opt(r) == self@.token_here(),
    {
        if let Some(i) = self.misspelling_at_cursor() {
            return Some(self.misspellings[i].word.clone());
        }
        let line: String = self.buf.line(self.cur_line);
        let v: Vec<char> = chars_of(&line);
        let n: usize = byte_len(&line);
        let i: usize = index_at(
            &v,
            if self.cur_col <= n {
                self.cur_col
            } else {
                n
            },
        );
        let mut a: usize = i;
        while a > 0 && !is_ascii_space(v[a - 1])
            invariant
                a <= i <= v.len(),
                text::skip_back(v@, i as int, token_fn()) == text::skip_back(
                    v@,
                    a as int,
                    token_fn(),
                ),
            decreases a,
        {
            a -= 1;
        }
        let mut b: usize = i;
        while b < v.len() && !is_ascii_space(v[b])
            invariant
                i <= b <= v.len(),
                text::skip_fwd(v@, i as int, token_fn()) == text::skip_fwd(
                    v@,
                    b as int,
                    token_fn(),
                ),
            decreases v.len() - b,
        {
            b += 1;
        }
        if a >= b {
            return self.word_at_cursor();
        }
        let t: String = strip_term(&v, a, b);
        if chars_of(&t).len() == 0 {
            self.word_at_cursor()
        } else {
            Some(t)
        }
    }

    fn covered(&self, a: usize, b: usize) -> (s: String)
        ensures
            s@ == markup::covered(self@.buf.text, a as int, b as int),
    {
        let v: Vec<char> = self.buf.chars();
        let i: usize = index_at(&v, a);
        let j: usize = index_at(&v, b);
        if i <= j {
            piece(&v, i, j)
        } else {
            let s: String = String::new();
            assert(s@ =~= Seq::empty());
            s
        }
    }

    fn lookup_term(&self) -> (r: Result<(String, String), String>)
        requires
            self.wf(),
        ensures
            match r {
                Ok((t, l)) => self@.lookup_term() == Ok::<(Seq<char>, Seq<char>), Seq<char>>(
                    (t@, l@),
                ),
                Err(e) => self@.lookup_term() == Err::<(Seq<char>, Seq<char>), Seq<char>>(e@),
            },
    {
        if matches!(self.mode, Mode::Visual | Mode::VisualLine) {
            let (a, b) = if matches!(self.mode, Mode::VisualLine) {
                self.visual_line_range()
            } else {
                self.visual_range()
            };
            let t: String = trim(&self.covered(a, b));
            let n: usize = chars_of(&t).len();
            if n == 0 {
                Err(" empty selection".to_owned())
            } else if n > 40 {
                assert(strs::clipped(t@, 37) =~= t@.take(37));
                let label: String = cat2(&clip(&t, 37), "…");
                Ok((t, label))
            } else {
                let label: String = t.clone();
                Ok((t, label))
            }
        } else {
            match self.token_at_cursor() {
                Some(t) => {
                    let label: String = t.clone();
                    Ok((t, label))
                },
                None => Err(" no token under cursor".to_owned()),
            }
        }
    }

    fn context(&self) -> (s: String)
        ensures
            s@ == self@.context(),
    {
        let last: usize = self.buf.line_count() - 1;
        let lo: usize = if self.cur_line >= 5 {
            self.cur_line - 5
        } else {
            0
        };
        let hi: usize = if self.cur_line < last && last - self.cur_line >= 5 {
            self.cur_line + 5
        } else {
            last
        };
        let mut v: Vec<String> = Vec::new();
        let mut i: usize = lo;
        while lo <= hi && i <= hi && v.len() <= hi - lo
            invariant
                last == self@.last_line(),
                hi <= last,
                last < usize::MAX,
                lo <= i,
                v@.len() == i - lo,
                i <= hi + 1 || i == lo,
                forall|k: int| 0 <= k < v@.len() ==> (#[trigger] v@[k])@ == self@.line_text(lo + k),
            decreases hi + 1 - i,
        {
            v.push(self.buf.line(i));
            i += 1;
        }
        assert(fold::views(v@) =~= Seq::new(
            if lo <= hi {
                (hi - lo + 1) as nat
            } else {
                0
            },
            |k: int| self@.line_text(lo + k),
        ));
        join(&v, "\n")
    }

    /// Asks what a term means.
    pub fn lookup_word(&mut self) -> (r: Option<Lookup>)
        requires
            old(self).wf(),
        ensures
            final(self).wf(),
            final(self)@ == old(self)@.lookup().0,
            (match r {
                Some(l) => Some(l@),
                None => None,
            }) == old(self)@.lookup().1,
    {
        proof {
            reveal(EdV::lookup);
        }
        match self.lookup_term() {
            Ok((term, label)) => {
                let context: String = self.context();
                let prompt: String = cat3(
                    "Explain \"",
                    &term,
                    "\" as it is used in the snippet below. One or two short sentences. Stay specific to *this* sense / usage — if it's technical, give the technical reading; if it's a name, identify it; if it's an idiom or phrase, gloss the whole expression. No preamble, no quoting back the snippet, no closing pleasantries.",
                );
                self.set_status(&cat3(" looking up “", &label, "”…"), 244);
                Some(Lookup { term, label, context, prompt })
            },
            Err(e) => {
                self.set_status(&e, 244);
                None
            },
        }
    }

    /// Takes the answer to what a term means.
    pub fn lookup_done(&mut self, r: Result<String, String>) -> (a: Option<String>)
        requires
            old(self).wf(),
        ensures
            final(self).wf(),
            ({
                let want = old(self)@.looked_up(
                    match r {
                        Ok(s) => Ok(s@),
                        Err(e) => Err(e@),
                    },
                );
                final(self)@ == want.0 && crate::buffer::str_opt(a) == want.1
            }),
    {
        match r {
            Ok(s) => {
                let t: String = trim(&s);
                if chars_of(&t).len() == 0 {
                    self.say_empty();
                    None
                } else {
                    Some(t)
                }
            },
            Err(e) => {
                self.say_assistant(&e, 196);
                None
            },
        }
    }

    /// What a request is about: the range of bytes, its text, and whether the
    /// answer replaces it.
    pub fn assist_input(&self, raw: &str) -> (r: (usize, usize, String, bool))
        requires
            self.wf(),
        ensures
            (r.0 as int, r.1 as int, r.2@, r.3) == self@.request(raw@),
    {
        let cur: usize = self.cursor_byte();
        if chars_of(raw).len() == 0 || same(raw, "continue") {
            return (cur, cur, self.covered(0, cur), false);
        }
        if self.mode.is_visual() {
            let (a, b) = self.selected_range();
            return (a, b, self.covered(a, b), true);
        }
        match around_paragraph(&self.buf, cur) {
            Some((a, b)) => (a, b, self.covered(a, b), true),
            None => (cur, cur, String::new(), false),
        }
    }

    fn leave_selection(&mut self)
        requires
            old(self).wf(),
        ensures
            final(self)@ == old(self)@.leave_selection(),
            final(self).wf(),
    {
        if self.mode.is_visual() {
            self.set_mode(Mode::Normal);
        }
    }

    /// Puts the answer to a request into the text.
    pub fn assist_done(
        &mut self,
        req: (usize, usize, String, bool),
        r: Result<String, String>,
    )
        requires
            old(self).wf(),
        ensures
            final(self)@ == old(self)@.answered(
                (req.0 as int, req.1 as int, req.2@, req.3),
                match r {
                    Ok(s) => Ok(s@),
                    Err(e) => Err(e@),
                },
            ),
            final(self).wf(),
    {
        proof {
            reveal(EdV::answered);
        }
        let (a, b, input, replace) = req;
        match r {
            Err(e) => {
                self.say_assistant(&e, 196);
                self.leave_selection();
            },
            Ok(s) => {
                let bare: String = strip_back(&s, '\n');
                if chars_of(&bare).len() == 0 {
                    self.say_empty();
                    return;
                }
                let ans: String = if ends_with(&input, "\n") {
                    cat2(&bare, "\n")
                } else {
                    bare
                };
                let cur: usize = self.cursor_byte();
                let lo: usize = if replace {
                    a
                } else {
                    cur
                };
                let hi: usize = if replace {
                    b
                } else {
                    cur
                };
                let n: usize = byte_len(&ans);
                self.open_undo();
                self.edit(lo, hi, &ans);
                self.close_undo();
                self.cursor_to_byte(lo.saturating_add(n));
                self.say_assistant(&cat2(&dec(n as u128), " chars  (u to undo)"), 46);
                self.leave_selection();
            },
        }
    }
}

// ── What is sent and what comes of the answer ───────────────────────────

/// What a range of bytes covers is the piece of the text between them.
pub proof fn law_covered(t: Seq<char>, i: int, j: int)
    requires
        0 <= i <= j <= t.len(),
    ensures
        markup::covered(t, text::off(t, i), text::off(t, j)) == t.subrange(i, j),
{
    text::lemma_at_off(t, i);
    text::lemma_at_off(t, j);
}

/// To continue, what is sent is the text before the cursor, all of it: as many
/// bytes as the cursor's offset says, and with the rest of the text after it
/// it is the whole text. The answer goes to the cursor and replaces nothing.
pub proof fn law_continue(s: EdV, raw: Seq<char>)
    requires
        text::bd(s.buf.text, s.cursor()),
        raw.len() == 0 || raw == "continue"@,
    ensures
        ({
            let t = s.buf.text;
            let (a, b, sent, replace) = s.request(raw);
            &&& a == s.cursor()
            &&& b == s.cursor()
            &&& !replace
            &&& text::blen(sent) == s.cursor()
            &&& sent.len() <= t.len()
            &&& t == sent + t.skip(sent.len() as int)
        }),
{
    let t = s.buf.text;
    let i = text::at(t, s.cursor());
    text::lemma_at(t, s.cursor());
    text::lemma_at_off(t, 0);
    law_covered(t, 0, i);
    text::lemma_off_take(t, i, i);
    let sent = s.request(raw).2;
    assert(sent =~= t.take(i));
    assert(t =~= sent + t.skip(sent.len() as int));
}

/// For any other request without a selection, what is sent is the cursor's
/// paragraph with the blank lines after it, and the answer replaces just that:
/// `top` and `bottom` being the first and the last line of the paragraph, and
/// `last` the last of the blank lines.
pub proof fn law_paragraph_sent(s: EdV, raw: Seq<char>, top: int, bottom: int, last: int)
    requires
        text::bd(s.buf.text, s.cursor()),
        !mode::visual(s.mode),
        raw.len() > 0,
        raw != "continue"@,
        textobj::whole_run(s.buf.text, lines::line_at(s.buf.text, s.cursor()), top, bottom),
        bottom <= last < s.line_count(),
        forall|j: int|
            bottom < j <= last ==> chars::blank(#[trigger] lines::line_text(s.buf.text, j)),
        last + 1 < s.line_count() ==> !chars::blank(lines::line_text(s.buf.text, last + 1)),
    ensures
        ({
            let t = s.buf.text;
            let i = lines::line_start(t, top);
            let j = lines::line_start(t, last + 1);
            s.request(raw) == (text::off(t, i), text::off(t, j), t.subrange(i, j), true)
        }),
{
    let t = s.buf.text;
    textobj::law_paragraph_around(t, s.cursor(), top, bottom, last);
    let i = lines::line_start(t, top);
    let j = lines::line_start(t, last + 1);
    lines::lemma_line_start_mono(t, top, last + 1);
    lines::lemma_line_start(t, top);
    lines::lemma_line_start(t, last + 1);
    law_covered(t, i, j);
}

/// An answer takes the place of what it answers and of nothing else: the text
/// before the range, the answer, and the text after it. To continue, the range
/// is the empty one at the cursor. The answer keeps its own text but for the
/// line feeds at its end: there is one there just when what was sent ends in
/// one. An answer of line feeds alone, and an error, change nothing.
pub proof fn law_answer(
    s: EdV,
    i: int,
    j: int,
    sent: Seq<char>,
    replace: bool,
    bare: Seq<char>,
    feeds: int,
)
    requires
        0 <= i <= j <= s.buf.text.len(),
        s.buf.depth == 0,
        s.buf.pend.len() == 0,
        !replace ==> s.cursor() == text::off(s.buf.text, i) && i == j,
        bare.len() == 0 || bare.last() != '\n',
        0 <= feeds,
    ensures
        ({
            let t = s.buf.text;
            let req = (text::off(t, i), text::off(t, j), sent, replace);
            let got = bare + Seq::new(feeds as nat, |k: int| '\n');
            let r = s.answered(req, Ok(got));
            &&& bare.len() > 0 && (sent.len() == 0 || sent.last() != '\n') ==> r.buf.text == t.take(
                i,
            ) + bare + t.skip(j)
            &&& bare.len() > 0 && sent.len() > 0 && sent.last() == '\n' ==> r.buf.text == t.take(i)
                + bare.push('\n') + t.skip(j)
            &&& bare.len() == 0 ==> r.buf == s.buf
            &&& forall|e: Seq<char>| (#[trigger] s.answered(req, Err(e))).buf == s.buf
        }),
{
    reveal(EdV::answered);
    let t = s.buf.text;
    let req = (text::off(t, i), text::off(t, j), sent, replace);
    let got = bare + Seq::new(feeds as nat, |k: int| '\n');
    lemma_without_feeds(bare, feeds);
    reveal_strlit("\n");
    assert("\n"@ =~= seq!['\n']);
    assert(strs::suffixed(sent, "\n"@) == (sent.len() > 0 && sent.last() == '\n')) by {
        if sent.len() > 0 {
            assert(sent.skip(sent.len() - 1) =~= seq![sent.last()]);
            assert(seq![sent.last()][0] == sent.last());
            assert(seq!['\n'][0] == '\n');
        }
    }
    let ans = if sent.len() > 0 && sent.last() == '\n' {
        bare.push('\n')
    } else {
        bare
    };
    assert(bare + "\n"@ =~= bare.push('\n'));
    if bare.len() > 0 {
        edits::law_edit(s.open_undo(), i, j, ans);
    }
}

proof fn lemma_without_feeds(bare: Seq<char>, n: int)
    requires
        bare.len() == 0 || bare.last() != '\n',
        0 <= n,
    ensures
        strs::without_back(bare + Seq::new(n as nat, |k: int| '\n'), '\n') == bare,
{
    let s = bare + Seq::new(n as nat, |k: int| '\n');
    let f = strs::same_as('\n');
    text::lemma_skip_back(s, s.len() as int, f);
    let m = text::skip_back(s, s.len() as int, f);
    if m < bare.len() {
        assert(f(s[bare.len() - 1]));
        assert(s[bare.len() - 1] == bare.last());
    } else if m > bare.len() {
        assert(s[m - 1] == '\n');
        assert(f(s[m - 1]));
    }
    assert(s.take(m) =~= bare);
}

} // verus!
