//! Misspelt words in the text: finding, listing and replacing them.

use vstd::prelude::*;
use vstd::string::*;
use crate::buffer;
use crate::buffer::FileKind;
use crate::chars;
use crate::chars::{ascii_alpha, ascii_digit};
use crate::editor::cursor;
use crate::editor::edits;
use crate::editor::typing;
use crate::editor::state;
use crate::editor::state::{Action, ActionV, Editor, EdV, Options};
use crate::fold;
use crate::lines;
use crate::spell::{MisspellRange, MisspellV};
use crate::strs;
use crate::strs::{cat2, cat3, dec, ends_with, first_char, starts_with, trim, trim_start};
use crate::text;
use crate::text::{byte_len, chars_of, index_at, piece, same};

verus! {

/// A character of a word, as the spelling checker sees it.
pub open spec fn word_char(c: char) -> bool {
    chars::is_ascii_alpha(c) || c == '\'' || c as u32 >= 0x80
}

pub open spec fn word_char_fn() -> spec_fn(char) -> bool {
    |c: char| word_char(c)
}

pub fn is_wordchar(c: char) -> (r: bool)
    ensures
        r == word_char(c),
{
    ascii_alpha(c) || c == '\'' || c as u32 >= 0x80
}

/// First misspelt word from number `k` on that byte `b` touches.
pub open spec fn touching(m: Seq<MisspellV>, b: int, k: int) -> Option<int>
    decreases m.len() - k,
{
    if k < 0 || k >= m.len() {
        None
    } else if m[k].start <= b <= m[k].end {
        Some(k)
    } else {
        touching(m, b, k + 1)
    }
}

/// Start of the first misspelt word from number `k` on that is after `b`.
pub open spec fn next_start(m: Seq<MisspellV>, b: int, k: int) -> Option<int>
    decreases m.len() - k,
{
    if k < 0 || k >= m.len() {
        None
    } else if m[k].start > b {
        Some(m[k].start)
    } else {
        next_start(m, b, k + 1)
    }
}

/// Start of the last of the first `k` misspelt words that is before `b`.
pub open spec fn prev_start(m: Seq<MisspellV>, b: int, k: int) -> Option<int>
    decreases k,
{
    if k <= 0 || k > m.len() {
        None
    } else if m[k - 1].start < b {
        Some(m[k - 1].start)
    } else {
        prev_start(m, b, k - 1)
    }
}

/// The suggestions, numbered from 1, for the status line.
pub open spec fn numbered(s: Seq<Seq<char>>, n: int) -> Seq<char>
    decreases n,
{
    if n <= 0 {
        Seq::empty()
    } else {
        numbered(s, n - 1) + " "@ + strs::dec_of(n) + ":"@ + s[n - 1]
    }
}

pub open spec fn shown(s: Seq<Seq<char>>) -> int {
    state::min(s.len() as int, 9)
}

/// Number of the suggestion that a key picks.
pub open spec fn picked(s: Seq<Seq<char>>, key: Seq<char>) -> Option<int> {
    match strs::head(key) {
        Some(c) => {
            let d = strs::digit_value(c);
            if chars::is_digit(c) && 1 <= d <= shown(s) {
                Some(d - 1)
            } else {
                None
            }
        },
        None => None,
    }
}

/// Where a misspelt word goes among those in order of their places.
pub open spec fn place_among(m: Seq<MisspellV>, b: int, k: int) -> int
    decreases m.len() - k,
{
    if k < 0 || k >= m.len() || m[k].start > b {
        k
    } else {
        place_among(m, b, k + 1)
    }
}

/// The first `n` misspelt words in order of their places; those at one place
/// keep their order.
pub open spec fn in_places(m: Seq<MisspellV>, n: int) -> Seq<MisspellV>
    decreases n,
{
    if n <= 0 {
        Seq::empty()
    } else {
        let s = in_places(m, n - 1);
        s.insert(place_among(s, m[n - 1].start, 0), m[n - 1])
    }
}

impl EdV {
    /// The misspelt word that the cursor touches.
    pub open spec fn missp_here(self) -> Option<MisspellV> {
        match touching(self.missp, self.cursor(), 0) {
            Some(k) => Some(self.missp[k]),
            None => None,
        }
    }

    /// The misspelt word at the cursor, else the word there; none when the
    /// cursor is on no character of a word.
    pub open spec fn word_here(self) -> Option<Seq<char>> {
        match self.missp_here() {
            Some(m) => Some(m.word),
            None => {
                let l = self.line_text(self.line);
                let i = text::at(l, state::min(self.col, text::blen(l)));
                let a = text::skip_back(l, i, word_char_fn());
                let b = text::skip_fwd(l, i, word_char_fn());
                if i < b {
                    Some(l.subrange(a, b))
                } else {
                    None
                }
            },
        }
    }

    #[verifier::opaque]
    pub open spec fn next_missp(self) -> EdV {
        match next_start(self.missp, self.cursor(), 0) {
            Some(b) => self.goto(b),
            None => self.say(" no more misspellings"@, 244),
        }
    }

    #[verifier::opaque]
    pub open spec fn prev_missp(self) -> EdV {
        match prev_start(self.missp, self.cursor(), self.missp.len() as int) {
            Some(b) => self.goto(b),
            None => self.say(" no previous misspellings"@, 244),
        }
    }

    /// Shows the suggestions for the word at the cursor.
    #[verifier::opaque]
    pub open spec fn suggest(self) -> (EdV, ActionV) {
        match self.missp_here() {
            None => typing::quiet(self.say(" no misspelling at cursor"@, 244)),
            Some(m) => if m.suggestions.len() == 0 {
                typing::quiet(self.say(" no suggestions for '"@ + m.word + "'"@, 244))
            } else {
                (
                    self.say(
                        " '"@ + m.word + "' →"@ + numbered(m.suggestions, shown(m.suggestions)),
                        244,
                    ),
                    ActionV::AskSuggestion,
                )
            },
        }
    }

    /// Puts the suggestion that a key picks in place of the word.
    #[verifier::opaque]
    pub open spec fn take_suggestion(self, key: Seq<char>) -> EdV {
        match self.missp_here() {
            None => EdV { status: None, ..self },
            Some(m) => match picked(m.suggestions, key) {
                Some(k) => self.edit(m.start, m.end, m.suggestions[k]).goto(m.start).recheck().say(
                    " → "@ + m.suggestions[k],
                    46,
                ),
                None => EdV { status: None, ..self },
            },
        }
    }

    /// First empty line from `k` on.
    pub open spec fn empty_from(self, k: int) -> Option<int>
        decreases self.line_count() - k,
    {
        if k < 0 || k >= self.line_count() {
            None
        } else if self.line_text(k).len() == 0 {
            Some(k)
        } else {
            self.empty_from(k + 1)
        }
    }

    /// Where the body of a message starts; 0 in other files.
    pub open spec fn body_start(self) -> int {
        if self.buf.kind is Email {
            match self.empty_from(0) {
                Some(k) => k,
                None => 0,
            }
        } else {
            0
        }
    }

    /// Whether line `k` is text of the author's own.
    pub open spec fn own_line(self, k: int) -> bool {
        let l = self.line_text(k);
        k >= self.body_start() && !strs::prefixed(strs::trim_start_of(l), ">"@) && !(strs::prefixed(
            strs::trimmed(l),
            "On "@,
        ) && strs::suffixed(strs::trimmed(l), "wrote:"@))
    }

    /// Those of the first `n` lines that are to be checked, each with its
    /// byte offset.
    pub open spec fn lines_to_check(self, n: int) -> Seq<(Seq<char>, int)>
        decreases n,
    {
        if n <= 0 {
            Seq::empty()
        } else {
            let r = self.lines_to_check(n - 1);
            if self.own_line(n - 1) {
                r.push((self.line_text(n - 1), lines::line_off(self.buf.text, n - 1)))
            } else {
                r
            }
        }
    }

    /// The spelling looked at: what was found, or nothing when it is off.
    pub open spec fn rechecked(self, found: Seq<MisspellV>) -> EdV {
        EdV {
            missp: if self.options.spell {
                in_places(found, found.len() as int)
            } else {
                Seq::empty()
            },
            spell_stale: false,
            ..self
        }
    }

    pub open spec fn spell_off(self) -> EdV {
        EdV {
            options: Options { spell: false, ..self.options },
            missp: Seq::empty(),
            ..self
        }
    }

    /// The checker was started, or there is none for the language.
    pub open spec fn spell_started(self, ok: bool) -> EdV {
        if ok {
            EdV {
                options: Options { spell: true, ..self.options },
                spell_stale: true,
                ..self
            }
        } else {
            self.say(
                " spell: hunspell + dict '"@ + self.spell_lang + "' not available"@,
                196,
            )
        }
    }

    pub open spec fn say_spell_on(self) -> EdV {
        if self.options.spell {
            self.say(
                " spell on ("@ + self.spell_lang + ") — "@ + strs::dec_of(self.missp.len() as int)
                    + " flagged"@,
                46,
            )
        } else {
            self
        }
    }

    pub open spec fn say_spell_lang(self) -> EdV {
        if self.options.spell {
            self.say(
                " spell: lang="@ + self.spell_lang + " ("@ + strs::dec_of(self.missp.len() as int)
                    + " words)"@,
                244,
            )
        } else {
            self
        }
    }

    /// Whether a new language is to be loaded at once.
    pub open spec fn reloads_spell(self) -> bool {
        self.options.spell || self.buf.kind is Email
    }

    pub open spec fn with_lang(self, lang: Seq<char>) -> EdV {
        let s = EdV { spell_lang: lang, ..self };
        if self.reloads_spell() {
            s
        } else {
            s.say(" spell lang: "@ + lang + " (use :set spell to enable)"@, 244)
        }
    }

    /// A word went to the personal dictionary.
    pub open spec fn word_added(self, word: Seq<char>) -> EdV {
        let w = strs::trimmed(word);
        if w.len() == 0 {
            self
        } else {
            self.recheck().say(" added '"@ + w + "' to personal dict"@, 244)
        }
    }
}

fn number_list(s: &Vec<String>, max: usize) -> (r: String)
    requires
        max <= s@.len(),
    ensures
        r@ == numbered(fold::views(s@), max as int),
{
    let mut r: String = String::new();
    let mut i: usize = 0;
    while i < max
        invariant
            i <= max <= s@.len(),
            r@ == numbered(fold::views(s@), i as int),
        decreases max - i,
    {
        assert(fold::views(s@)[i as int] == s@[i as int]@);
        let a: String = cat3(&r, " ", &dec(i as u128 + 1));
        r = cat3(&a, ":", &s[i]);
        i += 1;
    }
    r
}

/// Number of the suggestion that a key picks.
fn pick_index(s: &Vec<String>, key: &str) -> (r: Option<usize>)
    ensures
        buffer::int_opt(r) == picked(fold::views(s@), key@),
        r matches Some(k) ==> k < s@.len(),
{
    match first_char(key) {
        Some(c) => {
            if !ascii_digit(c) {
                return None;
            }
            let d: usize = (c as u32 - '0' as u32) as usize;
            let max: usize = if s.len() < 9 {
                s.len()
            } else {
                9
            };
            if 1 <= d && d <= max {
                Some(d - 1)
            } else {
                None
            }
        },
        None => None,
    }
}

impl Editor {
    /// Number of the misspelt word that the cursor touches.
    pub fn misspelling_at_cursor(&self) -> (r: Option<usize>)
        requires
            self.wf(),
        ensures
            buffer::int_opt(r) == touching(self@.missp, self@.cursor(), 0),
            r matches Some(k) ==> k < self.misspellings@.len(),
    {
        let b: usize = self.cursor_byte();
        let mut k: usize = 0;
        while k < self.misspellings.len()
            invariant
                k <= self.misspellings.len(),
                b == self@.cursor(),
                touching(self@.missp, self@.cursor(), 0) == touching(
                    self@.missp,
                    self@.cursor(),
                    k as int,
                ),
            decreases self.misspellings.len() - k,
        {
            assert(self@.missp[k as int] == self.misspellings@[k as int]@);
            if b >= self.misspellings[k].start && b <= self.misspellings[k].end {
                return Some(k);
            }
            k += 1;
        }
        None
    }

    /// The word at the cursor.
    pub fn word_at_cursor(&self) -> (r: Option<String>)
        requires
            self.wf(),
        ensures
            buffer::str_opt(r) == self@.word_here(),
    {
        if let Some(k) = self.misspelling_at_cursor() {
            assert(self@.missp[k as int] == self.misspellings@[k as int]@);
            return Some(self.misspellings[k].word.clone());
        }
        let l: String = self.buf.line(self.cur_line);
        let n: usize = byte_len(&l);
        let v: Vec<char> = chars_of(&l);
        let i: usize = index_at(
            &v,
            if self.cur_col <= n {
                self.cur_col
            } else {
                n
            },
        );
        let mut a: usize = i;
        while a > 0 && is_wordchar(v[a - 1])
            invariant
                a <= i <= v.len(),
                text::skip_back(v@, i as int, word_char_fn()) == text::skip_back(
                    v@,
                    a as int,
                    word_char_fn(),
                ),
            decreases a,
        {
            a -= 1;
        }
        let mut b: usize = i;
        while b < v.len() && is_wordchar(v[b])
            invariant
                i <= b <= v.len(),
                text::skip_fwd(v@, i as int, word_char_fn()) == text::skip_fwd(
                    v@,
                    b as int,
                    word_char_fn(),
                ),
            decreases v.len() - b,
        {
            b += 1;
        }
        if i < b {
            Some(piece(&v, a, b))
        } else {
            None
        }
    }

    /// To the next misspelt word.
    pub fn jump_next_misspelling(&mut self)
        requires
            old(self).wf(),
        ensures
            final(self)@ == old(self)@.next_missp(),
            final(self).wf(),
    {
        proof {
            reveal(EdV::next_missp);
        }
        let b: usize = self.cursor_byte();
        let n: usize = self.misspellings.len();
        let mut k: usize = 0;
        while k < n && self.misspellings[k].start <= b
            invariant
                k <= n,
                n == self.misspellings.len(),
                b == self@.cursor(),
                next_start(self@.missp, b as int, 0) == next_start(self@.missp, b as int, k as int),
            decreases n - k,
        {
            assert(self@.missp[k as int] == self.misspellings@[k as int]@);
            k += 1;
        }
        if k < n {
            assert(self@.missp[k as int] == self.misspellings@[k as int]@);
            let t: usize = self.misspellings[k].start;
            self.cursor_to_byte(t);
        } else {
            self.set_status(" no more misspellings", 244);
        }
    }

    /// To the misspelt word before.
    pub fn jump_prev_misspelling(&mut self)
        requires
            old(self).wf(),
        ensures
            final(self)@ == old(self)@.prev_missp(),
            final(self).wf(),
    {
        proof {
            reveal(EdV::prev_missp);
        }
        let b: usize = self.cursor_byte();
        let mut k: usize = self.misspellings.len();
        while k > 0 && self.misspellings[k - 1].start >= b
            invariant
                k <= self.misspellings.len(),
                b == self@.cursor(),
                prev_start(self@.missp, b as int, self@.missp.len() as int) == prev_start(
                    self@.missp,
                    b as int,
                    k as int,
                ),
            decreases k,
        {
            assert(self@.missp[k - 1] == self.misspellings@[k - 1]@);
            k -= 1;
        }
        if k > 0 {
            assert(self@.missp[k - 1] == self.misspellings@[k - 1]@);
            let t: usize = self.misspellings[k - 1].start;
            self.cursor_to_byte(t);
        } else {
            self.set_status(" no previous misspellings", 244);
        }
    }

    /// Shows the suggestions for the word at the cursor.
    pub fn spell_suggest_at_cursor(&mut self) -> (act: Action)
        requires
            old(self).wf(),
        ensures
            typing::gave(final(self)@, act@, old(self)@.suggest()),
            final(self).wf(),
    {
        proof {
            reveal(EdV::suggest);
        }
        match self.misspelling_at_cursor() {
            None => {
                self.set_status(" no misspelling at cursor", 244);
                Action::Nothing
            },
            Some(k) => {
                assert(self@.missp[k as int] == self.misspellings@[k as int]@);
                let word: String = self.misspellings[k].word.clone();
                let n: usize = self.misspellings[k].suggestions.len();
                if n == 0 {
                    self.set_status(&cat3(" no suggestions for '", &word, "'"), 244);
                    return Action::Nothing;
                }
                let max: usize = if n < 9 {
                    n
                } else {
                    9
                };
                let list: String = number_list(&self.misspellings[k].suggestions, max);
                let head: String = cat3(" '", &word, "' →");
                self.set_status(&cat2(&head, &list), 244);
                Action::AskSuggestion
            },
        }
    }

    /// Puts the suggestion that a key picks in place of the word.
    pub fn take_suggestion(&mut self, key: &str)
        requires
            old(self).wf(),
        ensures
            final(self)@ == old(self)@.take_suggestion(key@),
            final(self).wf(),
    {
        proof {
            reveal(EdV::take_suggestion);
        }
        match self.misspelling_at_cursor() {
            None => {
                self.status = None;
            },
            Some(k) => {
                assert(self@.missp[k as int] == self.misspellings@[k as int]@);
                match pick_index(&self.misspellings[k].suggestions, key) {
                    Some(j) => {
                        let r: String = self.misspellings[k].suggestions[j].clone();
                        assert(self@.missp[k as int].suggestions[j as int] == r@);
                        let a: usize = self.misspellings[k].start;
                        let b: usize = self.misspellings[k].end;
                        self.edit(a, b, &r);
                        self.cursor_to_byte(a);
                        self.mark_stale();
                        self.set_status(&cat2(" → ", &r), 46);
                    },
                    None => {
                        self.status = None;
                    },
                }
            },
        }
    }

    /// Where the body of a message starts; 0 in other files.
    pub fn body_start(&self) -> (r: usize)
        ensures
            r == self@.body_start(),
    {
        match self.buf.kind_ref() {
            FileKind::Email => {},
            _ => {
                return 0;
            },
        }
        let total: usize = self.buf.line_count();
        let mut k: usize = 0;
        while k < total
            invariant
                k <= total,
                total == self@.line_count(),
                self@.buf.kind is Email,
                self@.empty_from(0) == self@.empty_from(k as int),
            decreases total - k,
        {
            if chars_of(&self.buf.line(k)).len() == 0 {
                return k;
            }
            k += 1;
        }
        0
    }

    /// The lines whose spelling is to be checked, each with its byte offset.
    pub fn spell_lines(&self) -> (out: Vec<(String, usize)>)
        ensures
            Seq::new(out@.len(), |i: int| (out@[i].0@, out@[i].1 as int))
                == self@.lines_to_check(self@.line_count()),
    {
        let total: usize = self.buf.line_count();
        let start: usize = self.body_start();
        let mut out: Vec<(String, usize)> = Vec::new();
        let mut k: usize = 0;
        assert(checked_view(out@) =~= self@.lines_to_check(0));
        while k < total
            invariant
                k <= total,
                total == self@.line_count(),
                start == self@.body_start(),
                checked_view(out@) == self@.lines_to_check(k as int),
            decreases total - k,
        {
            let ghost before = out@;
            let l: String = self.buf.line(k);
            let t: String = trim(&l);
            if k >= start && !starts_with(&trim_start(&l), ">") && !(starts_with(&t, "On ")
                && ends_with(&t, "wrote:")) {
                let o: usize = self.buf.line_byte_offset(k);
                let ghost e = (l@, o as int);
                out.push((l, o));
                assert(checked_view(out@) =~= checked_view(before).push(e));
            }
            k += 1;
        }
        assert(checked_view(out@) =~= Seq::new(
            out@.len(),
            |i: int| (out@[i].0@, out@[i].1 as int),
        ));
        out
    }

    /// Takes the misspelt words that were found.
    pub fn spell_found(&mut self, found: Vec<MisspellRange>)
        requires
            old(self).wf(),
        ensures
            final(self)@ == old(self)@.rechecked(state::missp_view(found@)),
            final(self).wf(),
    {
        if self.options.spell {
            self.misspellings = sort_places(found);
        } else {
            self.misspellings = Vec::new();
            assert(state::missp_view(self.misspellings@) =~= Seq::empty());
        }
        self.spell_stale = false;
    }

    /// Turns the spelling off.
    pub fn spell_disable(&mut self)
        requires
            old(self).wf(),
        ensures
            final(self)@ == old(self)@.spell_off(),
            final(self).wf(),
    {
        self.options.spell = false;
        self.misspellings = Vec::new();
        assert(state::missp_view(self.misspellings@) =~= Seq::empty());
    }

    /// The checker was started, or could not be.
    pub fn spell_enable(&mut self, ok: bool)
        requires
            old(self).wf(),
        ensures
            final(self)@ == old(self)@.spell_started(ok),
            final(self).wf(),
    {
        if ok {
            self.options.spell = true;
            self.spell_stale = true;
        } else {
            let m: String = cat3(
                " spell: hunspell + dict '",
                &self.spell_lang,
                "' not available",
            );
            self.set_status(&m, 196);
        }
    }

    /// Chooses a language; says whether a running checker is of another one.
    pub fn quick_spell(&mut self, lang: &str) -> (changed: bool)
        requires
            old(self).wf(),
        ensures
            final(self)@ == (EdV { spell_lang: lang@, ..old(self)@ }),
            changed == (old(self)@.spell_lang != lang@),
            final(self).wf(),
    {
        let changed: bool = !same(&self.spell_lang, lang);
        self.spell_lang = lang.to_owned();
        changed
    }

    pub fn say_spell_on(&mut self)
        requires
            old(self).wf(),
        ensures
            final(self)@ == old(self)@.say_spell_on(),
            final(self).wf(),
    {
        if self.options.spell {
            let a: String = cat3(" spell on (", &self.spell_lang, ") — ");
            self.set_status(&cat3(&a, &dec(self.misspellings.len() as u128), " flagged"), 46);
        }
    }

    /// Sets the language; says whether the checker is to be started anew.
    pub fn spell_set_lang(&mut self, lang: &str) -> (reload: bool)
        requires
            old(self).wf(),
        ensures
            final(self)@ == old(self)@.with_lang(lang@),
            reload == old(self)@.reloads_spell(),
            final(self).wf(),
    {
        let email: bool = match self.buf.kind_ref() {
            FileKind::Email => true,
            _ => false,
        };
        self.spell_lang = lang.to_owned();
        if self.options.spell || email {
            true
        } else {
            self.set_status(&cat3(" spell lang: ", lang, " (use :set spell to enable)"), 244);
            false
        }
    }

    pub fn say_spell_lang(&mut self)
        requires
            old(self).wf(),
        ensures
            final(self)@ == old(self)@.say_spell_lang(),
            final(self).wf(),
    {
        if self.options.spell {
            let a: String = cat3(" spell: lang=", &self.spell_lang, " (");
            self.set_status(&cat3(&a, &dec(self.misspellings.len() as u128), " words)"), 244);
        }
    }

    /// A word went to the personal dictionary.
    pub fn spell_add_word(&mut self, word: &str)
        requires
            old(self).wf(),
        ensures
            final(self)@ == old(self)@.word_added(word@),
            final(self).wf(),
    {
        let w: String = trim(word);
        if chars_of(&w).len() == 0 {
            return;
        }
        self.mark_stale();
        self.set_status(&cat3(" added '", &w, "' to personal dict"), 244);
    }
}

spec fn checked_view(v: Seq<(String, usize)>) -> Seq<(Seq<char>, int)> {
    Seq::new(v.len(), |i: int| (v[i].0@, v[i].1 as int))
}

fn find_place(m: &Vec<MisspellRange>, b: usize) -> (k: usize)
    ensures
        k == place_among(state::missp_view(m@), b as int, 0),
        k <= m@.len(),
{
    let mut k: usize = 0;
    while k < m.len() && m[k].start <= b
        invariant
            k <= m.len(),
            place_among(state::missp_view(m@), b as int, 0) == place_among(
                state::missp_view(m@),
                b as int,
                k as int,
            ),
        decreases m.len() - k,
    {
        k += 1;
    }
    k
}

/// The misspelt words in order of their places.
fn sort_places(found: Vec<MisspellRange>) -> (out: Vec<MisspellRange>)
    ensures
        state::missp_view(out@) == in_places(
            state::missp_view(found@),
            found@.len() as int,
        ),
{
    let ghost all = state::missp_view(found@);
    let mut rest: Vec<MisspellRange> = found;
    let mut out: Vec<MisspellRange> = Vec::new();
    assert(state::missp_view(out@) =~= in_places(all, 0));
    assert(state::missp_view(rest@) =~= all.skip(0));
    while rest.len() > 0
        invariant
            rest@.len() + out@.len() == all.len(),
            state::missp_view(rest@) == all.skip(out@.len() as int),
            state::missp_view(out@) == in_places(all, out@.len() as int),
        decreases rest.len(),
    {
        let ghost n = out@.len() as int;
        let ghost before = out@;
        let ghost left = rest@;
        assert(all[n] == state::missp_view(left)[0]);
        let m: MisspellRange = rest.remove(0);
        assert(state::missp_view(rest@) =~= all.skip(n + 1)) by {
            assert forall|i: int| 0 <= i < rest@.len() implies rest@[i]@ == #[trigger] all.skip(
                n + 1,
            )[i] by {
                assert(rest@[i] == left[i + 1]);
                assert(state::missp_view(left)[i + 1] == all[n + 1 + i]);
            }
        }
        let k: usize = find_place(&out, m.start);
        let ghost mv = m@;
        out.insert(k, m);
        assert(state::missp_view(out@) =~= state::missp_view(before).insert(k as int, mv));
    }
    out
}

/// The order of the misspelt words: none comes before one that is at an
/// earlier place.
pub proof fn law_places_ascend(m: Seq<MisspellV>, n: int)
    requires
        0 <= n <= m.len(),
    ensures
        in_places(m, n).len() == n,
        forall|i: int, j: int|
            0 <= i <= j < n ==> #[trigger] in_places(m, n)[i].start <= #[trigger] in_places(
                m,
                n,
            )[j].start,
    decreases n,
{
    if n > 0 {
        law_places_ascend(m, n - 1);
        let s = in_places(m, n - 1);
        lemma_place_among(s, m[n - 1].start, 0);
    }
}

proof fn lemma_place_among(m: Seq<MisspellV>, b: int, k: int)
    requires
        0 <= k <= m.len(),
    ensures
        k <= place_among(m, b, k) <= m.len(),
        forall|i: int| k <= i < place_among(m, b, k) ==> (#[trigger] m[i]).start <= b,
        place_among(m, b, k) < m.len() ==> m[place_among(m, b, k)].start > b,
    decreases m.len() - k,
{
    if k < m.len() && m[k].start <= b {
        lemma_place_among(m, b, k + 1);
    }
}

// ── Where the spelling commands lead ────────────────────────────────────

/// The next misspelt word is the nearest one that starts after the cursor, and
/// the previous one the nearest that starts before it, the words being in the
/// order of their places; without one the cursor stays.
pub proof fn law_nearest_misspelling(m: Seq<MisspellV>, b: int)
    requires
        forall|i: int, j: int| 0 <= i < j < m.len() ==> (#[trigger] m[i]).start <= (#[trigger] m[j]).start,
    ensures
        match next_start(m, b, 0) {
            Some(x) => {
                &&& x > b
                &&& exists|k: int| 0 <= k < m.len() && (#[trigger] m[k]).start == x
                &&& forall|k: int|
                    0 <= k < m.len() && (#[trigger] m[k]).start > b ==> x <= m[k].start
            },
            None => forall|k: int| 0 <= k < m.len() ==> (#[trigger] m[k]).start <= b,
        },
        match prev_start(m, b, m.len() as int) {
            Some(x) => {
                &&& x < b
                &&& exists|k: int| 0 <= k < m.len() && (#[trigger] m[k]).start == x
                &&& forall|k: int|
                    0 <= k < m.len() && (#[trigger] m[k]).start < b ==> m[k].start <= x
            },
            None => forall|k: int| 0 <= k < m.len() ==> (#[trigger] m[k]).start >= b,
        },
{
    lemma_next_start(m, b, 0);
    lemma_prev_start(m, b, m.len() as int);
}

proof fn lemma_next_start(m: Seq<MisspellV>, b: int, i: int)
    requires
        0 <= i <= m.len(),
        forall|k: int| 0 <= k < i ==> (#[trigger] m[k]).start <= b,
        forall|i: int, j: int| 0 <= i < j < m.len() ==> (#[trigger] m[i]).start <= (#[trigger] m[j]).start,
    ensures
        match next_start(m, b, i) {
            Some(x) => {
                &&& x > b
                &&& exists|k: int| 0 <= k < m.len() && (#[trigger] m[k]).start == x
                &&& forall|k: int|
                    0 <= k < m.len() && (#[trigger] m[k]).start > b ==> x <= m[k].start
            },
            None => forall|k: int| 0 <= k < m.len() ==> (#[trigger] m[k]).start <= b,
        },
    decreases m.len() - i,
{
    if i < m.len() {
        if m[i].start > b {
            assert(next_start(m, b, i) == Some(m[i].start));
        } else {
            lemma_next_start(m, b, i + 1);
        }
    }
}

proof fn lemma_prev_start(m: Seq<MisspellV>, b: int, i: int)
    requires
        0 <= i <= m.len(),
        forall|k: int| i <= k < m.len() ==> (#[trigger] m[k]).start >= b,
        forall|i: int, j: int| 0 <= i < j < m.len() ==> (#[trigger] m[i]).start <= (#[trigger] m[j]).start,
    ensures
        match prev_start(m, b, i) {
            Some(x) => {
                &&& x < b
                &&& exists|k: int| 0 <= k < m.len() && (#[trigger] m[k]).start == x
                &&& forall|k: int|
                    0 <= k < m.len() && (#[trigger] m[k]).start < b ==> m[k].start <= x
            },
            None => forall|k: int| 0 <= k < m.len() ==> (#[trigger] m[k]).start >= b,
        },
    decreases i,
{
    if i > 0 {
        if m[i - 1].start < b {
            assert(prev_start(m, b, i) == Some(m[i - 1].start));
        } else {
            lemma_prev_start(m, b, i - 1);
        }
    }
}

/// A key from 1 to 9 puts the suggestion of that number in place of the
/// misspelt word at the cursor, and changes nothing else.
pub proof fn law_suggestion_taken(s: EdV, m: MisspellV, i: int, j: int, n: int)
    requires
        s.missp_here() == Some(m),
        0 <= i <= j <= s.buf.text.len(),
        m.start == text::off(s.buf.text, i),
        m.end == text::off(s.buf.text, j),
        1 <= n <= 9,
        n <= m.suggestions.len(),
    ensures
        s.take_suggestion(strs::dec_of(n)).buf.text == s.buf.text.take(i) + m.suggestions[n - 1]
            + s.buf.text.skip(j),
{
    reveal(EdV::take_suggestion);
    let d = strs::dec_of(n);
    assert(d[0] == strs::digit_of(n));
    assert(strs::digit_value(d[0]) == n);
    edits::law_edit(s, i, j, m.suggestions[n - 1]);
}

/// The misspelt word at the cursor is one that the cursor touches, and there is
/// none only when it touches none.
pub proof fn law_misspelling_here(s: EdV)
    ensures
        match s.missp_here() {
            Some(m) => m.start <= s.cursor() <= m.end && s.missp.contains(m),
            None => forall|k: int|
                0 <= k < s.missp.len() ==> !((#[trigger] s.missp[k]).start <= s.cursor()
                    <= s.missp[k].end),
        },
{
    lemma_touching(s.missp, s.cursor(), 0);
}

proof fn lemma_touching(m: Seq<MisspellV>, b: int, i: int)
    requires
        0 <= i <= m.len(),
    ensures
        match touching(m, b, i) {
            Some(k) => i <= k < m.len() && m[k].start <= b <= m[k].end,
            None => forall|k: int|
                i <= k < m.len() ==> !((#[trigger] m[k]).start <= b <= m[k].end),
        },
    decreases m.len() - i,
{
    if i < m.len() && !(m[i].start <= b <= m[i].end) {
        lemma_touching(m, b, i + 1);
    }
}

} // verus!
