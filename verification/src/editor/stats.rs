//! Counts of lines, words and characters, and the lines above and below the
//! text that show them.

use vstd::prelude::*;
use vstd::string::*;
use crate::buffer::FileKind;
use crate::chars;
use crate::cols;
use crate::cols::byte_at_or_past_col;
use crate::editor::cursor;
use crate::editor::edits;
use crate::editor::selections;
use crate::editor::state;
use crate::editor::state::{Editor, EdV};
use crate::fold;
use crate::lines;
use crate::mode;
use crate::mode::Mode;
use crate::strs;
use crate::strs::{cat2, cat3, count_char, dec, split_words};
use crate::text;
use crate::text::{byte_len, chars_of, index_at, piece};

verus! {

/// Number of words of a text.
pub open spec fn words_in(s: Seq<char>) -> int {
    strs::words_from(s, 0).len() as int
}

/// What a selection or a text holds.
#[derive(Copy, Clone, Debug, PartialEq, Eq, Structural)]
pub struct Counts {
    pub lines: u128,
    pub words: u128,
    pub chars: u128,
}

#[verifier::ext_equal]
pub struct CountsV {
    pub lines: int,
    pub words: int,
    pub chars: int,
}

impl View for Counts {
    type V = CountsV;

    open spec fn view(&self) -> CountsV {
        CountsV { lines: self.lines as int, words: self.words as int, chars: self.chars as int }
    }
}

impl EdV {
    /// Words of the first `n` lines.
    pub open spec fn words_to(self, n: int) -> int
        decreases n,
    {
        if n <= 0 {
            0
        } else {
            self.words_to(n - 1) + words_in(self.line_text(n - 1))
        }
    }

    /// Words of the text, line by line.
    pub open spec fn wordcount(self) -> int {
        self.words_to(self.line_count())
    }

    /// Words and characters of the lines `a..b`, each line feed counted.
    pub open spec fn line_counts(self, a: int, b: int) -> (int, int)
        decreases b - a,
    {
        if a >= b {
            (0, 0)
        } else {
            let (w, c) = self.line_counts(a, b - 1);
            let l = self.line_text(b - 1);
            (w + words_in(l), c + l.len() + 1)
        }
    }

    /// What the block covers on line `k`.
    pub open spec fn block_piece(self, k: int) -> Seq<char> {
        let l = self.line_text(k);
        let (i, j) = self.block_span(k, self.left_col(), self.right_col());
        if i >= l.len() || j <= i {
            Seq::empty()
        } else {
            l.subrange(i, j)
        }
    }

    /// Words and characters of the block on the lines `a..b`.
    pub open spec fn block_counts(self, a: int, b: int) -> (int, int)
        decreases b - a,
    {
        if a >= b {
            (0, 0)
        } else {
            let (w, c) = self.block_counts(a, b - 1);
            let p = self.block_piece(b - 1);
            (w + words_in(p), c + p.len())
        }
    }

    /// The text that a selection by character covers.
    pub open spec fn selected_text(self) -> Seq<char> {
        let t = self.buf.text;
        let (lo, hi) = self.visual_range();
        let a = text::at(t, lo);
        let b = text::at(t, hi);
        if a <= b {
            t.subrange(a, b)
        } else {
            Seq::empty()
        }
    }

    /// Lines, words and characters of the selection.
    pub open spec fn selection_counts(self) -> CountsV {
        let l1 = self.top_line();
        let l2 = self.bottom_line();
        match self.mode {
            Mode::VisualLine => {
                let (w, c) = self.line_counts(l1, l2 + 1);
                CountsV { lines: l2 - l1 + 1, words: w, chars: c - 1 }
            },
            Mode::VisualBlock => {
                let (w, c) = self.block_counts(l1, l2 + 1);
                CountsV { lines: l2 - l1 + 1, words: w, chars: c }
            },
            _ => {
                let t = self.selected_text();
                CountsV {
                    lines: strs::count_of(t, '\n', t.len() as int) + 1,
                    words: words_in(t),
                    chars: t.len() as int,
                }
            },
        }
    }

    /// What the header says.
    pub open spec fn header(self) -> Seq<char> {
        if self.options.reading {
            strs::repeated(" "@, self.cols as int)
        } else {
            let name = match self.buf.path {
                Some(p) => p,
                None => "[no name]"@,
            };
            let dirty = if self.buf.dirty {
                " *"@
            } else {
                ""@
            };
            " "@ + name + dirty + ("  ("@ + strs::dec_of(self.line_count()) + " lines)"@)
        }
    }

    /// The cursor's line and character column, both counted from 1.
    pub open spec fn position_text(self) -> Seq<char> {
        let l = self.line_text(self.line);
        let c = text::at(l, state::min(self.col, text::blen(l)));
        " "@ + strs::dec_of(self.line + 1) + (":"@ + strs::dec_of(c + 1) + " "@)
    }

    /// Name of the kind of file.
    pub open spec fn kind_name(self) -> Seq<char> {
        match self.buf.kind {
            FileKind::Plain => "plain"@,
            FileKind::Email => "email"@,
            FileKind::Source(s) => s@,
        }
    }

    pub open spec fn spell_name(self) -> Seq<char> {
        if self.options.spell {
            "spell:"@ + self.spell_lang
        } else {
            "spell:off"@
        }
    }

    /// The counts in the footer: of the selection while there is one, else
    /// of the text.
    pub open spec fn stats_text(self) -> Seq<char> {
        if mode::visual(self.mode) {
            let c = self.selection_counts();
            " sel: "@ + strs::dec_of(c.lines) + "l "@ + (strs::dec_of(c.words) + "w "@ + (
            strs::dec_of(c.chars) + "c "@))
        } else {
            " "@ + strs::dec_of(self.wordcount()) + "w  "@ + (strs::dec_of(
                self.buf.text.len() as int,
            ) + "c  ft:"@ + (self.kind_name() + "  "@ + (self.spell_name() + " "@)))
        }
    }

    /// The message in the footer.
    pub open spec fn message(self) -> Seq<char> {
        match self.status {
            Some((m, _)) => m,
            None => ""@,
        }
    }
}

fn count_words(s: &str) -> (n: usize)
    ensures
        n == words_in(s@),
{
    let v: Vec<String> = split_words(s);
    assert(fold::views(v@).len() == v@.len());
    v.len()
}

impl Editor {
    /// Words of the text.
    pub fn compute_wordcount(&self) -> (n: u128)
        ensures
            n == self@.wordcount(),
    {
        let total: usize = self.buf.line_count();
        let mut n: u128 = 0;
        let mut i: usize = 0;
        while i < total
            invariant
                i <= total,
                total == self@.line_count(),
                n == self@.words_to(i as int),
                n <= i * 0xffff_ffff_ffff_ffff,
            decreases total - i,
        {
            n = n + count_words(&self.buf.line(i)) as u128;
            i += 1;
        }
        n
    }

    fn line_counts(&self, l1: usize, l2: usize) -> (r: (u128, u128))
        requires
            l1 <= l2,
        ensures
            (r.0 as int, r.1 as int) == self@.line_counts(l1 as int, l2 + 1),
            r.1 >= 1,
    {
        let total: usize = self.buf.line_count();
        let mut w: u128 = 0;
        let mut c: u128 = 0;
        let mut k: usize = l1;
        loop
            invariant
                l1 <= k <= l2,
                total == self@.line_count(),
                (w as int, c as int) == self@.line_counts(l1 as int, k as int),
                w <= (k - l1) * 0xffff_ffff_ffff_ffff,
                c <= (k - l1) * 0x1_0000_0000_0000_0000,
            decreases l2 - k,
        {
            let l: String = self.buf.line(k);
            proof {
                if k >= total {
                    lines::lemma_line_start(self@.buf.text, k as int);
                    lines::lemma_line_start(self@.buf.text, k + 1);
                    assert(lines::line_raw(self@.buf.text, k as int) =~= Seq::empty());
                }
            }
            w = w + count_words(&l) as u128;
            c = c + chars_of(&l).len() as u128 + 1;
            if k == l2 {
                return (w, c);
            }
            k += 1;
        }
    }

    fn block_piece(&self, k: usize) -> (s: String)
        ensures
            s@ == self@.block_piece(k as int),
    {
        let l: String = self.buf.line(k);
        let v: Vec<char> = chars_of(&l);
        let (v1, v2) = self.visual_cols();
        let ts: usize = self.tabstop();
        let (a, _) = byte_at_or_past_col(&l, v1, ts);
        let (b, _) = byte_at_or_past_col(&l, v2.saturating_add(1), ts);
        let i: usize = index_at(&v, a);
        let j: usize = index_at(&v, b);
        proof {
            let (x, y) = self@.block_span(k as int, v1 as int, v2 as int);
            text::lemma_at_off(l@, x);
            text::lemma_at_off(l@, y);
        }
        if i >= v.len() || j <= i {
            let s: String = String::new();
            assert(s@ =~= Seq::empty());
            s
        } else {
            piece(&v, i, j)
        }
    }

    fn block_counts(&self, l1: usize, l2: usize) -> (r: (u128, u128))
        requires
            l1 <= l2,
        ensures
            (r.0 as int, r.1 as int) == self@.block_counts(l1 as int, l2 + 1),
    {
        let mut w: u128 = 0;
        let mut c: u128 = 0;
        let mut k: usize = l1;
        loop
            invariant
                l1 <= k <= l2,
                (w as int, c as int) == self@.block_counts(l1 as int, k as int),
                w <= (k - l1) * 0xffff_ffff_ffff_ffff,
                c <= (k - l1) * 0xffff_ffff_ffff_ffff,
            decreases l2 - k,
        {
            let p: String = self.block_piece(k);
            w = w + count_words(&p) as u128;
            c = c + chars_of(&p).len() as u128;
            if k == l2 {
                return (w, c);
            }
            k += 1;
        }
    }

    fn selected_text(&self) -> (s: String)
        requires
            self.wf(),
        ensures
            s@ == self@.selected_text(),
    {
        let (lo, hi) = self.visual_range();
        let v: Vec<char> = self.buf.chars();
        let a: usize = index_at(&v, lo);
        let b: usize = index_at(&v, hi);
        if a <= b {
            piece(&v, a, b)
        } else {
            let s: String = String::new();
            assert(s@ =~= Seq::empty());
            s
        }
    }

    /// Lines, words and characters of the selection.
    pub fn compute_selection_stats(&self) -> (c: Counts)
        requires
            self.wf(),
        ensures
            c@ == self@.selection_counts(),
    {
        let (l1, l2) = self.visual_lines();
        let lines: u128 = (l2 - l1) as u128 + 1;
        match self.mode {
            Mode::VisualLine => {
                let (words, chars) = self.line_counts(l1, l2);
                Counts { lines, words, chars: chars - 1 }
            },
            Mode::VisualBlock => {
                let (words, chars) = self.block_counts(l1, l2);
                Counts { lines, words, chars }
            },
            _ => {
                let t: String = self.selected_text();
                Counts {
                    lines: count_char(&t, '\n') as u128 + 1,
                    words: count_words(&t) as u128,
                    chars: chars_of(&t).len() as u128,
                }
            },
        }
    }

    /// The text of the header.
    pub fn render_header(&self) -> (s: String)
        ensures
            s@ == self@.header(),
    {
        if self.options.reading {
            return strs::repeat(" ", self.cols as usize);
        }
        let name: String = match self.buf.path_ref() {
            Some(p) => p.clone(),
            None => "[no name]".to_owned(),
        };
        let dirty: &str = if self.buf.is_dirty() {
            " *"
        } else {
            ""
        };
        cat2(
            &cat3(" ", &name, dirty),
            &cat3("  (", &dec(self.buf.line_count() as u128), " lines)"),
        )
    }

    /// The cursor's position for the footer.
    pub fn position_text(&self) -> (s: String)
        ensures
            s@ == self@.position_text(),
    {
        let l: String = self.buf.line(self.cur_line);
        let v: Vec<char> = chars_of(&l);
        let n: usize = byte_len(&l);
        let c: usize = index_at(
            &v,
            if self.cur_col <= n {
                self.cur_col
            } else {
                n
            },
        );
        cat3(
            " ",
            &dec(self.cur_line as u128 + 1),
            &cat3(":", &dec(c as u128 + 1), " "),
        )
    }

    /// Name of the kind of file.
    pub fn kind_name(&self) -> (s: String)
        ensures
            s@ == self@.kind_name(),
    {
        match self.buf.kind_ref() {
            FileKind::Plain => "plain".to_owned(),
            FileKind::Email => "email".to_owned(),
            FileKind::Source(s) => s.clone(),
        }
    }

    /// The state of the spelling checker for the footer.
    pub fn spell_name(&self) -> (s: String)
        ensures
            s@ == self@.spell_name(),
    {
        if self.options.spell {
            cat2("spell:", &self.spell_lang)
        } else {
            "spell:off".to_owned()
        }
    }

    /// The counts for the footer.
    pub fn stats_text(&self) -> (s: String)
        requires
            self.wf(),
        ensures
            s@ == self@.stats_text(),
    {
        if self.mode.is_visual() {
            let c: Counts = self.compute_selection_stats();
            cat2(
                &cat3(" sel: ", &dec(c.lines), "l "),
                &cat3(&dec(c.words), "w ", &cat2(&dec(c.chars), "c ")),
            )
        } else {
            let n: usize = self.buf.chars().len();
            cat2(
                &cat3(" ", &dec(self.compute_wordcount()), "w  "),
                &cat3(
                    &dec(n as u128),
                    "c  ft:",
                    &cat3(&self.kind_name(), "  ", &cat2(&self.spell_name(), " ")),
                ),
            )
        }
    }

    /// The message for the footer.
    pub fn message(&self) -> (s: String)
        ensures
            s@ == self@.message(),
    {
        match &self.status {
            Some((m, _)) => m.clone(),
            None => "".to_owned(),
        }
    }
}

// ── What the counts count ───────────────────────────────────────────────

proof fn lemma_break_is_space(t: Seq<char>, i: int)
    requires
        0 <= i < t.len(),
        lines::is_break(t, i),
    ensures
        chars::is_space(t[i]),
{
    reveal(chars::is_space);
}

/// White space at the end of a text adds no word.
proof fn lemma_words_before(a: Seq<char>, c: char)
    requires
        chars::is_space(c),
    ensures
        strs::words_from(a.push(c), 0) == strs::words_from(a, 0),
{
    strs::law_words(a, c, Seq::empty());
    assert(a.push(c) + Seq::<char>::empty() =~= a.push(c));
    assert(strs::words_from(Seq::empty(), 0) =~= Seq::empty());
    assert(strs::words_from(a, 0) + Seq::<Seq<char>>::empty() =~= strs::words_from(a, 0));
}

/// Words of two texts of which the first ends in white space.
proof fn lemma_words_joined(a: Seq<char>, b: Seq<char>)
    requires
        a.len() == 0 || chars::is_space(a.last()),
    ensures
        words_in(a + b) == words_in(a) + words_in(b),
{
    if a.len() == 0 {
        assert(a + b =~= b);
        assert(strs::words_from(a, 0) =~= Seq::empty());
    } else {
        let d = a.drop_last();
        let c = a.last();
        assert(a =~= d.push(c));
        strs::law_words(d, c, b);
        lemma_words_before(d, c);
    }
}

proof fn lemma_words_raw(t: Seq<char>, k: int)
    requires
        0 <= k,
    ensures
        words_in(lines::line_raw(t, k)) == words_in(lines::line_text(t, k)),
{
    let w = lines::line_raw(t, k);
    if w.len() > 0 && w.last() == '\n' {
        reveal(chars::is_space);
        assert(w =~= w.drop_last().push('\n'));
        lemma_words_before(w.drop_last(), '\n');
    }
}

proof fn lemma_words_to(s: EdV, a: int, b: int)
    requires
        0 <= a <= b <= s.line_count(),
    ensures
        ({
            let t = s.buf.text;
            let x = t.subrange(lines::line_start(t, a), lines::line_start(t, b));
            &&& s.line_counts(a, b).0 == words_in(x)
            &&& a == 0 ==> s.words_to(b) == words_in(x)
        }),
    decreases b,
{
    let t = s.buf.text;
    lines::lemma_line_start(t, a);
    lines::lemma_line_start(t, b);
    let p = lines::line_start(t, a);
    let q = lines::line_start(t, b);
    lines::lemma_line_start_mono(t, a, b);
    if a == b {
        assert(t.subrange(p, q) =~= Seq::empty());
        assert(strs::words_from(Seq::empty(), 0) =~= Seq::empty());
    } else {
        lemma_words_to(s, a, b - 1);
        lines::lemma_line_raw(t, b - 1);
        let m = lines::line_start(t, b - 1);
        lines::lemma_line_start_mono(t, a, b - 1);
        let x = t.subrange(p, m);
        if x.len() > 0 {
            lines::lemma_after_break(t, b - 1);
            lemma_break_is_space(t, m - 1);
            assert(x.last() == t[m - 1]);
        }
        lemma_words_joined(x, lines::line_raw(t, b - 1));
        lemma_words_raw(t, b - 1);
        assert(x + lines::line_raw(t, b - 1) =~= t.subrange(p, q));
    }
}

/// The words of a text, counted line by line, are the words of the whole text.
pub proof fn law_wordcount(s: EdV)
    ensures
        s.wordcount() == strs::words_from(s.buf.text, 0).len(),
{
    let t = s.buf.text;
    let n = s.line_count();
    lines::lemma_line_start(t, 0);
    lines::lemma_line_start(t, n);
    lemma_words_to(s, 0, n);
    assert(t.subrange(0, t.len() as int) =~= t);
}

proof fn lemma_chars_to(s: EdV, a: int, b: int)
    requires
        0 <= a <= b < s.line_count(),
        forall|k: int|
            a < k <= b ==> s.buf.text[#[trigger] lines::line_start(s.buf.text, k) - 1] == '\n',
    ensures
        s.line_counts(a, b).1 == lines::line_start(s.buf.text, b) - lines::line_start(
            s.buf.text,
            a,
        ),
    decreases b,
{
    if a < b {
        let t = s.buf.text;
        lemma_chars_to(s, a, b - 1);
        lines::lemma_line_raw(t, b - 1);
        lines::lemma_after_break(t, b);
        lines::lemma_line_start(t, b);
        lines::lemma_line_start_mono(t, b - 1, b);
        let w = lines::line_raw(t, b - 1);
        assert(w.last() == t[lines::line_start(t, b) - 1]);
    }
}

/// The counts of a selection of whole lines, from `l1` to `l2`: as many lines,
/// the words of their text, and its characters less the last line feed.
pub proof fn law_line_selection_counted(s: EdV, l1: int, l2: int)
    requires
        s.mode is VisualLine,
        0 <= l1 <= l2,
        l2 + 1 < s.line_count(),
        (s.anchor_line == l1 && s.line == l2) || (s.anchor_line == l2 && s.line == l1),
        forall|k: int|
            l1 < k <= l2 + 1 ==> s.buf.text[#[trigger] lines::line_start(s.buf.text, k) - 1]
                == '\n',
    ensures
        ({
            let t = s.buf.text;
            let a = lines::line_start(t, l1);
            let b = lines::line_start(t, l2 + 1);
            let c = s.selection_counts();
            &&& c.lines == l2 - l1 + 1
            &&& c.words == strs::words_from(t.subrange(a, b), 0).len()
            &&& c.chars == b - a - 1
        }),
{
    lemma_words_to(s, l1, l2 + 1);
    lemma_chars_to(s, l1, l2 + 1);
}

/// The counts of a selection by character, from the character `a` to the
/// character `b`: its characters, its words, and one line more than it holds
/// line feeds.
pub proof fn law_selection_counted(s: EdV, a: int, b: int)
    requires
        selections::selects(s, a, b),
    ensures
        ({
            let x = s.buf.text.subrange(a, b + 1);
            let c = s.selection_counts();
            &&& c.chars == b - a + 1
            &&& c.words == strs::words_from(x, 0).len()
            &&& c.lines == strs::split_from(x, '\n', 0).len()
        }),
{
    let t = s.buf.text;
    let x = t.subrange(a, b + 1);
    if s.anchor == text::off(t, a) && s.cursor() == text::off(t, b) {
        edits::law_selection(s, a, b);
    } else {
        edits::law_selection(s, b, a);
    }
    text::lemma_at_off(t, a);
    text::lemma_at_off(t, b + 1);
    assert(s.selected_text() =~= x);
    lemma_feeds(x, 0);
    assert(x.skip(0) =~= x);
}

/// A text has one piece more than it has line feeds.
proof fn lemma_feeds(x: Seq<char>, a: int)
    requires
        0 <= a <= x.len(),
    ensures
        strs::split_from(x, '\n', a).len() == strs::count_of(x, '\n', x.len() as int)
            - strs::count_of(x, '\n', a) + 1,
    decreases x.len() - a,
{
    let p = strs::other_than('\n');
    text::lemma_skip_fwd(x, a, p);
    let j = text::skip_fwd(x, a, p);
    lemma_none_counted(x, a, j);
    if j < x.len() {
        lemma_feeds(x, j + 1);
    }
}

proof fn lemma_none_counted(x: Seq<char>, a: int, j: int)
    requires
        0 <= a <= j <= x.len(),
        forall|k: int| a <= k < j ==> #[trigger] strs::other_than('\n')(x[k]),
    ensures
        strs::count_of(x, '\n', j) == strs::count_of(x, '\n', a),
    decreases j - a,
{
    if a < j {
        lemma_none_counted(x, a, j - 1);
        assert(strs::other_than('\n')(x[j - 1]));
    }
}

} // verus!
