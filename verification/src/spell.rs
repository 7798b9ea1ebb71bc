//! Spelling, with the answers of a `hunspell -a` process.
//!
//! A line is sent with a caret in front. The process answers with one line
//! per word and a blank line at the end:
//!
//! - `*`, `+ STEM` and `-` for a word it knows;
//! - `# WORD COLUMN` for one it does not, without suggestions;
//! - `& WORD COUNT COLUMN: s1, s2, ...` with suggestions.
//!
//! Columns count characters from 1. Words of the personal dictionary are
//! passed over, in whatever case.

use vstd::prelude::*;
use vstd::string::*;
use crate::chars;
use crate::chars::is_blank;
use crate::fold;
use crate::motion;
use crate::strs;
use crate::strs::{cat2, drop_empty, find_chars, join, parse_number, split_text, split_words,
    starts_with};
use crate::text;
use crate::text::{byte_len, chars_of, offset_of, piece, same};

verus! {

/// A misspelt word: its byte range in the text and what to put instead.
pub struct MisspellRange {
    pub start: usize,
    pub end: usize,
    pub word: String,
    pub suggestions: Vec<String>,
}

/// Model of a [`MisspellRange`].
#[verifier::ext_equal]
pub struct MisspellV {
    pub start: int,
    pub end: int,
    pub word: Seq<char>,
    pub suggestions: Seq<Seq<char>>,
}

impl View for MisspellRange {
    type V = MisspellV;

    open spec fn view(&self) -> MisspellV {
        MisspellV {
            start: self.start as int,
            end: self.end as int,
            word: self.word@,
            suggestions: fold::views(self.suggestions@),
        }
    }
}

pub open spec fn missp_view(m: Seq<MisspellRange>) -> Seq<MisspellV> {
    Seq::new(m.len(), |i: int| m[i]@)
}

/// Word and column of a `#` line.
pub open spec fn hash_reply(l: Seq<char>) -> Option<(Seq<char>, int)> {
    if !strs::prefixed(l, "# "@) {
        None
    } else {
        let rest = l.skip(2);
        match motion::find_back(rest, rest.len() as int, ' ') {
            None => None,
            Some(i) => match strs::plus_number(rest.skip(i + 1), usize::MAX as int) {
                None => None,
                Some(c) => Some((rest.take(i), c)),
            },
        }
    }
}

/// Word, column and suggestions of a `&` line.
pub open spec fn amp_reply(l: Seq<char>) -> Option<(Seq<char>, int, Seq<Seq<char>>)> {
    if !strs::prefixed(l, "& "@) {
        None
    } else {
        let rest = l.skip(2);
        let (head, tail) = match strs::find_from(rest, ": "@, 0) {
            Some(i) => (rest.take(i), rest.skip(i + 2)),
            None => (rest, Seq::empty()),
        };
        let ws = strs::words_from(head, 0);
        let n = ws.len() as int;
        let ss = strs::split_text_from(tail, ", "@, 0);
        if n < 3 {
            None
        } else {
            match (
                strs::plus_number(ws[n - 1], usize::MAX as int),
                strs::plus_number(ws[n - 2], usize::MAX as int),
            ) {
                (Some(c), Some(_)) => Some(
                    (
                        strs::joined(ws.take(n - 2), " "@),
                        c,
                        strs::nonempty(ss, ss.len() as int),
                    ),
                ),
                _ => None,
            }
        }
    }
}

/// Byte offset of the character in column `col`, counted from 1; the length
/// of the line past its end.
pub open spec fn col_byte(l: Seq<char>, col: int) -> int {
    let i = if col > 0 {
        col - 1
    } else {
        0
    };
    text::off(
        l,
        if i <= l.len() {
            i
        } else {
            l.len() as int
        },
    )
}

pub open spec fn sat(n: int) -> int {
    crate::cols::sat(n)
}

/// A reply line without its line ending.
pub open spec fn reply_text(l: Seq<char>) -> Seq<char> {
    l.take(text::skip_back(l, l.len() as int, |c: char| c == '\n' || c == '\r'))
}

pub open spec fn found(
    word: Seq<char>,
    col: int,
    ss: Seq<Seq<char>>,
    line: Seq<char>,
    base: int,
) -> MisspellV {
    let start = sat(base + col_byte(line, col));
    MisspellV { start, end: sat(start + text::blen(word)), word, suggestions: ss }
}

/// The misspelling that a reply line reports.
pub open spec fn reported(
    r: Seq<char>,
    line: Seq<char>,
    base: int,
    personal: Set<Seq<char>>,
) -> Option<MisspellV> {
    if r.len() > 0 && r[0] == '#' {
        match hash_reply(r) {
            Some((w, c)) => if personal.contains(chars::lower_of(w)) {
                None
            } else {
                Some(found(w, c, Seq::empty(), line, base))
            },
            None => None,
        }
    } else if r.len() > 0 && r[0] == '&' {
        match amp_reply(r) {
            Some((w, c, ss)) => if personal.contains(chars::lower_of(w)) {
                None
            } else {
                Some(found(w, c, ss, line, base))
            },
            None => None,
        }
    } else {
        None
    }
}

/// The misspellings that the reply lines from index `i` on report, up to the
/// first blank one.
pub open spec fn all_reported(
    rs: Seq<Seq<char>>,
    line: Seq<char>,
    base: int,
    personal: Set<Seq<char>>,
    i: int,
) -> Seq<MisspellV>
    decreases rs.len() - i,
{
    if i < 0 || i >= rs.len() || reply_text(rs[i]).len() == 0 {
        Seq::empty()
    } else {
        match reported(reply_text(rs[i]), line, base, personal) {
            Some(m) => seq![m] + all_reported(rs, line, base, personal, i + 1),
            None => all_reported(rs, line, base, personal, i + 1),
        }
    }
}

/// Parses a `#` line: the word and its column.
pub fn parse_hash(line: &str) -> (r: Option<(String, usize)>)
    ensures
        (match r {
            Some((w, c)) => Some((w@, c as int)),
            None => None,
        }) == hash_reply(line@),
{
    proof {
        reveal_strlit("# ");
    }
    if !starts_with(line, "# ") {
        return None;
    }
    let v: Vec<char> = chars_of(line);
    let ghost rest = line@.skip(2);
    let mut i: usize = v.len();
    while i > 2 && v[i - 1] != ' '
        invariant
            2 <= i <= v.len(),
            v@ == line@,
            rest == line@.skip(2),
            motion::find_back(rest, rest.len() as int, ' ') == motion::find_back(
                rest,
                i - 2,
                ' ',
            ),
        decreases i,
    {
        assert(rest[i - 3] == v@[i - 1]);
        i -= 1;
    }
    if i == 2 {
        return None;
    }
    assert(rest[i - 3] == v@[i - 1]);
    let tail: String = piece(&v, i, v.len());
    assert(tail@ =~= rest.skip(i - 2));
    match parse_number(&tail, usize::MAX as u64) {
        None => None,
        Some(c) => {
            let w: String = piece(&v, 2, i - 1);
            assert(w@ =~= rest.take(i - 3));
            Some((w, c as usize))
        },
    }
}

/// Parses a `&` line: the word, its column and the suggestions.
pub fn parse_amp(line: &str) -> (r: Option<(String, usize, Vec<String>)>)
    ensures
        (match r {
            Some((w, c, ss)) => Some((w@, c as int, fold::views(ss@))),
            None => None,
        }) == amp_reply(line@),
{
    proof {
        reveal_strlit("& ");
        reveal_strlit(": ");
        reveal_strlit(", ");
    }
    if !starts_with(line, "& ") {
        return None;
    }
    let all: Vec<char> = chars_of(line);
    let rest: String = piece(&all, 2, all.len());
    assert(rest@ =~= line@.skip(2));
    let v: Vec<char> = chars_of(&rest);
    let colon: Vec<char> = chars_of(": ");
    let (head, tail) = match find_chars(&v, &colon, 0) {
        Some(i) => {
            let h: String = piece(&v, 0, i);
            let t: String = piece(&v, i + 2, v.len());
            assert(h@ =~= rest@.take(i as int));
            assert(t@ =~= rest@.skip(i + 2));
            (h, t)
        },
        None => (rest, String::new()),
    };
    let mut words: Vec<String> = split_words(&head);
    let ghost ws = fold::views(words@);
    let n: usize = words.len();
    if n < 3 {
        return None;
    }
    assert(ws[n - 1] == words@[n - 1]@);
    assert(ws[n - 2] == words@[n - 2]@);
    let col = match parse_number(&words[n - 1], usize::MAX as u64) {
        None => {
            return None;
        },
        Some(c) => c,
    };
    if parse_number(&words[n - 2], usize::MAX as u64).is_none() {
        return None;
    }
    words.truncate(n - 2);
    assert(fold::views(words@) =~= ws.take(n - 2));
    let w: String = join(&words, " ");
    let ss: Vec<String> = drop_empty(&split_text(&tail, ", "));
    Some((w, col as usize, ss))
}

/// Byte offset of the character in a column, counted from 1.
pub fn col_to_byte(line: &str, col_1based: usize) -> (b: usize)
    ensures
        b == col_byte(line@, col_1based as int),
{
    let v: Vec<char> = chars_of(line);
    let i: usize = if col_1based > 0 {
        col_1based - 1
    } else {
        0
    };
    offset_of(
        &v,
        if i <= v.len() {
            i
        } else {
            v.len()
        },
    )
}

/// The personal dictionary.
pub struct Spell {
    /// Words in lower case.
    pub personal: Vec<String>,
}

impl View for Spell {
    type V = Set<Seq<char>>;

    open spec fn view(&self) -> Set<Seq<char>> {
        Set::new(
            |w: Seq<char>| exists|i: int| 0 <= i < self.personal@.len() && #[trigger] self.personal@[i]@ == w,
        )
    }
}

/// The words in lower case.
pub open spec fn lowered(ws: Seq<Seq<char>>) -> Set<Seq<char>> {
    Set::new(
        |w: Seq<char>| exists|i: int| 0 <= i < ws.len() && chars::lower_of(#[trigger] ws[i]) == w,
    )
}

impl Spell {
    pub fn new() -> (s: Spell)
        ensures
            s@ == Set::<Seq<char>>::empty(),
    {
        let s = Spell { personal: Vec::new() };
        assert(s@ =~= Set::empty());
        s
    }

    /// Adds a word to the personal dictionary.
    pub fn add_personal(&mut self, word: &str)
        ensures
            final(self)@ == old(self)@.insert(chars::lower_of(word@)),
    {
        let ghost before = self.personal@;
        let w: String = word.to_lowercase();
        self.personal.push(w);
        proof {
            let old_set = old(self)@;
            assert forall|x: Seq<char>| self@.contains(x) == old_set.insert(w@).contains(x) by {
                if old_set.contains(x) {
                    let i = choose|i: int| 0 <= i < before.len() && #[trigger] before[i]@ == x;
                    assert(self.personal@[i]@ == x);
                }
                if x == w@ {
                    assert(self.personal@[before.len() as int]@ == x);
                }
                if self@.contains(x) {
                    let i = choose|i: int|
                        0 <= i < self.personal@.len() && #[trigger] self.personal@[i]@ == x;
                    if i < before.len() {
                        assert(before[i]@ == x);
                    }
                }
            }
            assert(self@ =~= old_set.insert(w@));
        }
    }

    /// Adds a list of words to the personal dictionary.
    pub fn load_personal(&mut self, words: &Vec<String>)
        ensures
            final(self)@ == old(self)@.union(lowered(fold::views(words@))),
    {
        let ghost before = self@;
        let ghost ws = fold::views(words@);
        let mut i: usize = 0;
        assert(lowered(ws.take(0)) =~= Set::empty());
        assert(before.union(Set::empty()) =~= before);
        while i < words.len()
            invariant
                i <= words.len(),
                ws == fold::views(words@),
                self@ == before.union(lowered(ws.take(i as int))),
            decreases words.len() - i,
        {
            self.add_personal(&words[i]);
            proof {
                let a = lowered(ws.take(i as int));
                let b = lowered(ws.take(i + 1));
                let w = chars::lower_of(ws[i as int]);
                assert forall|x: Seq<char>| b.contains(x) == a.insert(w).contains(x) by {
                    if a.contains(x) {
                        let k = choose|k: int|
                            0 <= k < i && chars::lower_of(#[trigger] ws.take(i as int)[k]) == x;
                        assert(chars::lower_of(ws.take(i + 1)[k]) == x);
                    }
                    if x == w {
                        assert(chars::lower_of(ws.take(i + 1)[i as int]) == x);
                    }
                    if b.contains(x) {
                        let k = choose|k: int|
                            0 <= k < i + 1 && chars::lower_of(#[trigger] ws.take(i + 1)[k]) == x;
                        if k < i {
                            assert(chars::lower_of(ws.take(i as int)[k]) == x);
                        }
                    }
                }
                assert(b =~= a.insert(w));
                assert(before.union(a).insert(w) =~= before.union(b));
            }
            i += 1;
        }
        assert(ws.take(i as int) =~= ws);
    }

    /// Whether the personal dictionary holds a word, in whatever case.
    pub fn knows(&self, word: &str) -> (r: bool)
        ensures
            r == self@.contains(chars::lower_of(word@)),
    {
        let w: String = word.to_lowercase();
        let mut i: usize = 0;
        while i < self.personal.len()
            invariant
                i <= self.personal.len(),
                w@ == chars::lower_of(word@),
                forall|k: int| 0 <= k < i ==> (#[trigger] self.personal@[k])@ != w@,
            decreases self.personal.len() - i,
        {
            if same(&self.personal[i], &w) {
                assert(self.personal@[i as int]@ == w@);
                return true;
            }
            i += 1;
        }
        false
    }

    fn read_reply(&self, r: &str, line: &str, base: usize) -> (m: Option<MisspellRange>)
        ensures
            (match m {
                Some(x) => Some(x@),
                None => None,
            }) == reported(r@, line@, base as int, self@),
    {
        let v: Vec<char> = chars_of(r);
        if v.len() == 0 {
            return None;
        }
        if v[0] == '#' {
            match parse_hash(r) {
                None => None,
                Some((word, col)) => {
                    if self.knows(&word) {
                        return None;
                    }
                    let start: usize = base.saturating_add(col_to_byte(line, col));
                    let end: usize = start.saturating_add(byte_len(&word));
                    let suggestions: Vec<String> = Vec::new();
                    assert(fold::views(suggestions@) =~= Seq::empty());
                    Some(MisspellRange { start, end, word, suggestions })
                },
            }
        } else if v[0] == '&' {
            match parse_amp(r) {
                None => None,
                Some((word, col, suggestions)) => {
                    if self.knows(&word) {
                        return None;
                    }
                    let start: usize = base.saturating_add(col_to_byte(line, col));
                    let end: usize = start.saturating_add(byte_len(&word));
                    Some(MisspellRange { start, end, word, suggestions })
                },
            }
        } else {
            None
        }
    }

    /// The misspellings of a line that starts at byte `base_byte`, from the
    /// answers to it.
    pub fn check_line(&self, line: &str, base_byte: usize, replies: &Vec<String>) -> (out: Vec<
        MisspellRange,
    >)
        ensures
            missp_view(out@) == (if chars::blank(line@) {
                Seq::empty()
            } else {
                all_reported(fold::views(replies@), line@, base_byte as int, self@, 0)
            }),
    {
        let mut out: Vec<MisspellRange> = Vec::new();
        assert(missp_view(out@) =~= Seq::empty());
        if is_blank(line) {
            return out;
        }
        let ghost rs = fold::views(replies@);
        let ghost goal = all_reported(rs, line@, base_byte as int, self@, 0);
        let mut i: usize = 0;
        assert(missp_view(out@) + goal =~= goal);
        while i < replies.len()
            invariant
                i <= replies.len(),
                rs == fold::views(replies@),
                !chars::blank(line@),
                goal == all_reported(rs, line@, base_byte as int, self@, 0),
                goal == missp_view(out@) + all_reported(
                    rs,
                    line@,
                    base_byte as int,
                    self@,
                    i as int,
                ),
            decreases replies.len() - i,
        {
            assert(rs[i as int] == replies@[i as int]@);
            let ghost before = missp_view(out@);
            let v: Vec<char> = chars_of(&replies[i]);
            let mut n: usize = v.len();
            let ghost p = |c: char| c == '\n' || c == '\r';
            while n > 0 && (v[n - 1] == '\n' || v[n - 1] == '\r')
                invariant
                    n <= v.len(),
                    p == (|c: char| c == '\n' || c == '\r'),
                    text::skip_back(v@, v@.len() as int, p) == text::skip_back(v@, n as int, p),
                decreases n,
            {
                n -= 1;
            }
            let r: String = piece(&v, 0, n);
            assert(r@ =~= reply_text(rs[i as int]));
            if n == 0 {
                assert(before + Seq::<MisspellV>::empty() =~= before);
                return out;
            }
            if let Some(m) = self.read_reply(&r, line, base_byte) {
                let ghost mv = m@;
                let ghost o = out@;
                out.push(m);
                assert(missp_view(out@) =~= before.push(mv));
                assert(before + (seq![mv] + all_reported(
                    rs,
                    line@,
                    base_byte as int,
                    self@,
                    i + 1,
                )) =~= missp_view(out@) + all_reported(
                    rs,
                    line@,
                    base_byte as int,
                    self@,
                    i + 1,
                ));
            }
            i += 1;
        }
        assert(missp_view(out@) + Seq::<MisspellV>::empty() =~= missp_view(out@));
        out
    }

    /// The misspellings of several lines, from the answers to each.
    pub fn check_lines(&self, lines: &Vec<(String, usize)>, replies: &Vec<Vec<String>>) -> (out:
        Vec<MisspellRange>)
        requires
            lines@.len() == replies@.len(),
        ensures
            missp_view(out@) == all_lines_reported(lines@, replies@, self@, lines@.len() as int),
    {
        let mut out: Vec<MisspellRange> = Vec::new();
        let mut i: usize = 0;
        assert(missp_view(out@) =~= Seq::empty());
        while i < lines.len()
            invariant
                i <= lines.len(),
                lines@.len() == replies@.len(),
                missp_view(out@) == all_lines_reported(lines@, replies@, self@, i as int),
            decreases lines.len() - i,
        {
            let mut more: Vec<MisspellRange> = self.check_line(
                &lines[i].0,
                lines[i].1,
                &replies[i],
            );
            let ghost a = missp_view(out@);
            let ghost b = missp_view(more@);
            out.append(&mut more);
            assert(missp_view(out@) =~= a + b);
            i += 1;
        }
        out
    }
}

/// The misspellings of the first `n` lines.
pub open spec fn all_lines_reported(
    lines: Seq<(String, usize)>,
    replies: Seq<Vec<String>>,
    personal: Set<Seq<char>>,
    n: int,
) -> Seq<MisspellV>
    decreases n,
{
    if n <= 0 {
        Seq::empty()
    } else {
        let l = lines[n - 1].0@;
        all_lines_reported(lines, replies, personal, n - 1) + if chars::blank(l) {
            Seq::empty()
        } else {
            all_reported(
                fold::views(replies[n - 1]@),
                l,
                lines[n - 1].1 as int,
                personal,
                0,
            )
        }
    }
}

/// What to send for a line: the line with a caret in front, so that none of
/// it is taken for a command. Blank lines are not sent.
pub fn query(line: &str) -> (r: Option<String>)
    ensures
        (match r {
            Some(s) => Some(s@),
            None => None,
        }) == (if chars::blank(line@) {
            None
        } else {
            Some("^"@ + line@)
        }),
{
    if is_blank(line) {
        None
    } else {
        Some(cat2("^", line))
    }
}

proof fn lemma_last_space(w: Seq<char>, d: Seq<char>, i: int)
    requires
        strs::all_digits(d),
        w.len() < i <= w.len() + 1 + d.len(),
    ensures
        motion::find_back(w + seq![' '] + d, i, ' ') == Some(w.len() as int),
    decreases i,
{
    let s = w + seq![' '] + d;
    if i > w.len() + 1 {
        assert(s[i - 1] == d[i - 2 - w.len()]);
        assert(chars::is_digit(d[i - 2 - w.len()]));
        lemma_last_space(w, d, i - 1);
    } else {
        assert(s[i - 1] == ' ');
    }
}

/// A `#` line tells the word, whatever it is, and the column behind it.
pub proof fn law_word_reported(w: Seq<char>, n: int)
    requires
        0 <= n <= usize::MAX,
    ensures
        hash_reply("# "@ + w + seq![' '] + strs::dec_of(n)) == Some((w, n)),
{
    let d = strs::dec_of(n);
    let l = "# "@ + w + seq![' '] + d;
    reveal_strlit("# ");
    assert("# "@.len() == 2);
    assert(l.take(2) =~= "# "@);
    let rest = l.skip(2);
    assert(rest =~= w + seq![' '] + d);
    strs::lemma_dec_value(n);
    lemma_last_space(w, d, rest.len() as int);
    assert(rest.take(w.len() as int) =~= w);
    assert(rest.skip(w.len() + 1int) =~= d);
    strs::law_decimal(n, usize::MAX as int);
    assert(chars::is_digit(d[0]));
}

/// A word that is reported at the column of the character `i` of a line, counted
/// from 1, is marked from that character on, as far as the word is long, unless
/// it is one of the user's own words in whatever case.
pub proof fn law_marked(w: Seq<char>, line: Seq<char>, i: int, base: int, personal: Set<Seq<char>>)
    requires
        0 <= i < line.len(),
        i + 1 <= usize::MAX,
        0 <= base,
        base + text::blen(line) + text::blen(w) <= usize::MAX,
    ensures
        ({
            let r = reported(
                "# "@ + w + seq![' '] + strs::dec_of(i + 1),
                line,
                base,
                personal,
            );
            &&& personal.contains(chars::lower_of(w)) ==> r is None
            &&& !personal.contains(chars::lower_of(w)) ==> r is Some && r->0.word == w
                && r->0.start == base + text::off(line, i) && r->0.end == r->0.start + text::blen(w)
        }),
{
    law_word_reported(w, i + 1);
    reveal_strlit("# ");
    let l = "# "@ + w + seq![' '] + strs::dec_of(i + 1);
    assert("# "@[0] == '#');
    assert(l[0] == '#');
    text::lemma_off_mono(line, i, line.len() as int);
    text::lemma_off_mono(line, 0, i);
    text::lemma_off_mono(w, 0, w.len() as int);
}

/// Replies are taken in their order, one misspelling each at most, as far as
/// the first blank one.
pub proof fn law_replies_in_order(
    a: Seq<Seq<char>>,
    b: Seq<Seq<char>>,
    line: Seq<char>,
    base: int,
    personal: Set<Seq<char>>,
    i: int,
)
    requires
        0 <= i <= a.len(),
    ensures
        (forall|k: int| i <= k < a.len() ==> reply_text(#[trigger] a[k]).len() > 0)
            ==> all_reported(a + b, line, base, personal, i) == all_reported(
            a,
            line,
            base,
            personal,
            i,
        ) + all_reported(b, line, base, personal, 0),
        i < a.len() && reply_text(a[i]).len() == 0 ==> all_reported(
            a + b,
            line,
            base,
            personal,
            i,
        ).len() == 0,
        all_reported(a, line, base, personal, i).len() <= a.len() - i,
    decreases a.len() - i,
{
    let s = a + b;
    if i < a.len() {
        assert(s[i] == a[i]);
        law_replies_in_order(a, b, line, base, personal, i + 1);
        let x = all_reported(a, line, base, personal, i + 1);
        let y = all_reported(b, line, base, personal, 0);
        if let Some(m) = reported(reply_text(a[i]), line, base, personal) {
            assert(seq![m] + (x + y) =~= (seq![m] + x) + y);
        }
    } else {
        lemma_reported_shift(a, b, line, base, personal, 0);
        assert(Seq::<MisspellV>::empty() + all_reported(b, line, base, personal, 0)
            =~= all_reported(b, line, base, personal, 0));
    }
}

proof fn lemma_reported_shift(
    a: Seq<Seq<char>>,
    b: Seq<Seq<char>>,
    line: Seq<char>,
    base: int,
    personal: Set<Seq<char>>,
    i: int,
)
    requires
        0 <= i <= b.len(),
    ensures
        all_reported(a + b, line, base, personal, a.len() + i) == all_reported(
            b,
            line,
            base,
            personal,
            i,
        ),
    decreases b.len() - i,
{
    if i < b.len() {
        assert((a + b)[a.len() + i] == b[i]);
        lemma_reported_shift(a, b, line, base, personal, i + 1);
    }
}

} // verus!
