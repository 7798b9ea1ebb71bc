//! Laying out text: filling paragraphs, quote levels, shifting lines.

use vstd::prelude::*;
use vstd::string::*;
use crate::buffer::FileKind;
use crate::chars;
use crate::chars::is_blank;
use crate::fold;
use crate::motion;
use crate::strs;
use crate::strs::{cat2, cat3, next_char, split, split_words, starts_with};
use crate::text;
use crate::text::{chars_of, piece, same};

verus! {

// ── Filling ─────────────────────────────────────────────────────────────

/// Lines that the words from index `i` on fill, after what already stands on
/// the current line. A word that is too long gets a line of its own.
pub open spec fn fill(
    ws: Seq<Seq<char>>,
    width: int,
    i: int,
    cur: Seq<char>,
) -> Seq<Seq<char>>
    decreases ws.len() - i,
{
    if i < 0 || i >= ws.len() {
        if cur.len() > 0 {
            seq![cur]
        } else {
            Seq::empty()
        }
    } else if cur.len() == 0 {
        fill(ws, width, i + 1, ws[i])
    } else if cur.len() + 1 + ws[i].len() <= width {
        fill(ws, width, i + 1, cur + " "@ + ws[i])
    } else {
        seq![cur] + fill(ws, width, i + 1, ws[i])
    }
}

proof fn lemma_fill_words(ws: Seq<Seq<char>>, width: int, i: int, cur: Seq<char>)
    requires
        0 <= i <= ws.len(),
        cur.len() > 0,
        forall|k: int| 0 <= k < ws.len() ==> (#[trigger] ws[k]).len() > 0,
    ensures
        fill(ws, width, i, cur).len() > 0,
        strs::joined(fill(ws, width, i, cur), " "@) == strs::joined(seq![cur] + ws.skip(i), " "@),
    decreases ws.len() - i,
{
    let sp = " "@;
    let all = seq![cur] + ws.skip(i);
    if i == ws.len() {
        assert(all =~= seq![cur]);
    } else {
        let w = ws[i];
        strs::lemma_joined_front(all, sp);
        assert(all.skip(1) =~= seq![w] + ws.skip(i + 1));
        if cur.len() + 1 + w.len() <= width {
            let more = cur + sp + w;
            lemma_fill_words(ws, width, i + 1, more);
            let left = seq![more] + ws.skip(i + 1);
            if i + 1 == ws.len() {
                assert(left =~= seq![more]);
                assert(all.skip(1) =~= seq![w]);
            } else {
                strs::lemma_joined_front(left, sp);
                strs::lemma_joined_front(all.skip(1), sp);
                assert(left.skip(1) =~= ws.skip(i + 1));
                assert(all.skip(1).skip(1) =~= ws.skip(i + 1));
            }
            assert(strs::joined(left, sp) =~= strs::joined(all, sp));
        } else {
            lemma_fill_words(ws, width, i + 1, w);
            let rest = fill(ws, width, i + 1, w);
            let out = seq![cur] + rest;
            strs::lemma_joined_front(out, sp);
            assert(out.skip(1) =~= rest);
        }
    }
}

/// Filling keeps the words and their order: with spaces for the line ends the
/// text is the same.
pub proof fn law_fill_keeps_words(ws: Seq<Seq<char>>, width: int)
    requires
        forall|k: int| 0 <= k < ws.len() ==> (#[trigger] ws[k]).len() > 0,
    ensures
        strs::joined(fill(ws, width, 0, Seq::empty()), " "@) == strs::joined(ws, " "@),
{
    if ws.len() > 0 {
        lemma_fill_words(ws, width, 1, ws[0]);
        assert(seq![ws[0]] + ws.skip(1) =~= ws);
    } else {
        assert(ws =~= Seq::empty());
    }
}

proof fn lemma_filled(ws: Seq<Seq<char>>, width: int, i: int, cur: Seq<char>)
    requires
        0 <= i <= ws.len(),
        cur.len() <= width || ws.contains(cur),
    ensures
        forall|k: int|
            0 <= k < fill(ws, width, i, cur).len() ==> (#[trigger] fill(ws, width, i, cur)[k]).len()
                <= width || ws.contains(fill(ws, width, i, cur)[k]),
    decreases ws.len() - i,
{
    if i < ws.len() {
        let w = ws[i];
        assert(ws.contains(w));
        if cur.len() == 0 {
            lemma_filled(ws, width, i + 1, w);
            assert(fill(ws, width, i, cur) == fill(ws, width, i + 1, w));
        } else if cur.len() + 1 + w.len() <= width {
            reveal_strlit(" ");
            lemma_filled(ws, width, i + 1, cur + " "@ + w);
            assert(fill(ws, width, i, cur) == fill(ws, width, i + 1, cur + " "@ + w));
        } else {
            lemma_filled(ws, width, i + 1, w);
            let rest = fill(ws, width, i + 1, w);
            let out = fill(ws, width, i, cur);
            assert forall|k: int| 0 <= k < out.len() implies (#[trigger] out[k]).len() <= width
                || ws.contains(out[k]) by {
                if k > 0 {
                    assert(out[k] == rest[k - 1]);
                }
            }
        }
    }
}

/// A line that filling makes is no longer than the width, unless a single word
/// is.
pub proof fn law_filled_lines_fit(ws: Seq<Seq<char>>, width: int)
    requires
        0 <= width,
    ensures
        ({
            let out = fill(ws, width, 0, Seq::empty());
            forall|k: int|
                0 <= k < out.len() ==> (#[trigger] out[k]).len() <= width || ws.contains(out[k])
        }),
{
    lemma_filled(ws, width, 0, Seq::empty());
}

/// Fills lines of at most `width` characters with words.
pub fn fill_words(words: &Vec<String>, width: usize) -> (out: Vec<String>)
    ensures
        fold::views(out@) == fill(fold::views(words@), width as int, 0, Seq::empty()),
{
    let ghost ws = fold::views(words@);
    let ghost goal = fill(ws, width as int, 0, Seq::empty());
    let mut out: Vec<String> = Vec::new();
    let mut cur: String = String::new();
    let mut i: usize = 0;
    assert(fold::views(out@) + goal =~= goal);
    while i < words.len()
        invariant
            i <= words.len(),
            ws == fold::views(words@),
            fold::views(out@) + fill(ws, width as int, i as int, cur@) == goal,
        decreases words.len() - i,
    {
        assert(ws[i as int] == words@[i as int]@);
        let n: usize = chars_of(&cur).len();
        let w: usize = chars_of(&words[i]).len();
        let ghost before = fold::views(out@);
        if n == 0 {
            cur = words[i].clone();
        } else if n < width && w <= width - n - 1 {
            cur = cat3(&cur, " ", &words[i]);
        } else {
            let ghost was = cur@;
            let mut line: String = words[i].clone();
            std::mem::swap(&mut line, &mut cur);
            proof {
                strs::lemma_views_push(out@, line);
            }
            out.push(line);
            assert(before + (seq![was] + fill(ws, width as int, i + 1, cur@)) =~= fold::views(out@)
                + fill(ws, width as int, i + 1, cur@));
        }
        i += 1;
    }
    let ghost before = fold::views(out@);
    let ghost last = cur@;
    if chars_of(&cur).len() > 0 {
        proof {
            strs::lemma_views_push(out@, cur);
        }
        out.push(cur);
        assert(before + seq![last] =~= fold::views(out@));
    } else {
        assert(before + Seq::<Seq<char>>::empty() =~= before);
    }
    out
}

/// Wrapped lines of the paragraphs from index `i` on; a blank one is an empty
/// line.
pub open spec fn wrapped(ps: Seq<Seq<char>>, width: int, i: int) -> Seq<Seq<char>>
    decreases ps.len() - i,
{
    if i < 0 || i >= ps.len() {
        Seq::empty()
    } else if chars::blank(ps[i]) {
        seq![Seq::<char>::empty()] + wrapped(ps, width, i + 1)
    } else {
        fill(strs::words_from(ps[i], 0), width, 0, Seq::empty()) + wrapped(ps, width, i + 1)
    }
}

/// Wraps every line of a text to `width` columns, and to no fewer than 8.
pub fn wrap_to_width(s: &str, width: usize) -> (out: Vec<String>)
    ensures
        fold::views(out@) == wrapped(
            strs::split_from(s@, '\n', 0),
            if width < 8 {
                8
            } else {
                width as int
            },
            0,
        ),
{
    let w: usize = if width < 8 {
        8
    } else {
        width
    };
    let ps: Vec<String> = split(s, '\n');
    let ghost pv = fold::views(ps@);
    let mut out: Vec<String> = Vec::new();
    let mut i: usize = 0;
    assert(fold::views(out@) + wrapped(pv, w as int, 0) =~= wrapped(pv, w as int, 0));
    while i < ps.len()
        invariant
            i <= ps.len(),
            pv == fold::views(ps@),
            fold::views(out@) + wrapped(pv, w as int, i as int) == wrapped(pv, w as int, 0),
        decreases ps.len() - i,
    {
        assert(pv[i as int] == ps@[i as int]@);
        let ghost before = fold::views(out@);
        let ghost tail = wrapped(pv, w as int, i + 1);
        if is_blank(&ps[i]) {
            let e: String = String::new();
            proof {
                strs::lemma_views_push(out@, e);
            }
            out.push(e);
            assert(before + (seq![Seq::<char>::empty()] + tail) =~= fold::views(out@) + tail);
        } else {
            let words: Vec<String> = split_words(&ps[i]);
            let mut lines: Vec<String> = fill_words(&words, w);
            let ghost lv = fold::views(lines@);
            let ghost o = out@;
            let ghost l = lines@;
            out.append(&mut lines);
            assert(fold::views(out@) =~= before + lv);
            assert(before + (lv + tail) =~= fold::views(out@) + tail);
        }
        i += 1;
    }
    assert(fold::views(out@) + wrapped(pv, w as int, i as int) =~= fold::views(out@));
    out
}

// ── Quotes ──────────────────────────────────────────────────────────────

pub open spec fn quote_fn() -> spec_fn(char) -> bool {
    |c: char| c == '>' || c == ' ' || c == '\t'
}

/// Length of the quote marks at the start of a line: up to the last `>` of
/// the leading run, and one space after it.
pub open spec fn quote_len(l: Seq<char>) -> int {
    match motion::find_back(l, text::skip_fwd(l, 0, quote_fn()), '>') {
        None => 0,
        Some(i) => if i + 1 < l.len() && l[i + 1] == ' ' {
            i + 2
        } else {
            i + 1
        },
    }
}

pub open spec fn quote_marks(l: Seq<char>) -> Seq<char> {
    l.take(quote_len(l))
}

pub open spec fn quote_body(l: Seq<char>) -> Seq<char> {
    l.skip(quote_len(l))
}

/// The quote marks at the start of a line, and the rest of the line.
pub fn split_quote_prefix(line: &str) -> (r: (String, String))
    ensures
        r.0@ == quote_marks(line@),
        r.1@ == quote_body(line@),
        0 <= quote_len(line@) <= line@.len(),
{
    let v: Vec<char> = chars_of(line);
    let mut i: usize = 0;
    let mut last: Option<usize> = None;
    while i < v.len() && (v[i] == '>' || v[i] == ' ' || v[i] == '\t')
        invariant
            i <= v.len(),
            v@ == line@,
            text::skip_fwd(line@, 0, quote_fn()) == text::skip_fwd(line@, i as int, quote_fn()),
            crate::buffer::int_opt(last) == motion::find_back(line@, i as int, '>'),
            last matches Some(k) ==> k < i,
        decreases v.len() - i,
    {
        if v[i] == '>' {
            last = Some(i);
        }
        i += 1;
    }
    let n: usize = match last {
        None => 0,
        Some(k) => if k + 1 < v.len() && v[k + 1] == ' ' {
            k + 2
        } else {
            k + 1
        },
    };
    let a: String = piece(&v, 0, n);
    let b: String = piece(&v, n, v.len());
    assert(a@ =~= quote_marks(line@));
    assert(b@ =~= quote_body(line@));
    (a, b)
}

/// First line at or after `j` that does not belong to the paragraph with the
/// quote marks `p`.
pub open spec fn para_end(ls: Seq<Seq<char>>, p: Seq<char>, j: int) -> int
    decreases ls.len() - j,
{
    if j < 0 || j >= ls.len() || chars::blank(ls[j]) || quote_marks(ls[j]) != p {
        j
    } else {
        para_end(ls, p, j + 1)
    }
}

/// The words of the lines `i..j`, without their quote marks.
pub open spec fn para_words(ls: Seq<Seq<char>>, i: int, j: int) -> Seq<Seq<char>>
    decreases j - i,
{
    if j <= i {
        Seq::empty()
    } else {
        para_words(ls, i, j - 1) + strs::words_from(quote_body(ls[j - 1]), 0)
    }
}

/// The lines, each after `p` and with a line feed.
pub open spec fn with_marks(ls: Seq<Seq<char>>, p: Seq<char>, n: int) -> Seq<char>
    decreases n,
{
    if n <= 0 {
        Seq::empty()
    } else {
        with_marks(ls, p, n - 1) + p + ls[n - 1] + "\n"@
    }
}

pub open spec fn body_width(width: int, p: Seq<char>) -> int {
    if width - p.len() > 20 {
        width - p.len()
    } else {
        20
    }
}

pub open spec fn filled_para(ws: Seq<Seq<char>>, p: Seq<char>, width: int) -> Seq<char> {
    let ls = fill(ws, body_width(width, p), 0, Seq::empty());
    with_marks(ls, p, ls.len() as int)
}

/// The lines from index `i` on with every paragraph filled. A paragraph is a
/// run of lines that are not blank and carry the same quote marks; blank
/// lines stay as they are.
pub open spec fn refilled(ls: Seq<Seq<char>>, width: int, i: int) -> Seq<char>
    decreases ls.len() - i,
{
    if i < 0 || i >= ls.len() {
        Seq::empty()
    } else if chars::blank(ls[i]) {
        ls[i] + "\n"@ + refilled(ls, width, i + 1)
    } else {
        let p = quote_marks(ls[i]);
        let j = para_end(ls, p, i);
        if j <= i || j > ls.len() {
            Seq::empty()
        } else {
            filled_para(para_words(ls, i, j), p, width) + refilled(ls, width, j)
        }
    }
}

pub open spec fn reformatted(t: Seq<char>, width: int) -> Seq<char> {
    let nl = t.len() > 0 && t.last() == '\n';
    let body = if nl {
        t.drop_last()
    } else {
        t
    };
    let out = refilled(strs::split_from(body, '\n', 0), width, 0);
    if !nl && out.len() > 0 && out.last() == '\n' {
        out.drop_last()
    } else {
        out
    }
}

fn marked_lines(ls: &Vec<String>, p: &str) -> (s: String)
    ensures
        s@ == with_marks(fold::views(ls@), p@, ls@.len() as int),
{
    let ghost lv = fold::views(ls@);
    let mut s: String = String::new();
    let mut i: usize = 0;
    while i < ls.len()
        invariant
            i <= ls.len(),
            lv == fold::views(ls@),
            s@ == with_marks(lv, p@, i as int),
        decreases ls.len() - i,
    {
        assert(lv[i as int] == ls@[i as int]@);
        s.append(p);
        s.append(&ls[i]);
        s.append("\n");
        i += 1;
    }
    s
}

/// Fills the paragraphs of a text to `width` columns.
pub fn reformat_paragraphs(t: &str, width: usize) -> (r: String)
    ensures
        r@ == reformatted(t@, width as int),
{
    let v: Vec<char> = chars_of(t);
    let n: usize = v.len();
    let nl: bool = n > 0 && v[n - 1] == '\n';
    let body: String = if nl {
        piece(&v, 0, n - 1)
    } else {
        t.to_owned()
    };
    assert(body@ =~= if nl {
        t@.drop_last()
    } else {
        t@
    });
    let ls: Vec<String> = split(&body, '\n');
    let ghost lv = fold::views(ls@);
    let mut out: String = String::new();
    let mut i: usize = 0;
    assert(out@ + refilled(lv, width as int, 0) =~= refilled(lv, width as int, 0));
    while i < ls.len()
        invariant
            i <= ls.len(),
            lv == fold::views(ls@),
            out@ + refilled(lv, width as int, i as int) == refilled(lv, width as int, 0),
        decreases ls.len() - i,
    {
        assert(lv[i as int] == ls@[i as int]@);
        let ghost before = out@;
        if is_blank(&ls[i]) {
            out.append(&ls[i]);
            out.append("\n");
            assert(before + (lv[i as int] + "\n"@ + refilled(lv, width as int, i + 1)) =~= out@
                + refilled(lv, width as int, i + 1));
            i += 1;
        } else {
            let p: String = split_quote_prefix(&ls[i]).0;
            let mut words: Vec<String> = Vec::new();
            let mut j: usize = i;
            let mut more: bool = true;
            assert(fold::views(words@) =~= para_words(lv, i as int, i as int));
            while j < ls.len() && more
                invariant
                    i <= j <= ls.len(),
                    i < ls.len(),
                    lv == fold::views(ls@),
                    !chars::blank(lv[i as int]),
                    p@ == quote_marks(lv[i as int]),
                    fold::views(words@) == para_words(lv, i as int, j as int),
                    more ==> para_end(lv, p@, i as int) == para_end(lv, p@, j as int),
                    !more ==> para_end(lv, p@, i as int) == j,
                    !more ==> j > i,
                decreases ls.len() - j, (if more { 1int } else { 0 }),
            {
                assert(lv[j as int] == ls@[j as int]@);
                let (q, b) = split_quote_prefix(&ls[j]);
                if is_blank(&ls[j]) || !same(&q, &p) {
                    more = false;
                } else {
                    let mut ws: Vec<String> = split_words(&b);
                    let ghost wv = fold::views(ws@);
                    let ghost was = fold::views(words@);
                    words.append(&mut ws);
                    assert(fold::views(words@) =~= was + wv);
                    j += 1;
                }
            }
            assert(para_end(lv, p@, i as int) == j);
            let k: usize = chars_of(&p).len();
            let bw: usize = if width > k && width - k > 20 {
                width - k
            } else {
                20
            };
            let filled: Vec<String> = fill_words(&words, bw);
            let s: String = marked_lines(&filled, &p);
            out.append(&s);
            assert(j > i);
            assert(before + (filled_para(para_words(lv, i as int, j as int), p@, width as int)
                + refilled(lv, width as int, j as int)) =~= out@ + refilled(
                lv,
                width as int,
                j as int,
            ));
            i = j;
        }
    }
    assert(out@ + refilled(lv, width as int, i as int) =~= out@);
    let ov: Vec<char> = chars_of(&out);
    let m: usize = ov.len();
    if !nl && m > 0 && ov[m - 1] == '\n' {
        let r: String = piece(&ov, 0, m - 1);
        assert(r@ =~= out@.drop_last());
        r
    } else {
        out
    }
}

// ── Shifting ────────────────────────────────────────────────────────────

/// A line one level further in: a quote mark in mail, a tab elsewhere.
pub open spec fn shifted_right(l: Seq<char>, kind: FileKind) -> Seq<char> {
    if kind is Email {
        if l.len() == 0 {
            ">"@
        } else {
            "> "@ + l
        }
    } else {
        "\t"@ + l
    }
}

pub open spec fn sp_fn() -> spec_fn(char) -> bool {
    |c: char| c == ' '
}

pub open spec fn min(a: int, b: int) -> int {
    if a <= b {
        a
    } else {
        b
    }
}

/// A line one level further out: a quote mark less in mail, a tab or up to
/// four spaces less elsewhere.
pub open spec fn shifted_left(l: Seq<char>, kind: FileKind) -> Seq<char> {
    if kind is Email {
        if strs::prefixed(l, "> "@) {
            l.skip(2)
        } else if l.len() > 0 && l[0] == '>' {
            l.skip(1)
        } else {
            l
        }
    } else if l.len() > 0 && l[0] == '\t' {
        l.skip(1)
    } else {
        l.skip(min(4, text::skip_fwd(l, 0, sp_fn())))
    }
}

pub fn shift_right(line: &str, kind: &FileKind) -> (s: String)
    ensures
        s@ == shifted_right(line@, *kind),
{
    match kind {
        FileKind::Email => if chars_of(line).len() == 0 {
            ">".to_owned()
        } else {
            cat2("> ", line)
        },
        _ => cat2("\t", line),
    }
}

/// Number of spaces at the start, counted up to `max`.
pub(crate) fn leading_spaces(v: &Vec<char>, max: usize) -> (n: usize)
    ensures
        n == min(max as int, text::skip_fwd(v@, 0, sp_fn())),
        n <= v.len(),
        forall|k: int| 0 <= k < n ==> v@[k] == ' ',
{
    let mut n: usize = 0;
    while n < max && n < v.len() && v[n] == ' '
        invariant
            n <= max,
            n <= v.len(),
            text::skip_fwd(v@, 0, sp_fn()) == text::skip_fwd(v@, n as int, sp_fn()),
            forall|k: int| 0 <= k < n ==> v@[k] == ' ',
        decreases v.len() - n,
    {
        n += 1;
    }
    proof {
        text::lemma_skip_fwd(v@, n as int, sp_fn());
    }
    n
}

pub fn shift_left(line: &str, kind: &FileKind) -> (s: String)
    ensures
        s@ == shifted_left(line@, *kind),
{
    let v: Vec<char> = chars_of(line);
    proof {
        reveal_strlit("> ");
    }
    let n: usize = match kind {
        FileKind::Email => if starts_with(line, "> ") {
            2
        } else if v.len() > 0 && v[0] == '>' {
            1
        } else {
            0
        },
        _ => if v.len() > 0 && v[0] == '\t' {
            1
        } else {
            leading_spaces(&v, 4)
        },
    };
    let r: String = piece(&v, n, v.len());
    assert(r@ =~= line@.skip(n as int));
    assert(line@.skip(0) =~= line@);
    r
}

/// Every line of the text from index `a` on, shifted.
pub open spec fn shifted_text(t: Seq<char>, right: bool, kind: FileKind, a: int) -> Seq<char>
    decreases t.len() - a,
{
    let j = text::skip_fwd(t, a, strs::other_than('\n'));
    if a < 0 || a >= t.len() || j < a {
        Seq::empty()
    } else {
        let body = t.subrange(a, j);
        let s = if right {
            shifted_right(body, kind)
        } else {
            shifted_left(body, kind)
        };
        if j < t.len() {
            s + "\n"@ + shifted_text(t, right, kind, j + 1)
        } else {
            s
        }
    }
}

/// Shifts every line of a text.
pub fn shift_text(t: &str, right: bool, kind: &FileKind) -> (out: String)
    ensures
        out@ == shifted_text(t@, right, *kind, 0),
{
    let v: Vec<char> = chars_of(t);
    let mut out: String = String::new();
    let mut a: usize = 0;
    assert(out@ + shifted_text(t@, right, *kind, 0) =~= shifted_text(t@, right, *kind, 0));
    while a < v.len()
        invariant
            a <= v.len(),
            v@ == t@,
            out@ + shifted_text(t@, right, *kind, a as int) == shifted_text(t@, right, *kind, 0),
        decreases v.len() - a,
    {
        let ghost before = out@;
        let j: usize = next_char(&v, '\n', a);
        let body: String = piece(&v, a, j);
        let s: String = if right {
            shift_right(&body, kind)
        } else {
            shift_left(&body, kind)
        };
        out.append(&s);
        if j >= v.len() {
            return out;
        }
        out.append("\n");
        assert(before + (s@ + "\n"@ + shifted_text(t@, right, *kind, j + 1)) =~= out@
            + shifted_text(t@, right, *kind, j + 1));
        a = j + 1;
    }
    assert(out@ + shifted_text(t@, right, *kind, a as int) =~= out@);
    out
}

/// In mail and elsewhere, a shift to the left takes back a shift to the
/// right.
pub proof fn law_shift_back(l: Seq<char>, kind: FileKind)
    ensures
        shifted_left(shifted_right(l, kind), kind) == l,
{
    reveal_strlit(">");
    reveal_strlit("> ");
    reveal_strlit("\t");
    let r = shifted_right(l, kind);
    if kind is Email {
        if l.len() == 0 {
            assert(r.skip(1) =~= l);
        } else {
            assert(r.take(2) =~= "> "@);
            assert(r.skip(2) =~= l);
        }
    } else {
        assert(r.skip(1) =~= l);
    }
}

proof fn lemma_shift_skip(t: Seq<char>, right: bool, kind: FileKind, n: int, a: int)
    requires
        0 <= n <= a <= t.len(),
    ensures
        shifted_text(t, right, kind, a) == shifted_text(t.skip(n), right, kind, a - n),
    decreases t.len() - a,
{
    let p = strs::other_than('\n');
    strs::lemma_skip_shift(t, n, a, p);
    text::lemma_skip_fwd(t, a, p);
    let j = text::skip_fwd(t, a, p);
    let u = t.skip(n);
    if a < t.len() {
        assert(t.subrange(a, j) =~= u.subrange(a - n, j - n));
        if j < t.len() {
            lemma_shift_skip(t, right, kind, n, j + 1);
        }
    }
}

/// A text is shifted line by line, each line by itself, and keeps its line
/// feeds.
pub proof fn law_shifted_by_line(l: Seq<char>, b: Seq<char>, right: bool, kind: FileKind)
    requires
        !l.contains('\n'),
    ensures
        ({
            let moved = if right {
                shifted_right(l, kind)
            } else {
                shifted_left(l, kind)
            };
            &&& shifted_text(l.push('\n') + b, right, kind, 0) == moved.push('\n') + shifted_text(
                b,
                right,
                kind,
                0,
            )
            &&& l.len() > 0 ==> shifted_text(l, right, kind, 0) == moved
        }),
{
    reveal_strlit("\n");
    assert("\n"@ =~= seq!['\n']);
    let t = l.push('\n') + b;
    let p = strs::other_than('\n');
    text::lemma_skip_fwd(t, 0, p);
    text::lemma_skip_fwd(l, 0, p);
    let j = text::skip_fwd(t, 0, p);
    let k = text::skip_fwd(l, 0, p);
    let n = l.len() as int;
    assert(t[n] == '\n');
    if j < n {
        assert(t[j] == l[j]);
        assert(l.contains(l[j]));
    } else if j > n {
        assert(p(t[n]));
    }
    if k < n {
        assert(l.contains(l[k]));
    }
    assert(t.subrange(0, n) =~= l);
    assert(l.subrange(0, n) =~= l);
    lemma_shift_skip(t, right, kind, n + 1, n + 1);
    assert(t.skip(n + 1) =~= b);
    let moved = if right {
        shifted_right(l, kind)
    } else {
        shifted_left(l, kind)
    };
    assert(moved + "\n"@ =~= moved.push('\n'));
}

/// To the right a line gets a tab in front, and in mail a quote mark and a
/// blank, or the mark alone when it is empty.
pub proof fn law_shifted_right(l: Seq<char>, kind: FileKind)
    ensures
        !(kind is Email) ==> shifted_right(l, kind) == seq!['\t'] + l,
        kind is Email && l.len() > 0 ==> shifted_right(l, kind) == seq!['>', ' '] + l,
        kind is Email && l.len() == 0 ==> shifted_right(l, kind) == seq!['>'],
{
    reveal_strlit("\t");
    reveal_strlit("> ");
    reveal_strlit(">");
    assert("\t"@ =~= seq!['\t']);
    assert("> "@ =~= seq!['>', ' ']);
    assert(">"@ =~= seq!['>']);
}

/// To the left a line loses the tab or the blanks in front, four of them at
/// most, and in mail a quote mark and the blank after it. A line without them
/// stays, and what comes after them always does.
pub proof fn law_shifted_left(b: Seq<char>, n: int, kind: FileKind)
    requires
        0 <= n,
    ensures
        ({
            let blanks = Seq::new(n as nat, |i: int| ' ');
            &&& !(kind is Email) ==> shifted_left(seq!['\t'] + b, kind) == b
            &&& !(kind is Email) && n <= 4 && (n == 4 || b.len() == 0 || b[0] != ' ') && (n > 0
                || b.len() == 0 || b[0] != '\t') ==> shifted_left(blanks + b, kind) == b
            &&& kind is Email ==> shifted_left(seq!['>', ' '] + b, kind) == b
            &&& kind is Email && (b.len() == 0 || b[0] != ' ') ==> shifted_left(seq!['>'] + b, kind)
                == b
            &&& kind is Email && (b.len() == 0 || b[0] != '>') ==> shifted_left(b, kind) == b
        }),
{
    reveal_strlit("> ");
    assert("> "@ =~= seq!['>', ' ']);
    let blanks = Seq::new(n as nat, |i: int| ' ');
    let x = seq!['\t'] + b;
    assert(x.skip(1) =~= b);
    let y = blanks + b;
    let f = sp_fn();
    text::lemma_skip_fwd(y, 0, f);
    let m = text::skip_fwd(y, 0, f);
    if m < n {
        assert(y[m] == blanks[m]);
        assert(!f(y[m]));
    }
    if n < 4 && (b.len() == 0 || b[0] != ' ') && m > n {
        assert(f(y[n]));
        assert(y[n] == b[0]);
    }
    if n > 0 {
        assert(y[0] == blanks[0]);
    }
    assert(y.skip(n) =~= b);
    let z = seq!['>', ' '] + b;
    assert(z.take(2) =~= seq!['>', ' ']);
    assert(z.skip(2) =~= b);
    let w = seq!['>'] + b;
    assert(w.skip(1) =~= b);
    if strs::prefixed(w, "> "@) {
        assert(w.take(2)[1] == ' ');
        assert(w[1] == b[0]);
    }
    if strs::prefixed(b, "> "@) {
        assert(b.take(2)[0] == '>');
    }
}

/// Length of the first word of a line.
pub open spec fn first_word_len(l: Seq<char>) -> int {
    text::skip_fwd(l, 0, strs::other_than(' '))
}

proof fn lemma_first_word(w: Seq<char>, rest: Seq<char>)
    requires
        w.len() > 0,
        !w.contains(' '),
        rest.len() == 0 || rest[0] == ' ',
    ensures
        first_word_len(w + rest) == w.len(),
{
    let l = w + rest;
    let p = strs::other_than(' ');
    text::lemma_skip_fwd(l, 0, p);
    let k = text::skip_fwd(l, 0, p);
    if k < w.len() {
        assert(l[k] == w[k]);
        assert(w.contains(w[k]));
    } else if k > w.len() {
        assert(p(l[w.len() as int]));
        assert(l[w.len() as int] == rest[0]);
    }
}

proof fn lemma_fill_greedy(ws: Seq<Seq<char>>, width: int, i: int, w: Seq<char>, rest: Seq<char>)
    requires
        0 <= i <= ws.len(),
        forall|k: int|
            0 <= k < ws.len() ==> (#[trigger] ws[k]).len() > 0 && !ws[k].contains(' '),
        w.len() > 0,
        !w.contains(' '),
        rest.len() == 0 || rest[0] == ' ',
    ensures
        ({
            let out = fill(ws, width, i, w + rest);
            &&& out.len() > 0
            &&& first_word_len(out[0]) == w.len()
            &&& forall|k: int|
                #![trigger out[k]]
                0 <= k && k + 1 < out.len() ==> out[k].len() + 1 + first_word_len(out[k + 1])
                    > width
        }),
    decreases ws.len() - i,
{
    reveal_strlit(" ");
    assert(" "@ =~= seq![' ']);
    let cur = w + rest;
    lemma_first_word(w, rest);
    if i < ws.len() {
        let x = ws[i];
        if cur.len() + 1 + x.len() <= width {
            let more = rest + " "@ + x;
            assert(cur + " "@ + x =~= w + more);
            assert(more[0] == ' ');
            lemma_fill_greedy(ws, width, i + 1, w, more);
        } else {
            lemma_fill_greedy(ws, width, i + 1, x, Seq::empty());
            assert(x + Seq::<char>::empty() =~= x);
            let tail = fill(ws, width, i + 1, x);
            let out = seq![cur] + tail;
            assert forall|k: int|
                #![trigger out[k]]
                0 <= k && k + 1 < out.len() implies out[k].len() + 1 + first_word_len(out[k + 1])
                > width by {
                if k == 0 {
                    assert(out[1] == tail[0]);
                } else {
                    assert(out[k] == tail[k - 1]);
                    assert(out[k + 1] == tail[k]);
                }
            }
        }
    }
}

/// A line is filled as far as it goes: the first word of the next line would
/// not have fitted.
pub proof fn law_filled_greedily(ws: Seq<Seq<char>>, width: int)
    requires
        forall|k: int|
            0 <= k < ws.len() ==> (#[trigger] ws[k]).len() > 0 && !ws[k].contains(' '),
    ensures
        ({
            let out = fill(ws, width, 0, Seq::empty());
            forall|k: int|
                #![trigger out[k]]
                0 <= k && k + 1 < out.len() ==> out[k].len() + 1 + first_word_len(out[k + 1])
                    > width
        }),
{
    if ws.len() > 0 {
        let w = ws[0];
        lemma_fill_greedy(ws, width, 1, w, Seq::empty());
        assert(w + Seq::<char>::empty() =~= w);
        assert(fill(ws, width, 0, Seq::empty()) == fill(ws, width, 1, w));
    }
}

} // verus!
