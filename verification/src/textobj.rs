//! Text objects. Each takes a buffer and the cursor's byte offset and gives
//! the byte range to operate on. An inner object leaves the delimiters out,
//! an outer one takes them in.

use vstd::prelude::*;
use crate::buffer::Buffer;
use crate::chars;
use crate::chars::is_blank;
use crate::lines;
use crate::motion;
use crate::motion::{classify, run_end, run_start, CharClass};
use crate::text;
use crate::text::{char_len, chars_of, index_at, offset_of};

verus! {

pub open spec fn range_int(r: Option<(usize, usize)>) -> Option<(int, int)> {
    match r {
        Some((a, b)) => Some((a as int, b as int)),
        None => None,
    }
}

/// Byte range of a range of characters.
pub open spec fn byte_range(t: Seq<char>, r: Option<(int, int)>) -> Option<(int, int)> {
    match r {
        Some((a, b)) => Some((text::off(t, a), text::off(t, b))),
        None => None,
    }
}

/// The run of one class around the character `i`; none on white space.
pub open spec fn word_at(t: Seq<char>, i: int) -> Option<(int, int)> {
    if i >= t.len() || motion::class_of(t[i]) is Space {
        None
    } else {
        let p = motion::in_class(motion::class_of(t[i]));
        Some((text::skip_back(t, i, p), text::skip_fwd(t, i, p)))
    }
}

pub open spec fn gap() -> spec_fn(char) -> bool {
    |c: char| c == ' ' || c == '\t'
}

/// A word with the blanks after it, or, where it ends its line, with the
/// blanks before it.
pub open spec fn word_around(t: Seq<char>, i: int) -> Option<(int, int)> {
    match word_at(t, i) {
        None => None,
        Some((a, b)) => {
            let e = text::skip_fwd(t, b, gap());
            if e == b && (b == t.len() || t[b] == '\n') {
                Some((text::skip_back(t, a, gap()), e))
            } else {
                Some((a, e))
            }
        },
    }
}

/// Nearest `open` before `i` that no `close` before `i` closes, when `depth`
/// closing characters are waiting for their partners.
pub open spec fn opener(t: Seq<char>, i: int, open: char, close: char, depth: int) -> Option<int>
    decreases i,
{
    if i <= 0 || i > t.len() {
        None
    } else if t[i - 1] == close {
        opener(t, i - 1, open, close, depth + 1)
    } else if t[i - 1] == open {
        if depth == 0 {
            Some(i - 1)
        } else {
            opener(t, i - 1, open, close, depth - 1)
        }
    } else {
        opener(t, i - 1, open, close, depth)
    }
}

/// Where to look for the opening delimiter from: past the character `i` when
/// it is one itself.
pub open spec fn from_pair(t: Seq<char>, i: int, open: char) -> int {
    if 0 <= i < t.len() && t[i] == open {
        i + 1
    } else {
        i
    }
}

/// Nearest `close` at or after `i` that closes nothing opened since `i`.
pub open spec fn closer(t: Seq<char>, i: int, open: char, close: char, depth: int) -> Option<int>
    decreases t.len() - i,
{
    if i < 0 || i >= t.len() {
        None
    } else if t[i] == open {
        closer(t, i + 1, open, close, depth + 1)
    } else if t[i] == close {
        if depth == 0 {
            Some(i)
        } else {
            closer(t, i + 1, open, close, depth - 1)
        }
    } else {
        closer(t, i + 1, open, close, depth)
    }
}

/// The characters between the delimiters around `i`, which may be on either of
/// them.
pub open spec fn pair_inside(t: Seq<char>, i: int, open: char, close: char) -> Option<(int, int)> {
    match opener(t, from_pair(t, i, open), open, close, 0) {
        None => None,
        Some(a) => match closer(t, a + 1, open, close, 0) {
            None => None,
            Some(b) => Some((a + 1, b)),
        },
    }
}

/// The pair of neighbouring quotes on line `l` around byte `pos`: `prev` is
/// the last quote before index `j`.
pub open spec fn quotes(
    l: Seq<char>,
    pos: int,
    q: char,
    j: int,
    prev: Option<int>,
) -> Option<(int, int)>
    decreases l.len() - j,
{
    if j < 0 || j >= l.len() {
        None
    } else if l[j] != q {
        quotes(l, pos, q, j + 1, prev)
    } else if prev matches Some(a) && text::off(l, a) <= pos <= text::off(l, j) {
        Some((prev->0, j))
    } else {
        quotes(l, pos, q, j + 1, Some(j))
    }
}

pub open spec fn quote_inside(t: Seq<char>, cur: int, q: char) -> Option<(int, int)> {
    let k = lines::line_at(t, cur);
    let s = lines::line_off(t, k);
    let l = lines::line_text(t, k);
    match quotes(l, cur - s, q, 0, None) {
        None => None,
        Some((a, b)) => Some((s + text::off(l, a + 1), s + text::off(l, b))),
    }
}

/// A range with a character more on either side.
pub open spec fn widened(r: Option<(int, int)>, open: char, close: char) -> Option<(int, int)> {
    match r {
        None => None,
        Some((a, b)) => Some((a - text::clen(open), b + text::clen(close))),
    }
}

pub open spec fn blank_line(t: Seq<char>, k: int) -> bool {
    chars::blank(lines::line_text(t, k))
}

/// First line of the run of lines down to `k` that are blank as `b` says.
pub open spec fn run_top(t: Seq<char>, k: int, b: bool) -> int
    decreases k,
{
    if k > 0 && blank_line(t, k - 1) == b {
        run_top(t, k - 1, b)
    } else {
        k
    }
}

/// Last line of the run of lines from `k` on that are blank as `b` says.
pub open spec fn run_bottom(t: Seq<char>, k: int, b: bool) -> int
    decreases lines::line_count(t) - k,
{
    if k + 1 < lines::line_count(t) && blank_line(t, k + 1) == b {
        run_bottom(t, k + 1, b)
    } else {
        k
    }
}

/// The lines around byte `cur` that are blank, or not, as its own line is.
pub open spec fn paragraph(t: Seq<char>, cur: int) -> (int, int) {
    let k = lines::line_at(t, cur);
    let b = blank_line(t, k);
    (lines::line_off(t, run_top(t, k, b)), lines::line_off(t, run_bottom(t, k, b) + 1))
}

/// A paragraph with the blank lines after it.
pub open spec fn paragraph_around(t: Seq<char>, cur: int) -> (int, int) {
    let p = paragraph(t, cur);
    let k = lines::line_at(t, if p.1 > 0 { p.1 - 1 } else { 0 });
    (p.0, lines::line_off(t, run_bottom(t, k, true) + 1))
}

fn word_span(v: &Vec<char>, i: usize) -> (r: Option<(usize, usize)>)
    requires
        i <= v.len(),
    ensures
        range_int(r) == word_at(v@, i as int),
        r matches Some((a, b)) ==> a <= i < b <= v.len(),
{
    if i >= v.len() {
        return None;
    }
    let k: CharClass = classify(v[i]);
    if k == CharClass::Space {
        return None;
    }
    let a: usize = run_start(v, i, k);
    let b: usize = run_end(v, i, k);
    proof {
        text::lemma_skip_fwd(v@, i + 1, motion::in_class(k));
    }
    Some((a, b))
}

/// `iw`: the word at the cursor.
pub fn inner_word(buf: &Buffer, cur: usize) -> (r: Option<(usize, usize)>)
    ensures
        range_int(r) == byte_range(buf@.text, word_at(buf@.text, text::at(buf@.text, cur as int))),
{
    let v: Vec<char> = buf.chars();
    let i: usize = index_at(&v, cur);
    match word_span(&v, i) {
        None => None,
        Some((a, b)) => Some((offset_of(&v, a), offset_of(&v, b))),
    }
}

/// `aw`: the word at the cursor with the blanks after it, or before it at the
/// end of a line.
pub fn around_word(buf: &Buffer, cur: usize) -> (r: Option<(usize, usize)>)
    ensures
        range_int(r) == byte_range(
            buf@.text,
            word_around(buf@.text, text::at(buf@.text, cur as int)),
        ),
{
    let v: Vec<char> = buf.chars();
    let i: usize = index_at(&v, cur);
    match word_span(&v, i) {
        None => None,
        Some((a, b)) => {
            let mut e: usize = b;
            while e < v.len() && (v[e] == ' ' || v[e] == '\t')
                invariant
                    b <= e <= v.len(),
                    text::skip_fwd(v@, b as int, gap()) == text::skip_fwd(v@, e as int, gap()),
                decreases v.len() - e,
            {
                e += 1;
            }
            let mut s: usize = a;
            if e == b && (b == v.len() || v[b] == '\n') {
                while s > 0 && (v[s - 1] == ' ' || v[s - 1] == '\t')
                    invariant
                        s <= a <= v.len(),
                        text::skip_back(v@, a as int, gap()) == text::skip_back(
                            v@,
                            s as int,
                            gap(),
                        ),
                    decreases s,
                {
                    s -= 1;
                }
            }
            Some((offset_of(&v, s), offset_of(&v, e)))
        },
    }
}

/// The text between the delimiters around the cursor.
pub fn inner_pair(buf: &Buffer, cur: usize, open: char, close: char) -> (r: Option<(usize, usize)>)
    ensures
        range_int(r) == byte_range(
            buf@.text,
            pair_inside(buf@.text, text::at(buf@.text, cur as int), open, close),
        ),
{
    let v: Vec<char> = buf.chars();
    let i: usize = index_at(&v, cur);
    match pair_span(&v, i, open, close) {
        None => None,
        Some((a, b)) => Some((offset_of(&v, a), offset_of(&v, b))),
    }
}

fn pair_span(v: &Vec<char>, i: usize, open: char, close: char) -> (r: Option<(usize, usize)>)
    requires
        i <= v.len(),
    ensures
        range_int(r) == pair_inside(v@, i as int, open, close),
        r matches Some((a, b)) ==> 0 < a <= b < v.len() && v@[a - 1] == open && v@[b as int]
            == close,
{
    let from: usize = if i < v.len() && v[i] == open {
        i + 1
    } else {
        i
    };
    let mut depth: usize = 0;
    let mut k: usize = from;
    let mut start: Option<usize> = None;
    while k > 0 && start.is_none()
        invariant
            k <= from <= v.len(),
            depth <= from - k,
            start is None ==> opener(v@, from as int, open, close, 0) == opener(
                v@,
                k as int,
                open,
                close,
                depth as int,
            ),
            start matches Some(s) ==> opener(v@, from as int, open, close, 0) == Some(s as int) && s
                < v.len() && v@[s as int] == open,
        decreases k,
    {
        let c: char = v[k - 1];
        if c == close {
            depth += 1;
        } else if c == open {
            if depth == 0 {
                start = Some(k - 1);
            } else {
                depth -= 1;
            }
        }
        k -= 1;
    }
    let a: usize = match start {
        None => {
            return None;
        },
        Some(s) => s + 1,
    };
    let mut d: usize = 0;
    let mut j: usize = a;
    while j < v.len()
        invariant
            0 < a <= j <= v.len(),
            v@[a - 1] == open,
            d <= j - a,
            opener(v@, from as int, open, close, 0) == Some(a - 1),
            from == from_pair(v@, i as int, open),
            closer(v@, a as int, open, close, 0) == closer(v@, j as int, open, close, d as int),
        decreases v.len() - j,
    {
        let c: char = v[j];
        if c == open {
            d += 1;
        } else if c == close {
            if d == 0 {
                return Some((a, j));
            }
            d -= 1;
        }
        j += 1;
    }
    None
}

/// The delimiters around the cursor and the text between them.
pub fn around_pair(
    buf: &Buffer,
    cur: usize,
    open: char,
    close: char,
) -> (r: Option<(usize, usize)>)
    ensures
        range_int(r) == widened(
            byte_range(
                buf@.text,
                pair_inside(buf@.text, text::at(buf@.text, cur as int), open, close),
            ),
            open,
            close,
        ),
{
    let v: Vec<char> = buf.chars();
    let i: usize = index_at(&v, cur);
    match pair_span(&v, i, open, close) {
        None => None,
        Some((a, b)) => {
            assert(text::off(v@, a as int) == text::off(v@, a - 1) + text::clen(open));
            assert(text::off(v@, b + 1) == text::off(v@, b as int) + text::clen(close));
            Some((offset_of(&v, a - 1), offset_of(&v, b + 1)))
        },
    }
}

/// The text between the quotes around the cursor, on the cursor's line.
pub fn inner_quote(buf: &Buffer, cur: usize, delim: char) -> (r: Option<(usize, usize)>)
    requires
        cur <= text::blen(buf@.text),
    ensures
        range_int(r) == quote_inside(buf@.text, cur as int, delim),
{
    match quote_span(buf, cur, delim) {
        None => None,
        Some((a, b)) => Some((a, b)),
    }
}

fn quote_span(buf: &Buffer, cur: usize, delim: char) -> (r: Option<(usize, usize)>)
    requires
        cur <= text::blen(buf@.text),
    ensures
        range_int(r) == quote_inside(buf@.text, cur as int, delim),
        r matches Some((a, b)) ==> text::clen(delim) <= a && b + text::clen(delim) <= text::blen(
            buf@.text,
        ),
{
    let (line, pos) = buf.byte_to_line_col(cur);
    let start: usize = buf.line_byte_offset(line);
    let total: usize = buf.len_bytes();
    let l: String = buf.line(line);
    let v: Vec<char> = chars_of(&l);
    proof {
        lines::lemma_line_raw(buf@.text, line as int);
    }
    let mut prev: Option<usize> = None;
    let mut j: usize = 0;
    let mut at: usize = 0;
    let mut prev_at: usize = 0;
    while j < v.len()
        invariant
            j <= v.len(),
            v@ == l@,
            at == text::off(l@, j as int),
            text::blen(l@) <= usize::MAX,
            l@ == lines::line_text(buf@.text, line as int),
            line == lines::line_at(buf@.text, cur as int),
            start == lines::line_off(buf@.text, line as int),
            start + text::blen(l@) <= total,
            total == text::blen(buf@.text),
            pos == cur - start,
            quotes(l@, pos as int, delim, 0, None) == quotes(
                l@,
                pos as int,
                delim,
                j as int,
                motion::as_int(prev),
            ),
            prev matches Some(a) ==> a < j && l@[a as int] == delim && prev_at == text::off(
                l@,
                a as int,
            ),
        decreases v.len() - j,
    {
        proof {
            text::lemma_off_mono(l@, j + 1, l@.len() as int);
        }
        if v[j] == delim {
            if let Some(a) = prev {
                if prev_at <= pos && pos <= at {
                    proof {
                        text::lemma_off_mono(l@, a + 1, j as int);
                        assert(text::off(l@, a + 1) == text::off(l@, a as int) + text::clen(delim));
                        text::lemma_off_mono(l@, 0, a as int);
                    }
                    return Some((start + prev_at + char_len(delim), start + at));
                }
            }
            prev = Some(j);
            prev_at = at;
        }
        at = at + char_len(v[j]);
        j += 1;
    }
    None
}

/// The quotes around the cursor and the text between them.
pub fn around_quote(buf: &Buffer, cur: usize, delim: char) -> (r: Option<(usize, usize)>)
    requires
        cur <= text::blen(buf@.text),
    ensures
        range_int(r) == widened(quote_inside(buf@.text, cur as int, delim), delim, delim),
{
    let total: usize = buf.len_bytes();
    match quote_span(buf, cur, delim) {
        None => None,
        Some((a, b)) => Some((a - char_len(delim), b + char_len(delim))),
    }
}

/// Last line of the run of lines from `line` on that are blank as `b` says.
fn extend_down(buf: &Buffer, line: usize, b: bool) -> (r: usize)
    requires
        line < lines::line_count(buf@.text),
    ensures
        r == run_bottom(buf@.text, line as int, b),
        line <= r < lines::line_count(buf@.text),
{
    let n: usize = buf.line_count();
    let mut k: usize = line;
    while k + 1 < n && is_blank(&buf.line(k + 1)) == b
        invariant
            line <= k < n,
            n == lines::line_count(buf@.text),
            run_bottom(buf@.text, line as int, b) == run_bottom(buf@.text, k as int, b),
        decreases n - k,
    {
        k += 1;
    }
    k
}

/// `ip`: the run of lines around the cursor that are blank, or not, as the
/// cursor's line is.
pub fn inner_paragraph(buf: &Buffer, cur: usize) -> (r: Option<(usize, usize)>)
    requires
        cur <= text::blen(buf@.text),
    ensures
        range_int(r) == Some(paragraph(buf@.text, cur as int)),
{
    Some(para_span(buf, cur))
}

fn para_span(buf: &Buffer, cur: usize) -> (r: (usize, usize))
    requires
        cur <= text::blen(buf@.text),
    ensures
        (r.0 as int, r.1 as int) == paragraph(buf@.text, cur as int),
        r.1 <= text::blen(buf@.text),
{
    let line: usize = buf.byte_to_line(cur);
    let b: bool = is_blank(&buf.line(line));
    let mut top: usize = line;
    while top > 0 && is_blank(&buf.line(top - 1)) == b
        invariant
            top <= line,
            run_top(buf@.text, line as int, b) == run_top(buf@.text, top as int, b),
        decreases top,
    {
        top -= 1;
    }
    let bottom: usize = extend_down(buf, line, b);
    let n: usize = buf.line_count();
    (buf.line_byte_offset(top), buf.line_byte_offset(bottom + 1))
}

/// `ap`: the paragraph around the cursor with the blank lines after it.
pub fn around_paragraph(buf: &Buffer, cur: usize) -> (r: Option<(usize, usize)>)
    requires
        cur <= text::blen(buf@.text),
    ensures
        range_int(r) == Some(paragraph_around(buf@.text, cur as int)),
{
    let (start, end) = para_span(buf, cur);
    let last: usize = if end > 0 {
        end - 1
    } else {
        0
    };
    let line: usize = buf.byte_to_line(last);
    let bottom: usize = extend_down(buf, line, true);
    let n: usize = buf.line_count();
    Some((start, buf.line_byte_offset(bottom + 1)))
}

// ── What the objects cover ──────────────────────────────────────────────

/// The lines from `top` to `bottom` are all the lines around line `k` that
/// are blank just as it is: no line next to them is.
pub open spec fn whole_run(t: Seq<char>, k: int, top: int, bottom: int) -> bool {
    &&& 0 <= top <= k <= bottom < lines::line_count(t)
    &&& forall|j: int|
        top <= j <= bottom ==> chars::blank(#[trigger] lines::line_text(t, j)) == chars::blank(
            lines::line_text(t, k),
        )
    &&& top > 0 ==> chars::blank(lines::line_text(t, top - 1)) != chars::blank(
        lines::line_text(t, k),
    )
    &&& bottom + 1 < lines::line_count(t) ==> chars::blank(lines::line_text(t, bottom + 1))
        != chars::blank(lines::line_text(t, k))
}

proof fn lemma_run(t: Seq<char>, k: int, b: bool)
    requires
        0 <= k < lines::line_count(t),
    ensures
        0 <= run_top(t, k, b) <= k,
        forall|j: int| run_top(t, k, b) <= j < k ==> #[trigger] blank_line(t, j) == b,
        run_top(t, k, b) > 0 ==> blank_line(t, run_top(t, k, b) - 1) != b,
    decreases k,
{
    if k > 0 && blank_line(t, k - 1) == b {
        lemma_run(t, k - 1, b);
    }
}

proof fn lemma_run_down(t: Seq<char>, k: int, b: bool)
    requires
        0 <= k < lines::line_count(t),
    ensures
        k <= run_bottom(t, k, b) < lines::line_count(t),
        forall|j: int| k < j <= run_bottom(t, k, b) ==> #[trigger] blank_line(t, j) == b,
        run_bottom(t, k, b) + 1 < lines::line_count(t) ==> blank_line(t, run_bottom(t, k, b) + 1)
            != b,
    decreases lines::line_count(t) - k,
{
    if k + 1 < lines::line_count(t) && blank_line(t, k + 1) == b {
        lemma_run_down(t, k + 1, b);
    }
}

proof fn lemma_paragraph(t: Seq<char>, cur: int) -> (r: (int, int))
    requires
        0 <= cur,
    ensures
        whole_run(t, lines::line_at(t, cur), r.0, r.1),
        paragraph(t, cur) == (lines::line_off(t, r.0), lines::line_off(t, r.1 + 1)),
{
    text::lemma_at(t, cur);
    lines::lemma_line_of(t, text::at(t, cur));
    let k = lines::line_at(t, cur);
    let b = blank_line(t, k);
    lemma_run(t, k, b);
    lemma_run_down(t, k, b);
    let top = run_top(t, k, b);
    let bottom = run_bottom(t, k, b);
    assert forall|j: int| top <= j <= bottom implies chars::blank(#[trigger] lines::line_text(t, j))
        == chars::blank(lines::line_text(t, k)) by {
        assert(blank_line(t, j) == b);
    }
    if top > 0 {
        assert(blank_line(t, top - 1) != b);
    }
    if bottom + 1 < lines::line_count(t) {
        assert(blank_line(t, bottom + 1) != b);
    }
    (top, bottom)
}

/// The range of a paragraph is that of all the lines around the cursor's line
/// that are blank just as it is: it starts where the first of them does and
/// ends where the line after the last of them starts. Any two bytes on those
/// lines give the same range.
pub proof fn law_paragraph(t: Seq<char>, cur: int, top: int, bottom: int)
    requires
        0 <= cur,
        whole_run(t, lines::line_at(t, cur), top, bottom),
    ensures
        paragraph(t, cur) == (lines::line_off(t, top), lines::line_off(t, bottom + 1)),
        forall|b: int|
            0 <= b && top <= lines::line_at(t, b) <= bottom ==> #[trigger] paragraph(t, b)
                == paragraph(t, cur),
{
    lemma_same_run(t, cur, top, bottom);
    assert forall|b: int| 0 <= b && top <= lines::line_at(t, b) <= bottom implies #[trigger] paragraph(
        t,
        b,
    ) == paragraph(t, cur) by {
        assert(chars::blank(lines::line_text(t, lines::line_at(t, b))) == chars::blank(
            lines::line_text(t, lines::line_at(t, cur)),
        ));
        lemma_same_run(t, b, top, bottom);
    }
}

proof fn lemma_same_run(t: Seq<char>, cur: int, top: int, bottom: int)
    requires
        0 <= cur,
        whole_run(t, lines::line_at(t, cur), top, bottom),
    ensures
        paragraph(t, cur) == (lines::line_off(t, top), lines::line_off(t, bottom + 1)),
{
    let r = lemma_paragraph(t, cur);
    let k = lines::line_at(t, cur);
    let c = chars::blank(lines::line_text(t, k));
    if r.0 < top {
        assert(chars::blank(lines::line_text(t, top - 1)) == c);
    } else if top < r.0 {
        assert(chars::blank(lines::line_text(t, r.0 - 1)) == c);
    }
    if r.1 < bottom {
        assert(chars::blank(lines::line_text(t, r.1 + 1)) == c);
    } else if bottom < r.1 {
        assert(chars::blank(lines::line_text(t, bottom + 1)) == c);
    }
}

/// Around every byte there is such a run of lines, so that the paragraph is
/// always one.
pub proof fn law_paragraph_exists(t: Seq<char>, cur: int)
    requires
        0 <= cur,
    ensures
        exists|top: int, bottom: int|
            #[trigger] whole_run(t, lines::line_at(t, cur), top, bottom),
{
    let r = lemma_paragraph(t, cur);
    assert(whole_run(t, lines::line_at(t, cur), r.0, r.1));
}

/// The outer paragraph starts where the inner one does, and goes on over the
/// blank lines that follow it, all of them and nothing else.
pub proof fn law_paragraph_around(t: Seq<char>, cur: int, top: int, bottom: int, last: int)
    requires
        0 <= cur,
        whole_run(t, lines::line_at(t, cur), top, bottom),
        bottom <= last < lines::line_count(t),
        forall|j: int| bottom < j <= last ==> chars::blank(#[trigger] lines::line_text(t, j)),
        last + 1 < lines::line_count(t) ==> !chars::blank(lines::line_text(t, last + 1)),
    ensures
        paragraph_around(t, cur) == (lines::line_off(t, top), lines::line_off(t, last + 1)),
{
    lemma_same_run(t, cur, top, bottom);
    let p = paragraph(t, cur);
    let b = if p.1 > 0 {
        p.1 - 1
    } else {
        0
    };
    let k = lines::line_at(t, b);
    lines::lemma_line_raw(t, bottom);
    lines::lemma_line_start(t, bottom);
    let e = lines::line_start(t, bottom + 1);
    if e > 0 {
        assert(text::off(t, e) == text::off(t, e - 1) + text::clen(t[e - 1]));
        text::lemma_off_mono(t, 0, e - 1);
        text::lemma_at_unique(t, text::off(t, e) - 1, e - 1);
        if lines::line_start(t, bottom) < e {
            if bottom + 1 < lines::line_count(t) {
                lines::lemma_on_line(t, bottom, e - 1);
            } else {
                lines::lemma_line_start(t, bottom + 1);
                lines::lemma_on_line(t, bottom, e - 1);
            }
            assert(k == bottom);
        } else {
            lines::lemma_line_start(t, bottom + 1);
            lines::lemma_line_start_mono(t, bottom, bottom + 1);
            assert(bottom + 1 == lines::line_count(t));
            assert(bottom > 0);
            lines::lemma_line_raw(t, bottom - 1);
            lines::lemma_line_start_mono(t, bottom - 1, bottom);
            lines::lemma_on_line(t, bottom - 1, e - 1);
            assert(k == bottom - 1);
            assert(lines::line_text(t, bottom).len() == 0);
            assert(chars::blank(lines::line_text(t, bottom)));
        }
    } else {
        text::lemma_at_unique(t, 0, 0);
        lines::lemma_line_start(t, bottom + 1);
        lines::lemma_line_start_mono(t, bottom, bottom + 1);
        assert(bottom + 1 == lines::line_count(t));
        lines::lemma_line_start_mono(t, 0, bottom);
        assert(bottom == 0);
    }
    assert(0 <= k <= bottom);
    assert forall|j: int| k < j <= last implies #[trigger] blank_line(t, j) by {
        if j > bottom {
            assert(chars::blank(lines::line_text(t, j)));
        }
    }
    lemma_run_down(t, k, true);
    let r = run_bottom(t, k, true);
    if r < last {
        assert(blank_line(t, r + 1));
    } else if last < r {
        assert(blank_line(t, last + 1));
    }
}

/// The inner word is the longest run around the character `i` of characters
/// of its class: it holds that character, all of it is of one class, and the
/// characters on either side of it are not. On white space, and at the end of
/// the text, there is none.
pub proof fn law_inner_word(t: Seq<char>, i: int)
    requires
        0 <= i,
    ensures
        word_at(t, i) is None <==> i >= t.len() || motion::class_of(t[i]) is Space,
        word_at(t, i) matches Some((a, b)) ==> {
            &&& 0 <= a <= i < b <= t.len()
            &&& forall|k: int|
                a <= k < b ==> motion::class_of(#[trigger] t[k]) == motion::class_of(t[i])
            &&& a > 0 ==> motion::class_of(t[a - 1]) != motion::class_of(t[i])
            &&& b < t.len() ==> motion::class_of(t[b]) != motion::class_of(t[i])
        },
{
    if i < t.len() {
        let p = motion::in_class(motion::class_of(t[i]));
        text::lemma_skip_back(t, i, p);
        text::lemma_skip_fwd(t, i, p);
        assert(p(t[i]));
        text::lemma_skip_fwd(t, i + 1, p);
        assert forall|k: int|
            text::skip_back(t, i, p) <= k < text::skip_fwd(t, i, p) implies motion::class_of(
            #[trigger] t[k],
        ) == motion::class_of(t[i]) by {
            assert(p(t[k]));
        }
    }
}

/// The outer word is the inner one and the blanks and tabs after it, all of
/// them; where none follow because the line ends there, those before it, all
/// of them.
pub proof fn law_around_word(t: Seq<char>, i: int)
    requires
        0 <= i,
    ensures
        (word_around(t, i) is None) == (word_at(t, i) is None),
        word_at(t, i) matches Some((a, b)) ==> {
            let ends = b == t.len() || t[b] == '\n';
            let (c, d) = word_around(t, i)->0;
            &&& 0 <= c <= a
            &&& b <= d <= t.len()
            &&& forall|k: int| c <= k < a || b <= k < d ==> #[trigger] t[k] == ' ' || t[k] == '\t'
            &&& d < t.len() ==> t[d] != ' ' && t[d] != '\t'
            &&& !ends ==> c == a
            &&& ends && c > 0 ==> t[c - 1] != ' ' && t[c - 1] != '\t'
        },
{
    law_inner_word(t, i);
    if let Some((a, b)) = word_at(t, i) {
        text::lemma_skip_fwd(t, b, gap());
        text::lemma_skip_back(t, a, gap());
        let (c, d) = word_around(t, i)->0;
        assert forall|k: int| c <= k < a || b <= k < d implies #[trigger] t[k] == ' ' || t[k]
            == '\t' by {
            assert(gap()(t[k]));
        }
        if b < d {
            assert(gap()(t[b]));
        }
    }
}

/// Opening delimiters less closing ones among the characters `a..b`.
pub open spec fn net(t: Seq<char>, a: int, b: int, open: char, close: char) -> int
    decreases b - a,
{
    if a >= b {
        0
    } else {
        net(t, a, b - 1, open, close) + if t[b - 1] == open {
            1int
        } else if t[b - 1] == close {
            -1int
        } else {
            0int
        }
    }
}

/// `a..b` is what stands between a delimiter and its partner, and the place
/// `p` is in it and in no pair inside it.
pub open spec fn encloses(t: Seq<char>, p: int, a: int, b: int, open: char, close: char) -> bool {
    &&& 0 < a <= p <= b < t.len()
    &&& t[a - 1] == open
    &&& t[b] == close
    &&& forall|k: int| a <= k <= b ==> #[trigger] net(t, a, k, open, close) >= 0
    &&& net(t, a, b, open, close) == 0
    &&& net(t, a, p, open, close) == 0
    &&& forall|k: int| a <= k <= p ==> #[trigger] net(t, k, p, open, close) <= 0
}

proof fn lemma_net_split(t: Seq<char>, a: int, m: int, b: int, open: char, close: char)
    requires
        a <= m <= b,
    ensures
        net(t, a, b, open, close) == net(t, a, m, open, close) + net(t, m, b, open, close),
    decreases b - m,
{
    if m < b {
        lemma_net_split(t, a, m, b - 1, open, close);
    }
}

proof fn lemma_opener(t: Seq<char>, p: int, i: int, open: char, close: char, depth: int)
    requires
        0 <= i <= p <= t.len(),
        open != close,
        depth == -net(t, i, p, open, close),
        forall|k: int| i <= k <= p ==> #[trigger] net(t, k, p, open, close) <= 0,
    ensures
        match opener(t, i, open, close, depth) {
            Some(q) => {
                &&& 0 <= q < i
                &&& t[q] == open
                &&& net(t, q + 1, p, open, close) == 0
                &&& forall|k: int| q + 1 <= k <= p ==> #[trigger] net(t, k, p, open, close) <= 0
            },
            None => forall|k: int| 0 <= k <= p ==> #[trigger] net(t, k, p, open, close) <= 0,
        },
    decreases i,
{
    if i > 0 {
        lemma_net_split(t, i - 1, i, p, open, close);
        assert(net(t, i - 1, i - 1, open, close) == 0);
        assert(net(t, i - 1, i, open, close) == if t[i - 1] == open {
            1int
        } else if t[i - 1] == close {
            -1int
        } else {
            0int
        });
        if t[i - 1] == open && depth == 0 {
        } else {
            assert forall|k: int| i - 1 <= k <= p implies #[trigger] net(t, k, p, open, close)
                <= 0 by {
                if k == i - 1 {
                    assert(net(t, i, p, open, close) <= 0);
                }
            }
            lemma_opener(t, p, i - 1, open, close, -net(t, i - 1, p, open, close));
        }
    }
}

proof fn lemma_closer(t: Seq<char>, a: int, i: int, open: char, close: char, depth: int)
    requires
        0 <= a <= i <= t.len(),
        open != close,
        depth == net(t, a, i, open, close),
        forall|k: int| a <= k <= i ==> #[trigger] net(t, a, k, open, close) >= 0,
    ensures
        match closer(t, i, open, close, depth) {
            Some(q) => {
                &&& i <= q < t.len()
                &&& t[q] == close
                &&& net(t, a, q, open, close) == 0
                &&& forall|k: int| a <= k <= q ==> #[trigger] net(t, a, k, open, close) >= 0
            },
            None => forall|k: int| a <= k <= t.len() ==> #[trigger] net(t, a, k, open, close) >= 0,
        },
    decreases t.len() - i,
{
    if i < t.len() {
        let d = net(t, a, i + 1, open, close);
        assert(net(t, a, i, open, close) >= 0);
        if t[i] == close && depth == 0 {
        } else {
            assert forall|k: int| a <= k <= i + 1 implies #[trigger] net(t, a, k, open, close)
                >= 0 by {
                if k == i + 1 {
                    assert(d >= 0);
                }
            }
            lemma_closer(t, a, i + 1, open, close, d);
        }
    }
}

/// What an inner pair covers is exactly what stands between the innermost
/// opening delimiter that is open at the cursor and its partner; a cursor on
/// an opening delimiter counts as inside. There is no range when no pair
/// encloses the cursor.
pub proof fn law_pair(t: Seq<char>, i: int, open: char, close: char, a: int, b: int)
    requires
        0 <= i <= t.len(),
        open != close,
    ensures
        ({
            let p = if i < t.len() && t[i] == open {
                i + 1
            } else {
                i
            };
            pair_inside(t, i, open, close) == Some((a, b)) <==> encloses(t, p, a, b, open, close)
        }),
{
    let p = if i < t.len() && t[i] == open {
        i + 1
    } else {
        i
    };
    assert forall|k: int| p <= k <= p implies #[trigger] net(t, k, p, open, close) <= 0 by {
    }
    lemma_opener(t, p, p, open, close, 0);
    let o = opener(t, p, open, close, 0);
    if let Some(q) = o {
        assert forall|k: int| q + 1 <= k <= q + 1 implies #[trigger] net(t, q + 1, k, open, close)
            >= 0 by {
        }
        lemma_closer(t, q + 1, q + 1, open, close, 0);
        let c = closer(t, q + 1, open, close, 0);
        assert forall|k: int| q + 1 <= k <= p implies #[trigger] net(t, q + 1, k, open, close)
            >= 0 by {
            lemma_net_split(t, q + 1, k, p, open, close);
            assert(net(t, k, p, open, close) <= 0);
        }
        if let Some(r) = c {
            assert(net(t, q + 1, r + 1, open, close) == -1);
            if r < p {
                assert(net(t, q + 1, r + 1, open, close) >= 0);
            }
            assert(encloses(t, p, q + 1, r, open, close));
        }
    }
    if encloses(t, p, a, b, open, close) {
        lemma_net_split(t, a - 1, a, p, open, close);
        assert(net(t, a - 1, a - 1, open, close) == 0);
        assert(net(t, a - 1, a, open, close) == 1);
        assert(net(t, a - 1, p, open, close) == 1);
        assert(o is Some);
        let q = o->0;
        if a - 1 > q {
            assert(net(t, a - 1, p, open, close) <= 0);
        } else if q + 1 < a {
            assert(false);
        } else if a < q + 1 {
            assert(net(t, q, p, open, close) <= 0);
            lemma_net_split(t, q, q + 1, p, open, close);
            assert(net(t, q, q, open, close) == 0);
            assert(net(t, q, q + 1, open, close) == 1);
        }
        assert(q + 1 == a);
        let c = closer(t, a, open, close, 0);
        assert(net(t, a, b + 1, open, close) == -1);
        if c is None {
            assert(net(t, a, b + 1, open, close) >= 0);
        } else {
            let r = c->0;
            assert(net(t, a, r + 1, open, close) == -1);
            if r < b {
                assert(net(t, a, r + 1, open, close) >= 0);
            } else if b < r {
                assert(net(t, a, b + 1, open, close) >= 0);
            }
        }
    }
}

/// An outer pair covers the inner one and its two delimiters.
pub proof fn law_around_pair(t: Seq<char>, i: int, open: char, close: char)
    requires
        0 <= i <= t.len(),
        open != close,
    ensures
        match pair_inside(t, i, open, close) {
            Some((a, b)) => {
                &&& t[a - 1] == open
                &&& t[b] == close
                &&& widened(byte_range(t, pair_inside(t, i, open, close)), open, close) == Some(
                    (text::off(t, a - 1), text::off(t, b + 1)),
                )
            },
            None => widened(byte_range(t, pair_inside(t, i, open, close)), open, close) is None,
        },
{
    if let Some((a, b)) = pair_inside(t, i, open, close) {
        law_pair(t, i, open, close, a, b);
    }
}

/// `a` and `b` are neighbouring quotes of line `l` with byte `pos` between
/// them or on one of them; on a quote that has one before it, `b` is that
/// quote.
pub open spec fn quoted(l: Seq<char>, pos: int, q: char, a: int, b: int) -> bool {
    &&& 0 <= a < b < l.len()
    &&& l[a] == q
    &&& l[b] == q
    &&& forall|k: int| a < k < b ==> #[trigger] l[k] != q
    &&& text::off(l, a) <= pos <= text::off(l, b)
    &&& pos == text::off(l, a) ==> forall|k: int| 0 <= k < a ==> #[trigger] l[k] != q
}

proof fn lemma_quotes(l: Seq<char>, pos: int, q: char, j: int, prev: Option<int>, a: int, b: int)
    requires
        0 <= j <= l.len(),
        prev matches Some(x) ==> {
            &&& 0 <= x < j
            &&& l[x] == q
            &&& forall|k: int| x < k < j ==> #[trigger] l[k] != q
            &&& text::off(l, x) < pos || forall|k: int| 0 <= k < x ==> #[trigger] l[k] != q || pos
                < text::off(l, x)
        },
        prev is None ==> forall|k: int| 0 <= k < j ==> #[trigger] l[k] != q,
        forall|x: int, y: int| #[trigger] quoted(l, pos, q, x, y) ==> y >= j,
    ensures
        quotes(l, pos, q, j, prev) == Some((a, b)) <==> quoted(l, pos, q, a, b),
    decreases l.len() - j,
{
    if j < l.len() {
        if l[j] != q {
            assert forall|x: int, y: int| #[trigger] quoted(l, pos, q, x, y) implies y >= j + 1 by {
            }
            lemma_quotes(l, pos, q, j + 1, prev, a, b);
        } else if prev matches Some(x) && text::off(l, x) <= pos <= text::off(l, j) {
            let x = prev->0;
            if pos == text::off(l, x) {
                assert forall|k: int| 0 <= k < x implies #[trigger] l[k] != q by {
                }
            }
            assert(quoted(l, pos, q, x, j));
            if quoted(l, pos, q, a, b) {
                if b > j {
                    if a < j {
                        assert(l[j] != q);
                    } else {
                        text::lemma_off_mono(l, j, a);
                        if a > j {
                            text::lemma_off_mono(l, j, a);
                            assert(text::off(l, j) < text::off(l, a));
                        } else {
                            assert(l[x] != q);
                        }
                    }
                }
                assert(b == j);
                if a < x {
                    assert(l[x] != q);
                } else if x < a {
                    assert(l[a] != q);
                }
            }
        } else {
            assert forall|x: int, y: int| #[trigger] quoted(l, pos, q, x, y) implies y >= j + 1 by {
                if y == j {
                    if prev is Some {
                        let z = prev->0;
                        if x < z {
                            assert(l[z] != q);
                        } else if z < x {
                            assert(l[x] != q);
                        }
                    } else {
                        assert(l[x] != q);
                    }
                }
            }
            if prev is Some {
                text::lemma_off_mono(l, prev->0, j);
            }
            lemma_quotes(l, pos, q, j + 1, Some(j), a, b);
        }
    } else {
        if quoted(l, pos, q, a, b) {
            assert(b >= j);
        }
    }
}

/// What an inner quote covers is exactly what stands between the two
/// neighbouring quotes of the cursor's line around the cursor; an outer quote
/// covers the quotes as well. There is no range when there are no such quotes.
pub proof fn law_quote(t: Seq<char>, cur: int, q: char)
    requires
        0 <= cur,
    ensures
        ({
            let k = lines::line_at(t, cur);
            let s = lines::line_start(t, k);
            let l = lines::line_text(t, k);
            let pos = cur - lines::line_off(t, k);
            &&& quote_inside(t, cur, q) is None <==> forall|a: int, b: int|
                !#[trigger] quoted(l, pos, q, a, b)
            &&& forall|a: int, b: int| #[trigger]
                quoted(l, pos, q, a, b) ==> {
                    &&& quote_inside(t, cur, q) == Some(
                        (text::off(t, s + a + 1), text::off(t, s + b)),
                    )
                    &&& widened(quote_inside(t, cur, q), q, q) == Some(
                        (text::off(t, s + a), text::off(t, s + b + 1)),
                    )
                }
        }),
{
    let k = lines::line_at(t, cur);
    let s = lines::line_start(t, k);
    let l = lines::line_text(t, k);
    let pos = cur - lines::line_off(t, k);
    text::lemma_at(t, cur);
    lines::lemma_line_of(t, text::at(t, cur));
    lines::lemma_line_raw(t, k);
    assert forall|a: int, b: int| #[trigger] quoted(l, pos, q, a, b) implies {
        &&& quote_inside(t, cur, q) == Some((text::off(t, s + a + 1), text::off(t, s + b)))
        &&& widened(quote_inside(t, cur, q), q, q) == Some(
            (text::off(t, s + a), text::off(t, s + b + 1)),
        )
    } by {
        lemma_quotes(l, pos, q, 0, None, a, b);
        assert(text::off(l, a + 1) == text::off(t, s + (a + 1)) - lines::line_off(t, k));
        assert(text::off(l, b) == text::off(t, s + b) - lines::line_off(t, k));
        assert(t[s + a] == l[a]);
        assert(t[s + b] == l[b]);
    }
    if let Some((a, b)) = quotes(l, pos, q, 0, None) {
        lemma_quotes(l, pos, q, 0, None, a, b);
        assert(quoted(l, pos, q, a, b));
    }
}

} // verus!
