//! What changes do to the text: laws of the operators and the puts.

use vstd::prelude::*;
use vstd::string::*;
use crate::chars;
use crate::editor::actions;
use crate::editor::cursor;
use crate::editor::items;
use crate::editor::motions;
use crate::editor::ops;
use crate::editor::state;
use crate::editor::state::EdV;
use crate::editor::typing;
use crate::layout;
use crate::lines;
use crate::motion;
use crate::register::{YankKind, YankV};
use crate::strs;
use crate::text;

verus! {

/// An edit between two characters of the text leaves what stands before the
/// first and from the second on, with the new text in between.
pub proof fn law_edit(s: EdV, i: int, j: int, r: Seq<char>)
    requires
        0 <= i <= j <= s.buf.text.len(),
    ensures
        ({
            let t = s.buf.text;
            s.edit(text::off(t, i), text::off(t, j), r).buf.text == t.take(i) + r + t.skip(j)
        }),
{
    let t = s.buf.text;
    text::lemma_at_off(t, i);
    text::lemma_at_off(t, j);
    text::lemma_off_mono(t, i, j);
    cursor::lemma_legal(t, text::off(t, i));
    cursor::lemma_legal(t, text::off(t, j));
}

/// The cursor goes to any character that is no line feed.
pub proof fn law_goto(s: EdV, x: int)
    requires
        0 <= x < s.buf.text.len(),
        s.buf.text[x] != '\n',
    ensures
        ({
            let t = s.buf.text;
            let r = s.goto(text::off(t, x));
            &&& r.cursor() == text::off(t, x)
            &&& r.line == lines::line_of(t, x)
            &&& r.buf == s.buf
        }),
{
    let t = s.buf.text;
    let b = text::off(t, x);
    text::lemma_at_off(t, x);
    lines::lemma_line_of(t, x);
    let k = lines::line_of(t, x);
    lines::lemma_line_raw(t, k);
    let l = lines::line_text(t, k);
    let j = x - lines::line_start(t, k);
    if k + 1 >= lines::line_count(t) {
        lines::lemma_line_start(t, k + 1);
    }
    assert(lines::line_raw(t, k)[j] == t[x]);
    assert(j < l.len());
    assert(text::off(l, j) == b - lines::line_off(t, k));
    text::lemma_at_off(l, j);
    text::lemma_off_mono(l, j + 1, l.len() as int);
    assert(text::off(l, j + 1) == text::off(l, j) + text::clen(l[j]));
    text::lemma_off_mono(l, 0, j);
}

/// A text repeated is written so many times in a row.
pub proof fn law_repeated(p: Seq<char>, m: int, n: int)
    requires
        0 <= m,
        0 <= n,
    ensures
        strs::repeated(p, 0).len() == 0,
        strs::repeated(p, 1) == p,
        strs::repeated(p, m + n) == strs::repeated(p, m) + strs::repeated(p, n),
    decreases n,
{
    assert(strs::repeated(p, 1) =~= strs::repeated(p, 0) + p);
    if n > 0 {
        law_repeated(p, m, n - 1);
        assert(strs::repeated(p, m + n) == strs::repeated(p, m + n - 1) + p);
        assert(strs::repeated(p, m + n) =~= strs::repeated(p, m) + strs::repeated(p, n));
    } else {
        assert(strs::repeated(p, m + n) =~= strs::repeated(p, m) + strs::repeated(p, n));
    }
}

/// Deleting or changing a range of characters takes them, and nothing else,
/// out of the text and into the unnamed register and the one that was named;
/// the other registers stay as they are. A change goes on to insert where the
/// range was.
pub proof fn law_range_removed(s: EdV, op: char, i: int, j: int)
    requires
        0 <= i < j <= s.buf.text.len(),
        op == 'd' || op == 'c',
    ensures
        ({
            let t = s.buf.text;
            let r = s.op_charwise(op, text::off(t, i), text::off(t, j));
            let y = (YankV { text: t.subrange(i, j), kind: YankKind::Charwise });
            &&& r.buf.text == t.take(i) + t.skip(j)
            &&& forall|c: char|
                #![trigger r.regs.slots.contains_key(c)]
                if c == '"' || s.pending.register == Some(c) {
                    r.regs.slots.contains_key(c) && r.regs.slots[c] == y
                } else {
                    &&& r.regs.slots.contains_key(c) == s.regs.slots.contains_key(c)
                    &&& r.regs.slots[c] == s.regs.slots[c]
                }
            &&& r.regs.outgoing == Some(t.subrange(i, j))
            &&& op == 'c' ==> r.mode is Insert && r.cursor() == text::off(t, i)
            &&& op == 'd' ==> r.mode == s.mode
            &&& op == 'd' && j < t.len() && t[j] != '\n' ==> r.cursor() == text::off(t, i)
        }),
{
    reveal(EdV::op_charwise);
    let t = s.buf.text;
    text::lemma_at_off(t, i);
    text::lemma_at_off(t, j);
    text::lemma_off_mono(t, i, j);
    cursor::lemma_legal(t, text::off(t, i));
    cursor::lemma_legal(t, text::off(t, j));
    assert(s.taken(text::off(t, i), text::off(t, j)) =~= t.subrange(i, j));
    let c = s.cut(t.subrange(i, j), YankKind::Charwise);
    law_edit(c, i, j, Seq::empty());
    let e = c.edit(text::off(t, i), text::off(t, j), Seq::empty());
    let u = e.buf.text;
    assert(u =~= t.take(i) + t.skip(j));
    text::lemma_off_prefix(t, u, i);
    if op == 'c' {
        lemma_goto_insert(e.enter_insert(), i);
    } else if j < t.len() && t[j] != '\n' {
        law_goto(e, i);
    }
}

/// In Insert mode the cursor goes to any character and to the end.
pub proof fn lemma_goto_insert(s: EdV, x: int)
    requires
        0 <= x <= s.buf.text.len(),
        s.mode is Insert || s.mode is Replace,
    ensures
        ({
            let t = s.buf.text;
            let r = s.goto(text::off(t, x));
            &&& r.cursor() == text::off(t, x)
            &&& r.line == lines::line_of(t, x)
            &&& r.buf == s.buf
        }),
{
    let t = s.buf.text;
    let b = text::off(t, x);
    text::lemma_at_off(t, x);
    lines::lemma_line_of(t, x);
    let k = lines::line_of(t, x);
    lines::lemma_line_raw(t, k);
    let l = lines::line_text(t, k);
    let j = x - lines::line_start(t, k);
    if k + 1 >= lines::line_count(t) {
        lines::lemma_line_start(t, k + 1);
    }
    if x == t.len() && k + 1 >= lines::line_count(t) && j > 0 {
        assert(lines::line_raw(t, k)[j - 1] == t[x - 1]);
        if t[x - 1] == '\n' {
            assert(lines::is_break(t, x - 1));
            assert(lines::breaks(t, x) == lines::breaks(t, x - 1) + 1);
            lines::lemma_line_start(t, k);
            lines::lemma_breaks_mono(t, lines::line_start(t, k), x - 1);
        }
    }
    assert(j <= l.len());
    assert(text::off(l, j) == b - lines::line_off(t, k));
    text::lemma_at_off(l, j);
    text::lemma_off_mono(l, j, l.len() as int);
    text::lemma_off_mono(l, 0, j);
}

/// Yanking a range of characters leaves the text and the cursor alone, and
/// puts those characters into the unnamed register, register 0 and the one
/// that was named.
pub proof fn law_range_yanked(s: EdV, i: int, j: int)
    requires
        0 <= i < j <= s.buf.text.len(),
    ensures
        ({
            let t = s.buf.text;
            let r = s.op_charwise('y', text::off(t, i), text::off(t, j));
            let y = (YankV { text: t.subrange(i, j), kind: YankKind::Charwise });
            &&& r.buf == s.buf
            &&& r.line == s.line && r.col == s.col && r.mode == s.mode
            &&& forall|c: char|
                #![trigger r.regs.slots.contains_key(c)]
                if c == '"' || c == '0' || s.pending.register == Some(c) {
                    r.regs.slots.contains_key(c) && r.regs.slots[c] == y
                } else {
                    &&& r.regs.slots.contains_key(c) == s.regs.slots.contains_key(c)
                    &&& r.regs.slots[c] == s.regs.slots[c]
                }
            &&& r.regs.outgoing == Some(t.subrange(i, j))
        }),
{
    reveal(EdV::op_charwise);
    let t = s.buf.text;
    text::lemma_at_off(t, i);
    text::lemma_at_off(t, j);
    text::lemma_off_mono(t, i, j);
    cursor::lemma_legal(t, text::off(t, i));
    cursor::lemma_legal(t, text::off(t, j));
    assert(s.taken(text::off(t, i), text::off(t, j)) =~= t.subrange(i, j));
}

/// The cursor stands on the character `i`, which is one of its line's.
pub open spec fn stands_on(s: EdV, i: int) -> bool {
    let t = s.buf.text;
    &&& 0 <= s.line < lines::line_count(t)
    &&& lines::line_start(t, s.line) <= i
    &&& i < lines::line_start(t, s.line) + lines::line_text(t, s.line).len()
    &&& lines::line_off(t, s.line) + s.col == text::off(t, i)
}

pub proof fn lemma_stands_on(s: EdV, i: int)
    requires
        stands_on(s, i),
    ensures
        0 <= i < s.buf.text.len(),
        0 <= s.col < s.line_len(),
        s.cursor() == text::off(s.buf.text, i),
        s.after_char() == text::off(s.buf.text, i + 1),
        text::at(s.line_text(s.line), s.col) == i - lines::line_start(s.buf.text, s.line),
        s.line_text(s.line)[i - lines::line_start(s.buf.text, s.line)] == s.buf.text[i],
{
    let t = s.buf.text;
    let l = s.line_text(s.line);
    let st = lines::line_start(t, s.line);
    let j = i - st;
    lines::lemma_line_raw(t, s.line);
    assert(text::off(l, j) == text::off(t, st + j) - lines::line_off(t, s.line));
    assert(text::off(l, j + 1) == text::off(t, st + (j + 1)) - lines::line_off(t, s.line));
    text::lemma_off_mono(l, 0, j);
    text::lemma_off_mono(l, j, j + 1);
    text::lemma_off_mono(l, j + 1, l.len() as int);
    text::lemma_at_off(l, j);
}

/// With `p`, characters from a register come right after the character at the
/// cursor, as many times over as the count says; with `P` right before it.
/// All the rest of the text stays in its place. The cursor comes to stand on
/// the last character put.
pub proof fn law_put_chars(s: EdV, after: bool, count: int, i: int, name: char)
    requires
        stands_on(s, i),
        0 <= count,
        name == (match s.pending.register {
            Some(c) => c,
            None => '"',
        }),
        s.regs.slots.contains_key(name),
        s.regs.slots[name].kind is Charwise,
    ensures
        ({
            let t = s.buf.text;
            let p = if after {
                i + 1
            } else {
                i
            };
            let n = if count == 0 {
                1
            } else {
                count
            };
            let put = strs::repeated(s.regs.slots[name].text, n);
            let r = s.put(after, count);
            &&& r.buf.text == t.take(p) + put + t.skip(p)
            &&& r.regs == s.regs
            &&& put.len() > 0 && put.last() != '\n' ==> r.cursor() == text::off(
                r.buf.text,
                p + put.len() - 1,
            )
        }),
{
    reveal(EdV::put);
    let t = s.buf.text;
    lemma_stands_on(s, i);
    let p = if after {
        i + 1
    } else {
        i
    };
    let put = strs::repeated(s.regs.slots[name].text, ops::at_least_one(count));
    assert(s.put(after, count) == s.put_chars(put, after));
    law_edit(s, p, p, put);
    text::lemma_off_mono(t, 0, p);
    let at = text::off(t, p);
    let e = s.edit(at, at, put);
    let u = e.buf.text;
    assert(u =~= t.take(p) + put + t.skip(p));
    if put.len() > 0 && put.last() != '\n' {
        let x = p + put.len() - 1;
        text::lemma_off_prefix(t, u, p);
        text::lemma_off_add(t.take(p), put + t.skip(p), put.len() as int);
        assert(u =~= t.take(p) + (put + t.skip(p)));
        text::lemma_off_prefix(t.take(p), t, p);
        text::lemma_off_prefix(put, put + t.skip(p), put.len() as int);
        assert(text::off(u, x + 1) == at + text::blen(put));
        assert(u[x] == put.last());
        assert(text::off(u, x + 1) == text::off(u, x) + text::clen(u[x]));
        text::lemma_off_mono(u, 0, x);
        text::lemma_at_unique(u, text::off(u, x + 1) - 1, x);
        text::lemma_off_mono(u, p, x);
        law_goto(e, x);
    }
}

/// Lines put with `p` come right below the cursor's line, and with `P` right
/// above it, and the rest of the text stays. Below the last line they follow
/// at the end, on a line of their own. The cursor goes to the first of them.
pub proof fn law_put_lines(s: EdV, after: bool, count: int, name: char)
    requires
        0 <= s.line < s.line_count() < usize::MAX,
        0 <= count,
        name == (match s.pending.register {
            Some(c) => c,
            None => '"',
        }),
        s.regs.slots.contains_key(name),
        s.regs.slots[name].kind is Linewise,
    ensures
        ({
            let t = s.buf.text;
            let n = if count == 0 {
                1
            } else {
                count
            };
            let put = strs::repeated(s.regs.slots[name].text, n);
            let k = if after {
                s.line + 1
            } else {
                s.line
            };
            let p = lines::line_start(t, k);
            let r = s.put(after, count);
            &&& k < s.line_count() ==> r.buf.text == t.take(p) + put + t.skip(p)
            &&& k < s.line_count() ==> r.line == k && r.col == 0
            &&& k == s.line_count() && t.len() > 0 && t.last() == '\n' ==> r.buf.text == t + put
            &&& k == s.line_count() && (t.len() == 0 || t.last() != '\n') ==> r.buf.text == t.push(
                '\n',
            ) + put
            &&& k == s.line_count() ==> r.line == r.line_count() - 1
            &&& r.regs == s.regs
        }),
{
    reveal(EdV::put);
    let t = s.buf.text;
    let put = strs::repeated(s.regs.slots[name].text, ops::at_least_one(count));
    let k = if after {
        s.line + 1
    } else {
        s.line
    };
    assert(s.put(after, count) == s.put_lines(put, after));
    if k < s.line_count() {
        let p = lines::line_start(t, k);
        lines::lemma_line_start(t, k);
        law_edit(s, p, p, put);
        let at = lines::line_off(t, k);
        let e = s.edit(at, at, put);
        let u = e.buf.text;
        assert(u =~= t.take(p) + put + t.skip(p));
        cursor::lemma_place(e, k, 0);
        cursor::lemma_line_off(u, k);
        assert(e.place(k, 0).col == 0);
    } else {
        let n = t.len() as int;
        reveal_strlit("\n");
        reveal_strlit("");
        law_edit(s, n, n, ops::missing_lf(t) + put);
        let u = s.edit(text::blen(t), text::blen(t), ops::missing_lf(t) + put).buf.text;
        assert(u =~= t + (ops::missing_lf(t) + put));
        if t.len() > 0 && t.last() == '\n' {
            assert(u =~= t + put);
        } else {
            assert(u =~= t.push('\n') + put);
        }
    }
}

// ── Single characters and lines ─────────────────────────────────────────

/// The head of the cursor's line does not follow a lone carriage return, with
/// which a line feed put there would grow together.
pub open spec fn firm(s: EdV) -> bool {
    s.line == 0 || s.buf.text[lines::line_start(s.buf.text, s.line) - 1] != '\r'
}

/// A change behind the head of the cursor's line leaves the head in place.
pub proof fn lemma_head_stays(s: EdV, u: Seq<char>)
    requires
        0 <= s.line < s.line_count(),
        firm(s),
        lines::line_start(s.buf.text, s.line) <= u.len(),
        u.take(lines::line_start(s.buf.text, s.line)) == s.buf.text.take(
            lines::line_start(s.buf.text, s.line),
        ),
    ensures
        lines::line_start(u, s.line) == lines::line_start(s.buf.text, s.line),
        lines::line_off(u, s.line) == lines::line_off(s.buf.text, s.line),
{
    let t = s.buf.text;
    let p = lines::line_start(t, s.line);
    lines::lemma_line_start(t, s.line);
    if p == 0 && s.line > 0 {
        lines::lemma_line_start_mono(t, 0, s.line);
        lines::lemma_line_start(t, 0);
    }
    lines::lemma_prefix_line(t, u, p, s.line, s.line);
    assert forall|k: int| 0 <= k < p implies t[k] == u[k] by {
        assert(t.take(p)[k] == u.take(p)[k]);
    }
    text::lemma_off_prefix(t, u, p);
}

/// The cursor put at column `col` of its line stands on the character there.
pub proof fn lemma_put_at(s: EdV, col: int, x: int)
    requires
        0 <= s.line,
        0 <= x <= s.buf.text.len(),
        0 <= col,
        lines::line_off(s.buf.text, s.line) + col == text::off(s.buf.text, x),
    ensures
        s.place(s.line, col).cursor() == text::off(s.buf.text, x),
        s.place(s.line, col).col == col,
{
    text::lemma_at_off(s.buf.text, x);
    cursor::lemma_place(s, s.line, col);
}

/// `x` takes out the character at the cursor and nothing else.
pub proof fn law_cross_out(s: EdV, i: int)
    requires
        stands_on(s, i),
    ensures
        s.cross_out().buf.text == s.buf.text.take(i) + s.buf.text.skip(i + 1),
        s.cross_out().line == s.line,
        s.cross_out().regs == s.regs,
{
    reveal(EdV::cross_out);
    lemma_stands_on(s, i);
    law_edit(s, i, i + 1, Seq::empty());
    let t = s.buf.text;
    assert(t.take(i) + Seq::<char>::empty() + t.skip(i + 1) =~= t.take(i) + t.skip(i + 1));
}

/// `X` takes out the character before the cursor, which then stands where that
/// one stood; at the head of a line it does nothing.
pub proof fn law_cross_back(s: EdV, i: int)
    requires
        stands_on(s, i),
        firm(s),
    ensures
        ({
            let t = s.buf.text;
            let r = s.cross_back();
            if i == lines::line_start(t, s.line) {
                r == s
            } else {
                &&& r.buf.text == t.take(i - 1) + t.skip(i)
                &&& r.cursor() == text::off(r.buf.text, i - 1)
            }
        }),
{
    reveal(EdV::cross_back);
    lemma_stands_on(s, i);
    let t = s.buf.text;
    let l = s.line_text(s.line);
    let st = lines::line_start(t, s.line);
    lines::lemma_line_raw(t, s.line);
    if i > st {
        let j = i - st;
        assert(text::off(l, j) == text::off(t, st + j) - lines::line_off(t, s.line));
        assert(text::off(l, j - 1) == text::off(t, st + (j - 1)) - lines::line_off(t, s.line));
        assert(text::off(l, j) == text::off(l, j - 1) + text::clen(l[j - 1]));
        text::lemma_off_mono(l, 0, j - 1);
        text::lemma_at_unique(l, s.col - 1, j - 1);
        law_edit(s, i - 1, i, Seq::empty());
        assert(t.take(i - 1) + Seq::<char>::empty() + t.skip(i) =~= t.take(i - 1) + t.skip(i));
        let o = lines::line_off(t, s.line);
        let e = s.edit(o + text::off(l, j - 1), o + s.col, Seq::empty());
        let u = e.buf.text;
        assert(u.take(st) =~= t.take(st));
        lemma_head_stays(s, u);
        text::lemma_off_prefix(t, u, i - 1);
        lemma_put_at(e, text::off(l, j - 1), i - 1);
    } else {
        assert(text::off(l, 0) == text::off(t, st + 0) - lines::line_off(t, s.line));
        assert(s.col == 0);
    }
}

/// `r` puts another character in place of the one at the cursor, which stays
/// where it is; the rest of the text does not change.
pub proof fn law_replace_char(s: EdV, i: int, c: char)
    requires
        stands_on(s, i),
        firm(s),
    ensures
        s.replace_char(c).buf.text == s.buf.text.update(i, c),
        s.replace_char(c).cursor() == s.cursor(),
{
    reveal(EdV::replace_char);
    lemma_stands_on(s, i);
    let t = s.buf.text;
    law_edit(s, i, i + 1, seq![c]);
    assert(t.take(i) + seq![c] + t.skip(i + 1) =~= t.update(i, c));
    let e = s.edit(s.cursor(), s.after_char(), seq![c]);
    let u = e.buf.text;
    let st = lines::line_start(t, s.line);
    lines::lemma_line_start(t, s.line);
    assert(u.take(st) =~= t.take(st));
    lemma_head_stays(s, u);
    text::lemma_off_prefix(t, u, i);
    lemma_put_at(e, s.col, i);
}

/// `~` turns the letter at the cursor into the same letter of the other case,
/// for the letters from A to Z, and leaves any other character; the cursor
/// goes on to the next place.
pub proof fn law_flip_char(s: EdV, i: int)
    requires
        stands_on(s, i),
        firm(s),
    ensures
        ({
            let t = s.buf.text;
            let r = s.flip_char();
            let c = t[i];
            let d = r.buf.text[i];
            &&& r.buf.text == t.update(i, d)
            &&& 'A' <= c <= 'Z' ==> 'a' <= d <= 'z' && d as u32 - 'a' as u32 == c as u32
                - 'A' as u32
            &&& 'a' <= c <= 'z' ==> 'A' <= d <= 'Z' && d as u32 - 'A' as u32 == c as u32
                - 'a' as u32
            &&& !('A' <= c <= 'Z') && !('a' <= c <= 'z') ==> d == c
            &&& r.cursor() == text::off(r.buf.text, i + 1)
        }),
{
    reveal(EdV::flip_char);
    lemma_stands_on(s, i);
    let t = s.buf.text;
    let c = t[i];
    let d = actions::flipped(c);
    assert(text::clen(d) == text::clen(c));
    assert(text::off(t, i + 1) == text::off(t, i) + text::clen(c));
    law_edit(s, i, i + 1, seq![d]);
    assert(t.take(i) + seq![d] + t.skip(i + 1) =~= t.update(i, d));
    let e = s.edit(s.cursor(), s.cursor() + text::clen(c), seq![d]);
    let u = e.buf.text;
    let st = lines::line_start(t, s.line);
    lines::lemma_line_start(t, s.line);
    assert(u.take(st) =~= t.take(st));
    lemma_head_stays(s, u);
    text::lemma_off_prefix(t, u, i);
    assert(text::off(u, i + 1) == text::off(u, i) + text::clen(u[i]));
    lemma_put_at(e, s.col + text::clen(d), i + 1);
}

/// `i` starts to insert before the character at the cursor, `a` after it, `I`
/// at the head of the line and `A` at its end. None of them changes the text.
pub proof fn law_where_inserting_starts(s: EdV, i: int)
    requires
        stands_on(s, i),
    ensures
        ({
            let t = s.buf.text;
            let st = lines::line_start(t, s.line);
            let n = lines::line_text(t, s.line).len();
            &&& s.enter_insert().cursor() == text::off(t, i)
            &&& s.append().cursor() == text::off(t, i + 1)
            &&& s.insert_first().cursor() == text::off(t, st)
            &&& s.append_last().cursor() == text::off(t, st + n)
            &&& s.append().mode is Insert && s.append().buf == s.buf
            &&& s.insert_first().mode is Insert && s.insert_first().buf == s.buf
            &&& s.append_last().mode is Insert && s.append_last().buf == s.buf
            &&& s.enter_insert().mode is Insert && s.enter_insert().buf == s.buf
        }),
{
    reveal(EdV::append);
    reveal(EdV::insert_first);
    reveal(EdV::append_last);
    lemma_stands_on(s, i);
    let t = s.buf.text;
    let l = s.line_text(s.line);
    let st = lines::line_start(t, s.line);
    lines::lemma_line_raw(t, s.line);
    let j = i - st;
    assert(text::off(l, j + 1) == text::off(t, st + (j + 1)) - lines::line_off(t, s.line));
    assert(text::off(l, l.len() as int) == text::off(t, st + l.len()) - lines::line_off(t, s.line));
    text::lemma_off_mono(l, 0, j + 1);
    text::lemma_off_mono(l, 0, l.len() as int);
    lemma_put_at(s, text::off(l, j + 1), i + 1);
    lemma_put_at(s, 0, st);
    lemma_put_at(s, text::blen(l), st + l.len());
}

/// Line `k` starts with `n` tabs, blanks and asterisks, and no more.
pub open spec fn led_by(s: EdV, k: int, n: int) -> bool {
    let l = s.line_text(k);
    &&& 0 <= n <= l.len()
    &&& forall|j: int| 0 <= j < n ==> (#[trigger] l[j] == '\t' || l[j] == ' ' || l[j] == '*')
    &&& n < l.len() ==> l[n] != '\t' && l[n] != ' ' && l[n] != '*'
}

proof fn lemma_led_by(s: EdV, n: int)
    requires
        led_by(s, s.line, n),
    ensures
        s.inherited() == s.line_text(s.line).take(n),
{
    let l = s.line_text(s.line);
    let f = items::lead_fn();
    text::lemma_skip_fwd(l, 0, f);
    let m = items::lead(l);
    if m < n {
        assert(f(l[m]));
    } else if n < m {
        assert(f(l[n]));
    }
}

/// `o` puts a line below the cursor's, empty but for the indentation of the
/// cursor's line. Nothing else changes, and inserting goes on there. Where the
/// cursor's line is a closed fold, the line comes below all of it.
pub proof fn law_open_below(s: EdV, n: int)
    requires
        0 <= s.line < s.line_count() < usize::MAX,
        led_by(s, s.line, n),
        !s.folds.closed.contains(s.line),
    ensures
        ({
            let t = s.buf.text;
            let l = s.line_text(s.line);
            let e = lines::line_start(t, s.line) + l.len();
            let r = s.open_below();
            &&& r.buf.text == t.take(e) + seq!['\n'] + l.take(n) + t.skip(e)
            &&& r.line == s.line + 1
            &&& r.mode is Insert
        }),
{
    reveal(EdV::open_below);
    reveal_strlit("\n");
    assert("\n"@ =~= seq!['\n']);
    let t = s.buf.text;
    let l = s.line_text(s.line);
    let e = lines::line_start(t, s.line) + l.len();
    let d = l.take(n);
    lemma_led_by(s, n);
    lines::lemma_line_raw(t, s.line);
    law_edit(s, e, e, "\n"@ + d);
    assert(t.take(e) + ("\n"@ + d) + t.skip(e) =~= t.take(e) + seq!['\n'] + d + t.skip(e));
}

/// `O` puts such a line above the cursor's, and inserting goes on at its end.
pub proof fn law_open_above(s: EdV, n: int)
    requires
        0 <= s.line < s.line_count(),
        led_by(s, s.line, n),
        firm(s),
    ensures
        ({
            let t = s.buf.text;
            let l = s.line_text(s.line);
            let st = lines::line_start(t, s.line);
            let r = s.open_above();
            &&& r.buf.text == t.take(st) + (l.take(n) + seq!['\n']) + t.skip(st)
            &&& r.line == s.line
            &&& r.mode is Insert
            &&& r.cursor() == text::off(r.buf.text, st + n)
        }),
{
    reveal(EdV::open_above);
    reveal_strlit("\n");
    assert("\n"@ =~= seq!['\n']);
    let t = s.buf.text;
    let l = s.line_text(s.line);
    let st = lines::line_start(t, s.line);
    let d = l.take(n);
    lemma_led_by(s, n);
    lines::lemma_line_raw(t, s.line);
    let x = d + "\n"@;
    law_edit(s, st, st, x);
    let o = lines::line_off(t, s.line);
    let q = s.edit(o, o, x);
    let u = q.buf.text;
    assert(u.take(st) =~= t.take(st));
    lemma_head_stays(s, u);
    assert(u =~= t.take(st) + d + ("\n"@ + t.skip(st)));
    lemma_off_inside(t.take(st), d, "\n"@ + t.skip(st));
    text::lemma_off_prefix(t.take(st), t, st);
    text::lemma_off_mono(d, 0, n);
    lemma_put_at(q, text::blen(d), st + n);
}

proof fn lemma_off_inside(a: Seq<char>, d: Seq<char>, b: Seq<char>)
    ensures
        text::off(a + d + b, (a.len() + d.len()) as int) == text::blen(a) + text::blen(d),
{
    text::lemma_off_prefix(a + d + b, a + d, (a + d).len() as int);
    text::lemma_blen_add(a, d);
}

/// `D` and `C` take out everything from the cursor to the end of its line.
pub proof fn law_to_end_removed(s: EdV, i: int, op: char)
    requires
        stands_on(s, i),
        op == 'd' || op == 'c',
    ensures
        ({
            let t = s.buf.text;
            let e = lines::line_start(t, s.line) + lines::line_text(t, s.line).len();
            let r = s.op_to_end(op);
            &&& r.buf.text == t.take(i) + t.skip(e)
            &&& r.regs.slots.contains_key('"')
            &&& r.regs.slots['"'] == (YankV { text: t.subrange(i, e), kind: YankKind::Charwise })
        }),
{
    reveal(EdV::op_to_end);
    lemma_stands_on(s, i);
    let t = s.buf.text;
    let l = s.line_text(s.line);
    let st = lines::line_start(t, s.line);
    let e = st + l.len();
    lines::lemma_line_raw(t, s.line);
    text::lemma_at_off(t, i);
    lines::lemma_on_line(t, s.line, i);
    assert(text::off(l, l.len() as int) == text::off(t, st + l.len()) - lines::line_off(t, s.line));
    assert(s.line_end_here() == text::off(t, e));
    law_range_removed(s, op, i, e);
    let r = s.op_charwise(op, text::off(t, i), text::off(t, e));
    assert(r.regs.slots.contains_key('"'));
}

/// `J` puts the next line after the cursor's, in place of the line break and
/// the white space that the next line starts with: with one blank between
/// them, or none when the next line is blank.
pub proof fn law_join(s: EdV, i: int, n: int)
    requires
        0 <= s.line,
        s.line + 1 < s.line_count(),
        lines::line_start(s.buf.text, s.line) <= i < lines::line_start(s.buf.text, s.line + 1),
        s.cursor() == text::off(s.buf.text, i),
        0 <= n <= s.line_text(s.line + 1).len(),
        forall|k: int| 0 <= k < n ==> chars::is_space(#[trigger] s.line_text(s.line + 1)[k]),
        n < s.line_text(s.line + 1).len() ==> !chars::is_space(s.line_text(s.line + 1)[n]),
    ensures
        ({
            let t = s.buf.text;
            let e = lines::line_start(t, s.line) + lines::line_text(t, s.line).len();
            let f = lines::line_start(t, s.line + 1) + n;
            let gap: Seq<char> = if n < s.line_text(s.line + 1).len() {
                seq![' ']
            } else {
                seq![]
            };
            s.join_line().buf.text == t.take(e) + gap + t.skip(f)
        }),
{
    reveal(EdV::join_line);
    let t = s.buf.text;
    let l = s.line_text(s.line);
    let m = s.line_text(s.line + 1);
    let st = lines::line_start(t, s.line);
    let e = st + l.len();
    let f = lines::line_start(t, s.line + 1) + n;
    lines::lemma_line_raw(t, s.line);
    lines::lemma_line_raw(t, s.line + 1);
    text::lemma_at_off(t, i);
    lines::lemma_on_line(t, s.line, i);
    assert(text::off(l, l.len() as int) == text::off(t, st + l.len()) - lines::line_off(t, s.line));
    assert(s.line_end_here() == text::off(t, e));
    let g = chars::space_fn();
    text::lemma_skip_fwd(m, 0, g);
    let k = text::skip_fwd(m, 0, g);
    if k < n {
        assert(g(m[k]));
    } else if n < k {
        assert(g(m[n]));
    }
    assert(text::off(m, n) == text::off(t, lines::line_start(t, s.line + 1) + n) - lines::line_off(
        t,
        s.line + 1,
    ));
    assert(chars::blank(m) == (n == m.len())) by {
        if n < m.len() {
            assert(!chars::is_space(m[n]));
        }
    }
    reveal_strlit(" ");
    reveal_strlit("");
    assert(" "@ =~= seq![' ']);
    assert(""@ =~= Seq::<char>::empty());
    law_edit(s, e, f, if chars::blank(m) { ""@ } else { " "@ });
}

/// An operator on whole lines, `a` being where the first of them starts and
/// `b` where the line after the last one does: `d` takes them out, `c` leaves
/// one empty line in their place to insert on, and `y` leaves the text. All
/// three put the lines, whole, into the unnamed register.
pub proof fn law_lines_removed(s: EdV, op: char, from: int, extra: int)
    requires
        0 <= from < s.line_count() < usize::MAX,
        0 <= extra < usize::MAX - from,
        s.pending.operator == Some(op),
        op == 'd' || op == 'c' || op == 'y',
    ensures
        ({
            let t = s.buf.text;
            let to = if from + extra < s.line_count() {
                from + extra
            } else {
                s.line_count() - 1
            };
            let a = lines::line_start(t, from);
            let b = lines::line_start(t, to + 1);
            let taken = t.subrange(a, b);
            let whole = if taken.len() > 0 && taken.last() == '\n' {
                taken
            } else {
                taken.push('\n')
            };
            let r = s.op_linewise(from, extra);
            &&& op == 'd' ==> r.buf.text == t.take(a) + t.skip(b)
            &&& op == 'c' ==> r.buf.text == t.take(a) + seq!['\n'] + t.skip(b)
            &&& op == 'c' ==> r.mode is Insert
            &&& op != 'c' ==> r.mode == s.mode
            &&& op == 'y' ==> r.buf == s.buf && r.line == s.line && r.col == s.col
            &&& r.regs.slots.contains_key('"')
            &&& r.regs.slots['"'] == (YankV { text: whole, kind: YankKind::Linewise })
            &&& s.pending.register matches Some(c) ==> r.regs.slots.contains_key(c)
                && r.regs.slots[c] == r.regs.slots['"']
            &&& op == 'd' ==> r.col == 0 && r.line == state::min(from, r.line_count() - 1)
        }),
{
    reveal(EdV::op_linewise);
    reveal(EdV::lines_cut);
    reveal(EdV::lines_changed);
    let t = s.buf.text;
    let to = state::min(state::plus(from, extra), s.last_line());
    let a = lines::line_start(t, from);
    let b = lines::line_start(t, to + 1);
    lines::lemma_line_start(t, from);
    lines::lemma_line_start(t, to + 1);
    lines::lemma_line_start_mono(t, from, to + 1);
    text::lemma_at_off(t, a);
    text::lemma_at_off(t, b);
    text::lemma_off_mono(t, a, b);
    cursor::lemma_legal(t, text::off(t, a));
    cursor::lemma_legal(t, text::off(t, b));
    assert(s.taken(text::off(t, a), text::off(t, b)) =~= t.subrange(a, b));
    let y = ops::with_lf(t.subrange(a, b));
    let c = s.cut(y, YankKind::Linewise);
    reveal_strlit("\n");
    assert("\n"@ =~= seq!['\n']);
    law_edit(c, a, b, Seq::empty());
    law_edit(c, a, b, "\n"@);
    assert(t.take(a) + Seq::<char>::empty() + t.skip(b) =~= t.take(a) + t.skip(b));
    let e = c.edit(text::off(t, a), text::off(t, b), Seq::empty());
    let k = state::min(from, e.last_line());
    lines::lemma_line_start(e.buf.text, 0);
    cursor::lemma_line_off(e.buf.text, k);
    cursor::lemma_place(e, k, 0);
}

/// The range of a selection by character goes from its first character to its
/// last, both of them in it, whichever end the cursor is at.
pub proof fn law_selection(s: EdV, i: int, j: int)
    requires
        0 <= i < s.buf.text.len(),
        0 <= j < s.buf.text.len(),
        s.anchor == text::off(s.buf.text, i),
        s.cursor() == text::off(s.buf.text, j),
    ensures
        s.visual_range() == (
            text::off(s.buf.text, if i < j { i } else { j }),
            text::off(s.buf.text, if i < j { j + 1 } else { i + 1 }),
        ),
{
    let t = s.buf.text;
    text::lemma_at_off(t, i);
    text::lemma_at_off(t, j);
    text::lemma_off_mono(t, i + 1, t.len() as int);
    text::lemma_off_mono(t, j + 1, t.len() as int);
    assert(text::off(t, i + 1) == text::off(t, i) + text::clen(t[i]));
    assert(text::off(t, j + 1) == text::off(t, j) + text::clen(t[j]));
    if i < j {
        text::lemma_off_mono(t, i, j);
    } else {
        text::lemma_off_mono(t, j, i);
    }
}

/// The range of a selection by line goes from the head of its first line to
/// the head of the line after its last, whichever end the cursor is at.
pub proof fn law_selected_lines(s: EdV)
    ensures
        ({
            let t = s.buf.text;
            let (a, b) = s.visual_line_range();
            &&& s.anchor_line <= s.line ==> a == lines::line_off(t, s.anchor_line) && b
                == lines::line_off(t, s.line + 1)
            &&& s.line <= s.anchor_line ==> a == lines::line_off(t, s.line) && b
                == lines::line_off(t, s.anchor_line + 1)
        }),
{
}

/// An operator works between the cursor and where the motion leads, from the
/// one that comes first up to the other. `d` and `c` take out what stands
/// there, `y` copies it.
pub proof fn law_operator_range(s: EdV, op: char, i: int, j: int)
    requires
        0 <= i <= s.buf.text.len(),
        0 <= j <= s.buf.text.len(),
        i != j,
        s.cursor() == text::off(s.buf.text, i),
        op == 'd' || op == 'c' || op == 'y',
    ensures
        ({
            let t = s.buf.text;
            let a = if i < j {
                i
            } else {
                j
            };
            let b = if i < j {
                j
            } else {
                i
            };
            let r = s.op_to(op, text::off(t, j));
            &&& op != 'y' ==> r.buf.text == t.take(a) + t.skip(b)
            &&& op == 'y' ==> r.buf == s.buf
            &&& r.regs.slots.contains_key('"')
            &&& r.regs.slots['"'] == (YankV { text: t.subrange(a, b), kind: YankKind::Charwise })
        }),
{
    reveal(EdV::op_to);
    let t = s.buf.text;
    if i < j {
        text::lemma_off_mono(t, i, j);
        if op == 'y' {
            law_range_yanked(s, i, j);
        } else {
            law_range_removed(s, op, i, j);
        }
        assert(s.op_charwise(op, text::off(t, i), text::off(t, j)).regs.slots.contains_key('"'));
    } else {
        text::lemma_off_mono(t, j, i);
        if op == 'y' {
            law_range_yanked(s, j, i);
        } else {
            law_range_removed(s, op, j, i);
        }
        assert(s.op_charwise(op, text::off(t, j), text::off(t, i)).regs.slots.contains_key('"'));
    }
}

// ── Typing ──────────────────────────────────────────────────────────────

/// Text typed at the cursor goes in there, between what stood before the
/// cursor and what stood after it, and the cursor goes on after it.
pub proof fn law_typed(s: EdV, i: int, x: Seq<char>)
    requires
        0 <= s.line < s.line_count(),
        lines::line_start(s.buf.text, s.line) <= i <= s.buf.text.len(),
        s.cursor() == text::off(s.buf.text, i),
    ensures
        s.typed(x).buf.text == s.buf.text.take(i) + x + s.buf.text.skip(i),
        firm(s) ==> s.typed(x).cursor() == text::off(s.typed(x).buf.text, i + x.len()),
        s.capturing ==> s.typed(x).captured == s.captured + x,
        s.typed(x).mode == s.mode,
{
    reveal(EdV::typed);
    let t = s.buf.text;
    lines::lemma_line_start(t, s.line);
    law_edit(s, i, i, x);
    let e = s.edit(s.cursor(), s.cursor(), x);
    let u = e.buf.text;
    if firm(s) {
        let st = lines::line_start(t, s.line);
        lines::lemma_line_start(t, s.line);
        assert(u.take(st) =~= t.take(st));
        lemma_head_stays(s, u);
        lemma_off_after(t, i, i, x);
        text::lemma_off_mono(t, st, i);
        text::lemma_off_mono(x, 0, x.len() as int);
        lemma_put_at(e, s.col + text::blen(x), i + x.len());
    }
}

/// Byte offset after a text that replaces the characters `i..j`.
pub proof fn lemma_off_after(t: Seq<char>, i: int, j: int, x: Seq<char>)
    requires
        0 <= i <= j <= t.len(),
    ensures
        text::off(t.take(i) + x + t.skip(j), i) == text::off(t, i),
        text::off(t.take(i) + x + t.skip(j), i + x.len()) == text::off(t, i) + text::blen(x),
{
    let u = t.take(i) + x + t.skip(j);
    text::lemma_off_prefix(t, u, i);
    assert(u =~= t.take(i) + (x + t.skip(j)));
    text::lemma_off_add(t.take(i), x + t.skip(j), x.len() as int);
    text::lemma_off_prefix(t.take(i), t, i);
    text::lemma_off_prefix(x, x + t.skip(j), x.len() as int);
}

/// Text put in as one step, as from a register, goes in at the cursor, which
/// goes on after it.
pub proof fn law_inserted(s: EdV, i: int, x: Seq<char>)
    requires
        0 <= i <= s.buf.text.len(),
        s.cursor() == text::off(s.buf.text, i),
        x.len() > 0,
        s.buf.depth == 0,
    ensures
        s.inserted(x).buf.text == s.buf.text.take(i) + x + s.buf.text.skip(i),
        s.inserted(x).cursor() == text::off(s.inserted(x).buf.text, i + x.len()),
{
    reveal(EdV::inserted);
    let t = s.buf.text;
    law_edit(s.open_undo(), i, i, x);
    lemma_off_after(t, i, i, x);
    let c = s.cursor();
    let e = s.open_undo().edit(c, c, x).close_undo();
    text::lemma_at_off(e.buf.text, i + x.len());
    cursor::lemma_legal(e.buf.text, c + text::blen(x));
    cursor::lemma_land(e, c + text::blen(x));
}

/// Backspace takes out the character before the cursor, a line break too, and
/// the cursor stands where that character stood; at the start of the text it
/// does nothing.
pub proof fn law_backspace(s: EdV, i: int)
    requires
        0 <= i <= s.buf.text.len(),
        s.cursor() == text::off(s.buf.text, i),
    ensures
        i == 0 ==> s.backspace() == s,
        i > 0 ==> s.backspace().buf.text == s.buf.text.take(i - 1) + s.buf.text.skip(i),
        i > 0 ==> s.backspace().cursor() == text::off(s.backspace().buf.text, i - 1),
{
    reveal(EdV::backspace);
    let t = s.buf.text;
    if i > 0 {
        let c = s.cursor();
        text::lemma_off_mono(t, 0, i - 1);
        assert(text::off(t, i) == text::off(t, i - 1) + text::clen(t[i - 1]));
        text::lemma_at_unique(t, c - 1, i - 1);
        law_edit(s, i - 1, i, Seq::empty());
        assert(t.take(i - 1) + Seq::<char>::empty() + t.skip(i) =~= t.take(i - 1) + t.skip(i));
        let e = s.edit(text::off(t, i - 1), c, Seq::empty());
        text::lemma_off_prefix(t, e.buf.text, i - 1);
        text::lemma_at_off(e.buf.text, i - 1);
        cursor::lemma_legal(e.buf.text, text::off(t, i - 1));
        cursor::lemma_land(e, text::off(t, i - 1));
    }
}

/// Backspace takes back the character that was typed last.
pub proof fn law_backspace_undoes_typing(s: EdV, i: int, c: char)
    requires
        0 <= s.line < s.line_count(),
        lines::line_start(s.buf.text, s.line) <= i <= s.buf.text.len(),
        s.cursor() == text::off(s.buf.text, i),
        firm(s),
    ensures
        s.typed(seq![c]).backspace().buf.text == s.buf.text,
        s.typed(seq![c]).backspace().cursor() == s.cursor(),
        s.typed(seq![c]).backspace().captured == s.captured,
{
    let t = s.buf.text;
    let x = seq![c];
    lines::lemma_line_start(t, s.line);
    law_typed(s, i, x);
    let r = s.typed(x);
    law_backspace(r, i + 1);
    assert(r.buf.text.take(i) =~= t.take(i));
    assert(r.buf.text.skip(i + 1) =~= t.skip(i));
    assert(t =~= t.take(i) + t.skip(i));
    reveal(EdV::backspace);
    reveal(EdV::typed);
    let u = r.buf.text;
    text::lemma_off_mono(u, 0, i);
    assert(text::off(u, i + 1) == text::off(u, i) + text::clen(u[i]));
    text::lemma_at_unique(u, r.cursor() - 1, i);
    assert(u[i] == c);
    if s.capturing {
        assert(r.captured =~= s.captured.push(c));
        assert(r.captured.drop_last() =~= s.captured);
    }
}

/// Delete takes out the character at the cursor, a line break too.
pub proof fn law_delete_char(s: EdV, i: int)
    requires
        0 <= i <= s.buf.text.len(),
        s.cursor() == text::off(s.buf.text, i),
    ensures
        i == s.buf.text.len() ==> s.delete_char() == s,
        i < s.buf.text.len() ==> s.delete_char().buf.text == s.buf.text.take(i) + s.buf.text.skip(
            i + 1,
        ),
{
    reveal(EdV::delete_char);
    let t = s.buf.text;
    text::lemma_at_off(t, i);
    if i < t.len() {
        text::lemma_off_mono(t, i + 1, t.len() as int);
        assert(text::off(t, i + 1) == text::off(t, i) + text::clen(t[i]));
        law_edit(s, i, i + 1, Seq::empty());
        assert(t.take(i) + Seq::<char>::empty() + t.skip(i + 1) =~= t.take(i) + t.skip(i + 1));
    }
}

/// Enter breaks the line at the cursor, which goes to the head of the line
/// below.
pub proof fn law_broken(s: EdV, i: int)
    requires
        0 <= s.line < usize::MAX,
        0 <= i <= s.buf.text.len(),
        s.cursor() == text::off(s.buf.text, i),
    ensures
        s.broken().buf.text == s.buf.text.take(i) + seq!['\n'] + s.buf.text.skip(i),
        s.broken().line == s.line + 1,
        s.broken().col == 0,
{
    reveal(EdV::broken);
    reveal_strlit("\n");
    assert("\n"@ =~= seq!['\n']);
    law_edit(s, i, i, "\n"@);
    let e = s.edit(s.cursor(), s.cursor(), "\n"@);
    cursor::lemma_line_off(e.buf.text, s.line + 1);
    cursor::lemma_place(e, s.line + 1, 0);
}

/// In Replace mode a character takes the place of the one at the cursor; at
/// the end of the line it is added. The cursor goes on after it.
pub proof fn law_overtyped(s: EdV, i: int, c: char)
    requires
        0 <= s.line < s.line_count(),
        lines::line_start(s.buf.text, s.line) <= i,
        i <= lines::line_start(s.buf.text, s.line) + s.line_text(s.line).len(),
        s.cursor() == text::off(s.buf.text, i),
        firm(s),
    ensures
        ({
            let t = s.buf.text;
            let e = lines::line_start(t, s.line) + s.line_text(s.line).len();
            let r = s.overtyped(seq![c]);
            &&& i < e ==> r.buf.text == t.update(i, c)
            &&& i == e ==> r.buf.text == t.take(i) + seq![c] + t.skip(i)
            &&& r.cursor() == text::off(r.buf.text, i + 1)
        }),
{
    reveal(EdV::overtyped);
    let t = s.buf.text;
    let l = s.line_text(s.line);
    let st = lines::line_start(t, s.line);
    let j = i - st;
    let x = seq![c];
    lines::lemma_line_raw(t, s.line);
    assert(text::off(l, j) == text::off(t, st + j) - lines::line_off(t, s.line));
    text::lemma_off_mono(l, 0, j);
    text::lemma_off_mono(l, j, l.len() as int);
    let f = if i < st + l.len() {
        i + 1
    } else {
        i
    };
    if i < st + l.len() {
        assert(stands_on(s, i));
        lemma_stands_on(s, i);
        assert(text::off(l, j + 1) == text::off(t, st + (j + 1)) - lines::line_off(t, s.line));
        assert(t.take(i) + x + t.skip(i + 1) =~= t.update(i, c));
    }
    law_edit(s, i, f, x);
    lemma_off_after(t, i, f, x);
    let e = s.edit(s.cursor(), text::off(t, f), x);
    let u = e.buf.text;
    assert(u.take(st) =~= t.take(st));
    lemma_head_stays(s, u);
    text::lemma_off_mono(x, 0, 1);
    lemma_put_at(e, s.col + text::blen(x), i + 1);
}

/// An abbreviation is replaced by what it stands for, right where it stands: it
/// is the whole run of letters, digits, hyphens and underscores that ends `n`
/// bytes before the cursor. Without an entry for that run nothing changes.
pub proof fn law_expanded(s: EdV, a: int, i: int, n: int)
    requires
        0 <= a < i <= s.buf.text.len(),
        0 <= n,
        s.cursor() == text::off(s.buf.text, i) + n,
        forall|k: int| a <= k < i ==> typing::abbrev_char(#[trigger] s.buf.text[k]),
        a > 0 ==> !typing::abbrev_char(s.buf.text[a - 1]),
    ensures
        ({
            let t = s.buf.text;
            let w = t.subrange(a, i);
            &&& (forall|k: int| 0 <= k < s.abbrev.len() ==> (#[trigger] s.abbrev[k]).0 != w)
                ==> s.expand(n) == s
            &&& forall|k: int|
                {
                    &&& 0 <= k < s.abbrev.len()
                    &&& (#[trigger] s.abbrev[k]).0 == w
                    &&& forall|m: int| 0 <= m < k ==> (#[trigger] s.abbrev[m]).0 != w
                } ==> s.expand(n).buf.text == t.take(a) + s.abbrev[k].1 + t.skip(i)
        }),
{
    reveal(EdV::expand);
    let t = s.buf.text;
    let w = t.subrange(a, i);
    text::lemma_at_off(t, i);
    text::lemma_off_mono(t, 0, i);
    let f = typing::abbrev_fn();
    text::lemma_skip_back(t, i, f);
    let b = text::skip_back(t, i, f);
    if b < a {
        assert(f(t[a - 1]));
    } else if a < b {
        assert(f(t[b - 1]));
    }
    lemma_expansion(s.abbrev, w, 0);
    assert forall|k: int|
        {
            &&& 0 <= k < s.abbrev.len()
            &&& (#[trigger] s.abbrev[k]).0 == w
            &&& forall|m: int| 0 <= m < k ==> (#[trigger] s.abbrev[m]).0 != w
        } implies s.expand(n).buf.text == t.take(a) + s.abbrev[k].1 + t.skip(i) by {
        law_edit(s, a, i, s.abbrev[k].1);
    }
}

proof fn lemma_expansion(a: Seq<(Seq<char>, Seq<char>)>, w: Seq<char>, j: int)
    requires
        0 <= j <= a.len(),
    ensures
        (forall|k: int| j <= k < a.len() ==> (#[trigger] a[k]).0 != w) ==> typing::expansion_of(
            a,
            w,
            j,
        ) is None,
        forall|k: int|
            {
                &&& j <= k < a.len()
                &&& (#[trigger] a[k]).0 == w
                &&& forall|m: int| j <= m < k ==> (#[trigger] a[m]).0 != w
            } ==> typing::expansion_of(a, w, j) == Some(a[k].1),
    decreases a.len() - j,
{
    if j < a.len() && a[j].0 != w {
        lemma_expansion(a, w, j + 1);
        assert forall|k: int|
            {
                &&& j <= k < a.len()
                &&& (#[trigger] a[k]).0 == w
                &&& forall|m: int| j <= m < k ==> (#[trigger] a[m]).0 != w
            } implies typing::expansion_of(a, w, j) == Some(a[k].1) by {
            assert forall|m: int| j + 1 <= m < k implies (#[trigger] a[m]).0 != w by {
            }
        }
    }
}

/// A blank or a tab.
pub open spec fn is_gap(c: char) -> bool {
    c == ' ' || c == '\t'
}

proof fn lemma_break_before(l: Seq<char>, i: int, lead: int)
    requires
        0 <= lead,
        i <= l.len(),
    ensures
        match typing::break_before(l, i, lead) {
            Some(b) => {
                &&& lead <= b < i
                &&& is_gap(l[b])
                &&& forall|k: int| b < k < i ==> !is_gap(#[trigger] l[k])
            },
            None => forall|k: int| lead <= k < i ==> !is_gap(#[trigger] l[k]),
        },
    decreases i,
{
    if i > lead && i > 0 && !is_gap(l[i - 1]) {
        lemma_break_before(l, i - 1, lead);
    }
}

/// A line that has grown past the text width `w` is broken at a blank or tab
/// `b` after its indentation of `n` characters and before the cursor: the last
/// one that leaves no more than `w` characters before it, or, where there is
/// none, the last of all. The line break replaces it, and the text is else the
/// same. Without such a place, and when the line is no longer than `w`, nothing
/// changes.
pub proof fn law_wrapped(s: EdV, i: int, n: int, b: int)
    requires
        0 <= s.line < s.line_count(),
        lines::line_start(s.buf.text, s.line) <= i,
        i <= lines::line_start(s.buf.text, s.line) + s.line_text(s.line).len(),
        s.cursor() == text::off(s.buf.text, i),
        0 <= n <= s.line_text(s.line).len(),
        forall|k: int| 0 <= k < n ==> is_gap(#[trigger] s.line_text(s.line)[k]),
        n < s.line_text(s.line).len() ==> !is_gap(s.line_text(s.line)[n]),
    ensures
        ({
            let t = s.buf.text;
            let l = s.line_text(s.line);
            let st = lines::line_start(t, s.line);
            let c = i - st;
            let w = s.options.textwidth as int;
            let r = s.wrap_line();
            &&& l.len() <= w ==> r == s
            &&& (forall|k: int| n <= k < c ==> !is_gap(#[trigger] l[k])) ==> r == s
            &&& l.len() > w && n <= b < c && is_gap(l[b]) && b <= w && (forall|k: int|
                b < k < c && k <= w ==> !is_gap(#[trigger] l[k])) ==> r.buf.text == t.update(
                st + b,
                '\n',
            )
            &&& l.len() > w && n <= b < c && is_gap(l[b]) && (forall|k: int|
                n <= k < c && (k <= w || k > b) ==> !is_gap(#[trigger] l[k])) ==> r.buf.text
                == t.update(st + b, '\n')
        }),
{
    reveal(EdV::wrap_line);
    reveal_strlit("\n");
    assert("\n"@ =~= seq!['\n']);
    let t = s.buf.text;
    let l = s.line_text(s.line);
    let st = lines::line_start(t, s.line);
    let c = i - st;
    let w = s.options.textwidth as int;
    lines::lemma_line_raw(t, s.line);
    assert(text::off(l, c) == text::off(t, st + c) - lines::line_off(t, s.line));
    text::lemma_off_mono(l, 0, c);
    text::lemma_off_mono(l, c, l.len() as int);
    text::lemma_at_off(l, c);
    let f = motions::tab_or_space();
    text::lemma_skip_fwd(l, 0, f);
    let m = text::skip_fwd(l, 0, f);
    if m < n {
        assert(f(l[m]));
    } else if n < m {
        assert(f(l[n]));
    }
    lemma_break_before(l, state::min(c, w + 1), n);
    lemma_break_before(l, c, n);
    if l.len() > w {
        let p = typing::break_place(l, c, n, w);
        if p is Some {
            let d = p->0;
            assert(n <= d < c && is_gap(l[d]));
            assert(text::off(l, d) == text::off(t, st + d) - lines::line_off(t, s.line));
            assert(t[st + d] == l[d]);
            assert(text::off(t, st + d + 1) == text::off(t, st + d) + text::clen(t[st + d]));
            law_edit(s, st + d, st + d + 1, "\n"@);
            assert(t.take(st + d) + "\n"@ + t.skip(st + d + 1) =~= t.update(st + d, '\n'));
        }
    }
}

proof fn lemma_plain_breaks_skip(s: Seq<char>, n: int, i: int)
    requires
        0 <= n <= i <= s.len(),
    ensures
        typing::plain_breaks(s, i) == typing::plain_breaks(s.skip(n), i - n),
    decreases s.len() - i,
{
    if i < s.len() {
        assert(s.skip(n)[i - n] == s[i]);
        if s[i] == '\r' && i + 1 < s.len() && s[i + 1] == '\n' {
            assert(s.skip(n)[i - n + 1] == s[i + 1]);
            lemma_plain_breaks_skip(s, n, i + 2);
        } else {
            if i + 1 < s.len() {
                assert(s.skip(n)[i - n + 1] == s[i + 1]);
            }
            lemma_plain_breaks_skip(s, n, i + 1);
        }
    }
}

/// Text without carriage returns is pasted as it is, and a carriage return,
/// with or without a line feed after it, as one line feed; what stands before
/// and after it is pasted on its own.
pub proof fn law_plain_breaks(a: Seq<char>, b: Seq<char>)
    requires
        !a.contains('\r'),
    ensures
        typing::plain_breaks(a, 0) == a,
        typing::plain_breaks(a + seq!['\r', '\n'] + b, 0) == a.push('\n')
            + typing::plain_breaks(b, 0),
        b.len() == 0 || b[0] != '\n' ==> typing::plain_breaks(a + seq!['\r'] + b, 0) == a.push(
            '\n',
        ) + typing::plain_breaks(b, 0),
    decreases a.len(),
{
    let x = a + seq!['\r', '\n'] + b;
    let y = a + seq!['\r'] + b;
    if a.len() == 0 {
        assert(x[0] == '\r' && x[1] == '\n');
        lemma_plain_breaks_skip(x, 2, 2);
        assert(x.skip(2) =~= b);
        assert(typing::plain_breaks(x, 0) =~= a.push('\n') + typing::plain_breaks(b, 0));
        if b.len() == 0 || b[0] != '\n' {
            assert(y[0] == '\r');
            if b.len() > 0 {
                assert(y[1] == b[0]);
            }
            lemma_plain_breaks_skip(y, 1, 1);
            assert(y.skip(1) =~= b);
            assert(typing::plain_breaks(y, 0) =~= a.push('\n') + typing::plain_breaks(b, 0));
        }
        assert(typing::plain_breaks(a, 0) =~= a);
    } else {
        let d = a.skip(1);
        assert(!d.contains('\r')) by {
            if d.contains('\r') {
                let k = choose|k: int| 0 <= k < d.len() && d[k] == '\r';
                assert(a[k + 1] == '\r');
            }
        }
        law_plain_breaks(d, b);
        assert(a.contains(a[0]));
        assert(x[0] == a[0] && y[0] == a[0]);
        lemma_plain_breaks_skip(x, 1, 1);
        lemma_plain_breaks_skip(y, 1, 1);
        lemma_plain_breaks_skip(a, 1, 1);
        assert(x.skip(1) =~= d + seq!['\r', '\n'] + b);
        assert(y.skip(1) =~= d + seq!['\r'] + b);
        assert(typing::plain_breaks(a, 0) =~= a);
        assert(seq![a[0]] + (d.push('\n') + typing::plain_breaks(b, 0)) =~= a.push('\n')
            + typing::plain_breaks(b, 0));
    }
}

/// Pasted text goes in at the cursor.
pub proof fn law_pasted(s: EdV, i: int, raw: Seq<char>)
    requires
        0 <= i <= s.buf.text.len(),
        s.cursor() == text::off(s.buf.text, i),
    ensures
        raw.len() == 0 ==> s.pasted(raw) == s,
        raw.len() > 0 ==> s.pasted(raw).buf.text == s.buf.text.take(i) + typing::plain_breaks(
            raw,
            0,
        ) + s.buf.text.skip(i),
{
    reveal(EdV::pasted);
    law_edit(s, i, i, typing::plain_breaks(raw, 0));
}

/// Ctrl-T puts a tab at the head of the cursor's line. Ctrl-D takes away a tab
/// there, or else blanks, up to the tab stop. The cursor stays with its
/// character where that is left.
pub proof fn law_indented(s: EdV)
    requires
        0 <= s.line < s.line_count(),
    ensures
        ({
            let t = s.buf.text;
            let l = s.line_text(s.line);
            let st = lines::line_start(t, s.line);
            &&& s.indent().buf.text == t.take(st) + seq!['\t'] + t.skip(st)
            &&& l.len() > 0 && l[0] == '\t' ==> s.outdent().buf.text == t.take(st) + t.skip(st + 1)
            &&& l.len() > 0 && l[0] != '\t' && l[0] != ' ' ==> s.outdent() == s
            &&& forall|n: int|
                #![trigger t.skip(st + n)]
                {
                    &&& 0 < n <= l.len()
                    &&& n <= s.tabstop()
                    &&& forall|k: int| 0 <= k < n ==> #[trigger] l[k] == ' '
                    &&& n < l.len() && n < s.tabstop() ==> l[n] != ' '
                } ==> s.outdent().buf.text == t.take(st) + t.skip(st + n)
        }),
{
    reveal(EdV::indent);
    reveal(EdV::outdent);
    reveal_strlit("\t");
    assert("\t"@ =~= seq!['\t']);
    let t = s.buf.text;
    let l = s.line_text(s.line);
    let st = lines::line_start(t, s.line);
    lines::lemma_line_raw(t, s.line);
    law_edit(s, st, st, "\t"@);
    let f = layout::sp_fn();
    text::lemma_skip_fwd(l, 0, f);
    if l.len() > 0 && l[0] == '\t' {
        assert(t[st] == l[0]);
        assert(text::off(t, st + 1) == text::off(t, st) + text::clen(t[st]));
        law_edit(s, st, st + 1, Seq::empty());
        assert(t.take(st) + Seq::<char>::empty() + t.skip(st + 1) =~= t.take(st) + t.skip(st + 1));
    } else if l.len() > 0 && l[0] != ' ' {
        assert(!f(l[0]));
    }
    assert forall|n: int|
        #![trigger t.skip(st + n)]
        {
            &&& 0 < n <= l.len()
            &&& n <= s.tabstop()
            &&& forall|k: int| 0 <= k < n ==> #[trigger] l[k] == ' '
            &&& n < l.len() && n < s.tabstop() ==> l[n] != ' '
        } implies s.outdent().buf.text == t.take(st) + t.skip(st + n) by {
        let m = text::skip_fwd(l, 0, f);
        assert(l[0] == ' ');
        if m < n {
            assert(!f(l[m]));
        } else if m > n && n < s.tabstop() {
            assert(f(l[n]));
        }
        assert(s.outdent_width() == n);
        assert forall|k: int| st <= k < st + n implies #[trigger] t[k] == ' ' by {
            assert(l[k - st] == t[k]);
        }
        lemma_blanks(t, st, n);
        law_edit(s, st, st + n, Seq::empty());
        assert(t.take(st) + Seq::<char>::empty() + t.skip(st + n) =~= t.take(st) + t.skip(st + n));
    }
}

proof fn lemma_blanks(t: Seq<char>, st: int, n: int)
    requires
        0 <= st,
        0 <= n,
        st + n <= t.len(),
        forall|k: int| st <= k < st + n ==> #[trigger] t[k] == ' ',
    ensures
        text::off(t, st + n) == text::off(t, st) + n,
    decreases n,
{
    if n > 0 {
        lemma_blanks(t, st, n - 1);
        assert(t[st + n - 1] == ' ');
    }
}

// ── Finding a character ─────────────────────────────────────────────────

/// `j` is the place on the cursor's line that `f` finds from `i`, or `F`
/// backwards: the `n`th `c` after or before the cursor.
pub open spec fn finds(s: EdV, i: int, c: char, ahead: bool, n: int, j: int) -> bool {
    let t = s.buf.text;
    let st = lines::line_start(t, s.line);
    let l = lines::line_text(t, s.line);
    &&& st <= j < st + l.len()
    &&& t[j] == c
    &&& ahead ==> i < j && motion::times(l, c, i - st + 1, j - st + 1) == n
    &&& !ahead ==> j < i && motion::times(l, c, j - st, i - st) == n
}

/// `f` and `F` bring the cursor to the character found, `t` to the one before
/// it and `T` to the one after it. An operator takes the character found with
/// `f`, and works up to it with the others. Where there are too few on the line
/// nothing happens.
pub proof fn law_find_keys(s: EdV, i: int, c: char, n: int, j: int)
    requires
        stands_on(s, i),
        1 <= n,
        c != '\n',
    ensures
        ({
            let t = s.buf.text;
            &&& finds(s, i, c, true, n, j) ==> {
                &&& s.find_char(c, false, n).cursor() == text::off(t, j)
                &&& s.find_char(c, true, n).cursor() == text::off(t, j - 1)
                &&& s.find_bound('f', c, n) == Some(text::off(t, j + 1))
                &&& s.find_bound('t', c, n) == Some(text::off(t, j))
            }
            &&& finds(s, i, c, false, n, j) ==> {
                &&& s.find_char_back(c, false, n).cursor() == text::off(t, j)
                &&& s.find_char_back(c, true, n).cursor() == text::off(t, j + 1)
                &&& s.find_bound('F', c, n) == Some(text::off(t, j))
                &&& s.find_bound('T', c, n) == Some(text::off(t, j + 1))
            }
            &&& (forall|k: int| !#[trigger] finds(s, i, c, true, n, k)) ==> {
                &&& s.find_char(c, false, n) == s
                &&& s.find_char(c, true, n) == s
                &&& s.find_bound('f', c, n) is None
                &&& s.find_bound('t', c, n) is None
            }
            &&& (forall|k: int| !#[trigger] finds(s, i, c, false, n, k)) ==> {
                &&& s.find_char_back(c, false, n) == s
                &&& s.find_char_back(c, true, n) == s
                &&& s.find_bound('F', c, n) is None
                &&& s.find_bound('T', c, n) is None
            }
        }),
{
    reveal(EdV::find_char);
    reveal(EdV::find_char_back);
    reveal(EdV::find_bound);
    lemma_stands_on(s, i);
    lemma_found(s, i, c, true, n, j);
    lemma_found(s, i, c, false, n, j);
    let t = s.buf.text;
    let st = lines::line_start(t, s.line);
    lines::lemma_line_raw(t, s.line);
    if finds(s, i, c, true, n, j) {
        lemma_around(t, j);
        law_goto(s, j);
        assert(t[j - 1] == lines::line_text(t, s.line)[j - 1 - st]);
        lemma_inside(t, s.line, j - 1 - st);
        law_goto(s, j - 1);
    }
    if finds(s, i, c, false, n, j) {
        lemma_around(t, j);
        law_goto(s, j);
        lemma_inside(t, s.line, j + 1 - st);
        law_goto(s, j + 1);
    }
}

proof fn lemma_around(t: Seq<char>, j: int)
    requires
        0 <= j < t.len(),
    ensures
        motions::next_byte(t, text::off(t, j)) == text::off(t, j + 1),
        j > 0 ==> text::off(t, j) > 0 && text::floor(t, text::off(t, j) - 1) == text::off(t, j - 1),
{
    text::lemma_at_off(t, j);
    text::lemma_off_mono(t, j + 1, t.len() as int);
    assert(text::off(t, j + 1) == text::off(t, j) + text::clen(t[j]));
    if j > 0 {
        assert(text::off(t, j) == text::off(t, j - 1) + text::clen(t[j - 1]));
        text::lemma_off_mono(t, 0, j - 1);
        text::lemma_at_unique(t, text::off(t, j) - 1, j - 1);
    }
}

/// The characters of a line before its last one are no line feeds.
proof fn lemma_inside(t: Seq<char>, k: int, j: int)
    requires
        0 <= k < lines::line_count(t),
        0 <= j < lines::line_text(t, k).len(),
    ensures
        lines::line_start(t, k) + j < t.len(),
        t[lines::line_start(t, k) + j] != '\n',
{
    let st = lines::line_start(t, k);
    lines::lemma_line_raw(t, k);
    lines::lemma_line_start(t, k);
    lines::lemma_line_start(t, k + 1);
    let x = st + j;
    if t[x] == '\n' {
        assert(lines::is_break(t, x));
        lines::lemma_on_line(t, k, x);
        assert(lines::breaks(t, x + 1) == k + 1);
        lines::lemma_starts_line(t, k + 1, x + 1);
        let w = lines::line_raw(t, k);
        assert(w.last() == t[x]);
    }
}

proof fn lemma_found(s: EdV, i: int, c: char, ahead: bool, n: int, j: int)
    requires
        stands_on(s, i),
        1 <= n,
    ensures
        ({
            let r = motion::nth_on_line(s.buf.text, s.cursor(), c, ahead, n);
            &&& finds(s, i, c, ahead, n, j) ==> r == Some(text::off(s.buf.text, j))
            &&& (forall|k: int| !#[trigger] finds(s, i, c, ahead, n, k)) ==> r is None
        }),
{
    let t = s.buf.text;
    let st = lines::line_start(t, s.line);
    let l = lines::line_text(t, s.line);
    lemma_stands_on(s, i);
    lines::lemma_line_raw(t, s.line);
    motion::law_nth_found(t, s.line, i - st, c, ahead, n);
    let r = motion::nth_on_line(t, s.cursor(), c, ahead, n);
    if r is Some {
        let m = if ahead {
            choose|m: int|
                {
                    &&& i - st < m < l.len()
                    &&& r->0 == #[trigger] text::off(t, st + m)
                    &&& l[m] == c
                    &&& motion::times(l, c, i - st + 1, m + 1) == n
                }
        } else {
            choose|m: int|
                {
                    &&& 0 <= m < i - st
                    &&& r->0 == #[trigger] text::off(t, st + m)
                    &&& l[m] == c
                    &&& motion::times(l, c, m, i - st) == n
                }
        };
        assert(t[st + m] == l[m]);
        assert(finds(s, i, c, ahead, n, st + m));
        if finds(s, i, c, ahead, n, j) {
            let p = j - st;
            assert(t[j] == l[p]);
            if ahead {
                if m < p {
                    motion::lemma_times_split(l, c, i - st + 1, m + 1, p + 1);
                    motion::lemma_times_split(l, c, m + 1, p, p + 1);
                    assert(motion::times(l, c, p, p) == 0);
                    assert(motion::times(l, c, p, p + 1) == 1);
                } else if p < m {
                    motion::lemma_times_split(l, c, i - st + 1, p + 1, m + 1);
                    motion::lemma_times_split(l, c, p + 1, m, m + 1);
                    assert(motion::times(l, c, m, m) == 0);
                    assert(motion::times(l, c, m, m + 1) == 1);
                }
            } else {
                if m < p {
                    motion::lemma_times_split(l, c, m, p, i - st);
                    motion::lemma_times_split(l, c, m, m + 1, p);
                    assert(motion::times(l, c, m, m) == 0);
                    assert(motion::times(l, c, m, m + 1) == 1);
                } else if p < m {
                    motion::lemma_times_split(l, c, p, m, i - st);
                    motion::lemma_times_split(l, c, p, p + 1, m);
                    assert(motion::times(l, c, p, p) == 0);
                    assert(motion::times(l, c, p, p + 1) == 1);
                }
            }
        }
    } else if finds(s, i, c, ahead, n, j) {
        let p = j - st;
        if ahead {
            motion::lemma_times_split(l, c, i - st + 1, p + 1, l.len() as int);
        } else {
            motion::lemma_times_split(l, c, 0, p, i - st);
        }
    }
}

/// `>` and `<` shift whole lines, and leave the rest of the text. A last line
/// without a line feed gets one.
pub proof fn law_lines_shifted(s: EdV, op: char, from: int, extra: int)
    requires
        0 <= from < s.line_count() < usize::MAX,
        0 <= extra < usize::MAX - from,
        s.pending.operator == Some(op),
        op == '>' || op == '<',
    ensures
        ({
            let t = s.buf.text;
            let to = if from + extra < s.line_count() {
                from + extra
            } else {
                s.line_count() - 1
            };
            let a = lines::line_start(t, from);
            let b = lines::line_start(t, to + 1);
            let taken = t.subrange(a, b);
            let whole = if taken.len() > 0 && taken.last() == '\n' {
                taken
            } else {
                taken.push('\n')
            };
            let moved = layout::shifted_text(whole, op == '>', s.buf.kind, 0);
            let r = s.op_linewise(from, extra);
            &&& moved != whole ==> r.buf.text == t.take(a) + moved + t.skip(b)
            &&& moved == whole ==> r.buf == s.buf
            &&& r.regs == s.regs
        }),
{
    reveal(EdV::op_linewise);
    reveal(EdV::lines_redone);
    let t = s.buf.text;
    let to = state::min(state::plus(from, extra), s.last_line());
    let a = lines::line_start(t, from);
    let b = lines::line_start(t, to + 1);
    lines::lemma_line_start(t, from);
    lines::lemma_line_start(t, to + 1);
    lines::lemma_line_start_mono(t, from, to + 1);
    text::lemma_at_off(t, a);
    text::lemma_at_off(t, b);
    text::lemma_off_mono(t, a, b);
    cursor::lemma_legal(t, text::off(t, a));
    cursor::lemma_legal(t, text::off(t, b));
    assert(s.taken(text::off(t, a), text::off(t, b)) =~= t.subrange(a, b));
    let y = ops::with_lf(t.subrange(a, b));
    law_edit(s, a, b, layout::shifted_text(y, op == '>', s.buf.kind, 0));
}

} // verus!
