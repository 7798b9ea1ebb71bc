//! Motions. Each takes a buffer and a byte offset and gives the byte offset
//! that the cursor moves to.
//!
//! A small word (`w`, `b`, `e`) is a run of letters, digits and underscores,
//! or a run of punctuation; a WORD (`W`, `B`) is a run of anything but white
//! space. An offset inside a character counts as that character.

use vstd::prelude::*;
use crate::buffer::Buffer;
use crate::chars;
use crate::lines;
use crate::text;
use crate::text::{byte_len, chars_of, index_at, offset_of};

verus! {

#[derive(Copy, Clone, Debug, PartialEq, Eq, Structural)]
pub enum CharClass {
    /// Letters, digits and underscores.
    Word,
    /// Visible, and not of a word.
    Punct,
    /// White space, line breaks included.
    Space,
}

pub open spec fn class_of(c: char) -> CharClass {
    if chars::is_alnum(c) || c == '_' {
        CharClass::Word
    } else if chars::is_space(c) {
        CharClass::Space
    } else {
        CharClass::Punct
    }
}

pub open spec fn in_class(k: CharClass) -> spec_fn(char) -> bool {
    |c: char| class_of(c) == k
}

pub open spec fn not_space() -> spec_fn(char) -> bool {
    |c: char| class_of(c) != CharClass::Space
}

/// Start of the next word: past the rest of the run at `i`, then past white
/// space.
pub open spec fn word_fwd(t: Seq<char>, i: int) -> int {
    if i >= t.len() {
        t.len() as int
    } else {
        let k = class_of(t[i]);
        let j = if k is Space {
            i
        } else {
            text::skip_fwd(t, i, in_class(k))
        };
        text::skip_fwd(t, j, in_class(CharClass::Space))
    }
}

/// Start of the next WORD.
pub open spec fn big_word_fwd(t: Seq<char>, i: int) -> int {
    text::skip_fwd(t, text::skip_fwd(t, i, not_space()), in_class(CharClass::Space))
}

/// The nearest index at or before `i` that is not white space, or 0.
pub open spec fn back_to_ink(t: Seq<char>, i: int) -> int
    decreases i,
{
    if 0 < i < t.len() && class_of(t[i]) is Space {
        back_to_ink(t, i - 1)
    } else {
        i
    }
}

/// Index of the character before byte `b`.
pub open spec fn before(t: Seq<char>, b: int) -> int {
    text::at(t, if b > text::blen(t) { text::blen(t) - 1 } else { b - 1 })
}

/// Start of the word at or before `i`.
pub open spec fn word_back_from(t: Seq<char>, i: int) -> int {
    let q = back_to_ink(t, i);
    if q == 0 {
        0
    } else {
        text::skip_back(t, q, in_class(class_of(t[q])))
    }
}

/// Start of the WORD at or before `i`.
pub open spec fn big_word_back_from(t: Seq<char>, i: int) -> int {
    let q = back_to_ink(t, i);
    if q == 0 {
        0
    } else {
        text::skip_back(t, q, not_space())
    }
}

pub open spec fn back_motion(t: Seq<char>, b: int, big: bool) -> int {
    if b == 0 || t.len() == 0 {
        0
    } else if big {
        text::off(t, big_word_back_from(t, before(t, b)))
    } else {
        text::off(t, word_back_from(t, before(t, b)))
    }
}

/// Byte offset of the last character of the next word that ends after `i`;
/// that of the last character of the text when there is none.
pub open spec fn word_end_at(t: Seq<char>, i: int) -> int {
    if i >= t.len() {
        text::blen(t)
    } else {
        let j = text::skip_fwd(t, i + 1, in_class(CharClass::Space));
        if j >= t.len() {
            text::off(t, t.len() - 1)
        } else {
            text::off(t, text::skip_fwd(t, j, in_class(class_of(t[j]))) - 1)
        }
    }
}

/// Byte offset of the last character of the next WORD that ends after `i`;
/// that of the last character of the text when there is none.
pub open spec fn big_word_end_at(t: Seq<char>, i: int) -> int {
    if i >= t.len() {
        text::blen(t)
    } else {
        let j = text::skip_fwd(t, i + 1, in_class(CharClass::Space));
        if j >= t.len() {
            text::off(t, t.len() - 1)
        } else {
            text::off(t, text::skip_fwd(t, j, not_space()) - 1)
        }
    }
}

/// First index at or after `i` that holds `c`.
pub open spec fn find_fwd(t: Seq<char>, i: int, c: char) -> Option<int>
    decreases t.len() - i,
{
    if i < 0 || i >= t.len() {
        None
    } else if t[i] == c {
        Some(i)
    } else {
        find_fwd(t, i + 1, c)
    }
}

/// Last index before `i` that holds `c`.
pub open spec fn find_back(t: Seq<char>, i: int, c: char) -> Option<int>
    decreases i,
{
    if i <= 0 || i > t.len() {
        None
    } else if t[i - 1] == c {
        Some(i - 1)
    } else {
        find_back(t, i - 1, c)
    }
}

/// First place after the cursor on its line that holds `c`.
pub open spec fn find_on_line_fwd(t: Seq<char>, b: int, c: char) -> Option<int> {
    let k = lines::line_at(t, b);
    let l = lines::line_text(t, k);
    match find_fwd(l, text::at(l, b - lines::line_off(t, k)) + 1, c) {
        Some(j) => Some(lines::line_off(t, k) + text::off(l, j)),
        None => None,
    }
}

/// Last place before the cursor on its line that holds `c`.
pub open spec fn find_on_line_back(t: Seq<char>, b: int, c: char) -> Option<int> {
    let k = lines::line_at(t, b);
    let l = lines::line_text(t, k);
    match find_back(l, text::at(l, b - lines::line_off(t, k)), c) {
        Some(j) => Some(lines::line_off(t, k) + text::off(l, j)),
        None => None,
    }
}

/// The `n`th such place, after the cursor or before it.
pub open spec fn nth_on_line(t: Seq<char>, b: int, c: char, after: bool, n: int) -> Option<int>
    decreases n,
{
    let p = if after {
        find_on_line_fwd(t, b, c)
    } else {
        find_on_line_back(t, b, c)
    };
    match p {
        Some(q) if n > 1 => nth_on_line(t, q, c, after, n - 1),
        _ => p,
    }
}

/// The `n`th place on the line that holds `target`, after the cursor or before
/// it.
pub fn find_nth(buf: &Buffer, byte: usize, target: char, after: bool, n: usize) -> (r: Option<
    usize,
>)
    requires
        byte <= text::blen(buf@.text),
    ensures
        as_int(r) == nth_on_line(buf@.text, byte as int, target, after, n as int),
{
    let mut b: usize = byte;
    let mut k: usize = n;
    while k > 1
        invariant
            b <= text::blen(buf@.text),
            nth_on_line(buf@.text, byte as int, target, after, n as int) == nth_on_line(
                buf@.text,
                b as int,
                target,
                after,
                k as int,
            ),
        decreases k,
    {
        let p: Option<usize> = if after {
            find_forward(buf, b, target)
        } else {
            find_backward(buf, b, target)
        };
        match p {
            Some(q) => {
                b = q;
            },
            None => {
                return None;
            },
        }
        k -= 1;
    }
    if after {
        find_forward(buf, b, target)
    } else {
        find_backward(buf, b, target)
    }
}

pub open spec fn first_nonblank(t: Seq<char>, k: int) -> int {
    let l = lines::line_text(t, k);
    lines::line_off(t, k) + text::off(l, text::skip_fwd(l, 0, chars::space_fn()))
}

pub fn classify(c: char) -> (k: CharClass)
    ensures
        k == class_of(c),
{
    if c.is_alphanumeric() || c == '_' {
        CharClass::Word
    } else if c.is_whitespace() {
        CharClass::Space
    } else {
        CharClass::Punct
    }
}

/// End of the run of class `k` that starts at `i`.
pub(crate) fn run_end(v: &Vec<char>, i: usize, k: CharClass) -> (j: usize)
    requires
        i <= v.len(),
    ensures
        j == text::skip_fwd(v@, i as int, in_class(k)),
        i <= j <= v.len(),
{
    let mut j: usize = i;
    while j < v.len() && classify(v[j]) == k
        invariant
            i <= j <= v.len(),
            text::skip_fwd(v@, i as int, in_class(k)) == text::skip_fwd(v@, j as int, in_class(k)),
        decreases v.len() - j,
    {
        j += 1;
    }
    j
}

/// Start of the run of class `k` that ends before `i`.
pub(crate) fn run_start(v: &Vec<char>, i: usize, k: CharClass) -> (j: usize)
    requires
        i <= v.len(),
    ensures
        j == text::skip_back(v@, i as int, in_class(k)),
        j <= i,
{
    let mut j: usize = i;
    while j > 0 && classify(v[j - 1]) == k
        invariant
            j <= i <= v.len(),
            text::skip_back(v@, i as int, in_class(k)) == text::skip_back(
                v@,
                j as int,
                in_class(k),
            ),
        decreases j,
    {
        j -= 1;
    }
    j
}

/// `w`: the start of the next word.
pub fn word_forward(buf: &Buffer, start: usize) -> (r: usize)
    ensures
        r == text::off(buf@.text, word_fwd(buf@.text, text::at(buf@.text, start as int))),
{
    let v: Vec<char> = buf.chars();
    let i: usize = index_at(&v, start);
    if i >= v.len() {
        return offset_of(&v, v.len());
    }
    let k: CharClass = classify(v[i]);
    let j: usize = if k != CharClass::Space {
        run_end(&v, i, k)
    } else {
        i
    };
    let e: usize = run_end(&v, j, CharClass::Space);
    offset_of(&v, e)
}

/// Steps from byte `start` to the character before it, then back over white
/// space.
fn ink_before(v: &Vec<char>, start: usize) -> (q: usize)
    requires
        text::blen(v@) <= usize::MAX,
        start > 0,
        v.len() > 0,
    ensures
        q == back_to_ink(v@, before(v@, start as int)),
        q < v.len(),
{
    let total: usize = offset_of(v, v.len());
    proof {
        text::lemma_off_mono(v@, 0, v@.len() as int);
    }
    let b: usize = if start > total {
        total - 1
    } else {
        start - 1
    };
    let p: usize = index_at(v, b);
    proof {
        text::lemma_at(v@, b as int);
    }
    let mut q: usize = p;
    while q > 0 && classify(v[q]) == CharClass::Space
        invariant
            q <= p < v.len(),
            back_to_ink(v@, p as int) == back_to_ink(v@, q as int),
        decreases q,
    {
        q -= 1;
    }
    q
}

/// `b`: the start of the word before the cursor.
pub fn word_backward(buf: &Buffer, start: usize) -> (r: usize)
    ensures
        r == back_motion(buf@.text, start as int, false),
{
    let v: Vec<char> = buf.chars();
    if start == 0 || v.len() == 0 {
        return 0;
    }
    let q: usize = ink_before(&v, start);
    if q == 0 {
        return 0;
    }
    let k: CharClass = classify(v[q]);
    let s: usize = run_start(&v, q, k);
    offset_of(&v, s)
}

/// `e`: the last character of the current or next word. The cursor lands on
/// the character, not after it.
pub fn word_end(buf: &Buffer, start: usize) -> (r: usize)
    ensures
        r == word_end_at(buf@.text, text::at(buf@.text, start as int)),
{
    let v: Vec<char> = buf.chars();
    let i: usize = index_at(&v, start);
    let n: usize = v.len();
    if i >= n {
        return offset_of(&v, n);
    }
    let j: usize = run_end(&v, i + 1, CharClass::Space);
    if j >= n {
        return offset_of(&v, n - 1);
    }
    let k: CharClass = classify(v[j]);
    let e: usize = run_end(&v, j, k);
    proof {
        text::lemma_skip_fwd(v@, j + 1, in_class(k));
    }
    offset_of(&v, e - 1)
}

/// `E`: the end of the next WORD.
pub fn big_word_end(buf: &Buffer, start: usize) -> (r: usize)
    ensures
        r == big_word_end_at(buf@.text, text::at(buf@.text, start as int)),
{
    let v: Vec<char> = buf.chars();
    let i: usize = index_at(&v, start);
    let n: usize = v.len();
    if i >= n {
        return offset_of(&v, n);
    }
    let j: usize = run_end(&v, i + 1, CharClass::Space);
    if j >= n {
        return offset_of(&v, n - 1);
    }
    proof {
        text::lemma_skip_fwd(v@, i + 1, in_class(CharClass::Space));
        assert(!in_class(CharClass::Space)(v@[j as int]));
    }
    let mut e: usize = j;
    while e < n && classify(v[e]) != CharClass::Space
        invariant
            j <= e <= n,
            n == v.len(),
            text::skip_fwd(v@, j as int, not_space()) == text::skip_fwd(v@, e as int, not_space()),
            e == j ==> j < n && !(class_of(v@[j as int]) is Space),
        decreases n - e,
    {
        e += 1;
    }
    offset_of(&v, e - 1)
}

/// `W`: the start of the next WORD.
pub fn big_word_forward(buf: &Buffer, start: usize) -> (r: usize)
    ensures
        r == text::off(buf@.text, big_word_fwd(buf@.text, text::at(buf@.text, start as int))),
{
    let v: Vec<char> = buf.chars();
    let i: usize = index_at(&v, start);
    let mut j: usize = i;
    while j < v.len() && classify(v[j]) != CharClass::Space
        invariant
            i <= j <= v.len(),
            text::skip_fwd(v@, i as int, not_space()) == text::skip_fwd(v@, j as int, not_space()),
        decreases v.len() - j,
    {
        j += 1;
    }
    let e: usize = run_end(&v, j, CharClass::Space);
    offset_of(&v, e)
}

/// `B`: the start of the WORD before the cursor.
pub fn big_word_backward(buf: &Buffer, start: usize) -> (r: usize)
    ensures
        r == back_motion(buf@.text, start as int, true),
{
    let v: Vec<char> = buf.chars();
    if start == 0 || v.len() == 0 {
        return 0;
    }
    let q: usize = ink_before(&v, start);
    if q == 0 {
        return 0;
    }
    let mut s: usize = q;
    while s > 0 && classify(v[s - 1]) != CharClass::Space
        invariant
            s <= q < v.len(),
            text::skip_back(v@, q as int, not_space()) == text::skip_back(
                v@,
                s as int,
                not_space(),
            ),
        decreases s,
    {
        s -= 1;
    }
    offset_of(&v, s)
}

/// Start of the line that `byte` stands on.
pub fn line_start(buf: &Buffer, byte: usize) -> (r: usize)
    requires
        byte <= text::blen(buf@.text),
    ensures
        r == lines::line_off(buf@.text, lines::line_at(buf@.text, byte as int)),
{
    let line: usize = buf.byte_to_line(byte);
    buf.line_byte_offset(line)
}

/// First character of a line that is not white space, or the line's end.
pub fn line_first_nonblank(buf: &Buffer, byte: usize) -> (r: usize)
    requires
        byte <= text::blen(buf@.text),
    ensures
        r == first_nonblank(buf@.text, lines::line_at(buf@.text, byte as int)),
{
    let line: usize = buf.byte_to_line(byte);
    nonblank_of_line(buf, line)
}

/// First character of line `line` that is not white space, or the line's end.
pub fn nonblank_of_line(buf: &Buffer, line: usize) -> (r: usize)
    ensures
        r == first_nonblank(buf@.text, line as int),
{
    let start: usize = buf.line_byte_offset(line);
    let total: usize = buf.len_bytes();
    let l: String = buf.line(line);
    let v: Vec<char> = chars_of(&l);
    let mut i: usize = 0;
    while i < v.len() && v[i].is_whitespace()
        invariant
            i <= v.len(),
            text::skip_fwd(v@, 0, chars::space_fn()) == text::skip_fwd(
                v@,
                i as int,
                chars::space_fn(),
            ),
        decreases v.len() - i,
    {
        i += 1;
    }
    proof {
        lines::lemma_line_raw(buf@.text, line as int);
        text::lemma_off_mono(l@, i as int, l@.len() as int);
    }
    start + offset_of(&v, i)
}

/// End of a line: after its last character, before the line feed.
pub fn line_end(buf: &Buffer, byte: usize) -> (r: usize)
    requires
        byte <= text::blen(buf@.text),
    ensures
        ({
            let k = lines::line_at(buf@.text, byte as int);
            r == lines::line_off(buf@.text, k) + text::blen(lines::line_text(buf@.text, k))
        }),
        r <= text::blen(buf@.text),
{
    let line: usize = buf.byte_to_line(byte);
    let start: usize = buf.line_byte_offset(line);
    let total: usize = buf.len_bytes();
    let l: String = buf.line(line);
    proof {
        lines::lemma_line_raw(buf@.text, line as int);
    }
    start + byte_len(&l)
}

/// Byte offset of the last character of line `k`; of the line itself when it
/// is empty.
pub open spec fn last_on_line(t: Seq<char>, k: int) -> int {
    let l = lines::line_text(t, k);
    lines::line_off(t, k) + text::off(
        l,
        if l.len() > 0 {
            l.len() - 1
        } else {
            0
        },
    )
}

/// `$`: the last character of the line that `byte` stands on.
pub fn line_last(buf: &Buffer, byte: usize) -> (r: usize)
    requires
        byte <= text::blen(buf@.text),
    ensures
        r == last_on_line(buf@.text, lines::line_at(buf@.text, byte as int)),
        r <= text::blen(buf@.text),
{
    let line: usize = buf.byte_to_line(byte);
    let start: usize = buf.line_byte_offset(line);
    let total: usize = buf.len_bytes();
    let l: String = buf.line(line);
    let v: Vec<char> = chars_of(&l);
    let i: usize = if v.len() > 0 {
        v.len() - 1
    } else {
        0
    };
    proof {
        lines::lemma_line_raw(buf@.text, line as int);
        text::lemma_off_mono(l@, i as int, l@.len() as int);
    }
    start + offset_of(&v, i)
}

pub open spec fn as_int(r: Option<usize>) -> Option<int> {
    crate::buffer::int_opt(r)
}

/// `f`: the next place on the line that holds `target`.
pub fn find_forward(buf: &Buffer, byte: usize, target: char) -> (r: Option<usize>)
    requires
        byte <= text::blen(buf@.text),
    ensures
        as_int(r) == find_on_line_fwd(buf@.text, byte as int, target),
        r matches Some(b) ==> b <= text::blen(buf@.text),
{
    let (line, col) = buf.byte_to_line_col(byte);
    let start: usize = buf.line_byte_offset(line);
    let total: usize = buf.len_bytes();
    let l: String = buf.line(line);
    let v: Vec<char> = chars_of(&l);
    let c: usize = index_at(&v, col);
    proof {
        lines::lemma_line_raw(buf@.text, line as int);
        text::lemma_at(l@, col as int);
    }
    if c >= v.len() {
        return None;
    }
    let mut i: usize = c + 1;
    while i < v.len()
        invariant
            c < i <= v.len(),
            v@ == l@,
            text::blen(l@) <= usize::MAX,
            find_fwd(l@, c + 1, target) == find_fwd(l@, i as int, target),
            l@ == lines::line_text(buf@.text, line as int),
            line == lines::line_at(buf@.text, byte as int),
            start == lines::line_off(buf@.text, line as int),
            start + text::blen(l@) <= total,
            total == text::blen(buf@.text),
            col == byte - start,
            c == text::at(l@, col as int),
        decreases v.len() - i,
    {
        if v[i] == target {
            proof {
                text::lemma_off_mono(l@, i as int, l@.len() as int);
            }
            return Some(start + offset_of(&v, i));
        }
        i += 1;
    }
    None
}

/// `F`: the last place on the line before the cursor that holds `target`.
pub fn find_backward(buf: &Buffer, byte: usize, target: char) -> (r: Option<usize>)
    requires
        byte <= text::blen(buf@.text),
    ensures
        as_int(r) == find_on_line_back(buf@.text, byte as int, target),
        r matches Some(b) ==> b <= text::blen(buf@.text),
{
    let (line, col) = buf.byte_to_line_col(byte);
    let start: usize = buf.line_byte_offset(line);
    let total: usize = buf.len_bytes();
    let l: String = buf.line(line);
    let v: Vec<char> = chars_of(&l);
    let c: usize = index_at(&v, col);
    proof {
        lines::lemma_line_raw(buf@.text, line as int);
        text::lemma_at(l@, col as int);
    }
    let mut i: usize = c;
    while i > 0
        invariant
            i <= c <= v.len(),
            v@ == l@,
            text::blen(l@) <= usize::MAX,
            find_back(l@, c as int, target) == find_back(l@, i as int, target),
            l@ == lines::line_text(buf@.text, line as int),
            line == lines::line_at(buf@.text, byte as int),
            start == lines::line_off(buf@.text, line as int),
            start + text::blen(l@) <= total,
            total == text::blen(buf@.text),
            col == byte - start,
            c == text::at(l@, col as int),
        decreases i,
    {
        if v[i - 1] == target {
            proof {
                text::lemma_off_mono(l@, i - 1, l@.len() as int);
            }
            return Some(start + offset_of(&v, i - 1));
        }
        i -= 1;
    }
    None
}

proof fn lemma_back_to_ink(t: Seq<char>, i: int)
    requires
        0 <= i < t.len(),
    ensures
        0 <= back_to_ink(t, i) <= i,
    decreases i,
{
    if 0 < i && class_of(t[i]) is Space {
        lemma_back_to_ink(t, i - 1);
    }
}

/// Word motions stay in the text and land on characters: `w` and `W` never
/// move back, `b` and `B` never move forward.
pub proof fn law_word_motions(t: Seq<char>, b: int)
    requires
        text::bd(t, b),
    ensures
        ({
            let w = text::off(t, word_fwd(t, text::at(t, b)));
            &&& b <= w <= text::blen(t)
            &&& text::bd(t, w)
            &&& b < text::blen(t) ==> b < w
        }),
        ({
            let w = text::off(t, big_word_fwd(t, text::at(t, b)));
            &&& b <= w <= text::blen(t)
            &&& text::bd(t, w)
            &&& b < text::blen(t) ==> b < w
        }),
        forall|big: bool|
            0 <= #[trigger] back_motion(t, b, big) <= b && text::bd(t, back_motion(t, b, big)) && (b
                > 0 ==> back_motion(t, b, big) < b),
{
    let i = text::at(t, b);
    text::lemma_at(t, b);
    text::lemma_off_mono(t, 0, t.len() as int);
    let k = class_of(t[i]);
    let s = in_class(CharClass::Space);
    if i < t.len() {
        text::lemma_skip_fwd(t, i, in_class(k));
        text::lemma_skip_fwd(t, i, s);
        text::lemma_skip_fwd(t, text::skip_fwd(t, i, in_class(k)), s);
        assert(text::skip_fwd(t, i, in_class(k)) == text::skip_fwd(t, i + 1, in_class(k)));
        text::lemma_skip_fwd(t, i + 1, in_class(k));
        text::lemma_off_mono(t, i, word_fwd(t, i));
        text::lemma_off_mono(t, word_fwd(t, i), t.len() as int);
    }
    text::lemma_at_off(t, word_fwd(t, i));
    text::lemma_skip_fwd(t, i, not_space());
    text::lemma_skip_fwd(t, text::skip_fwd(t, i, not_space()), s);
    text::lemma_off_mono(t, i, big_word_fwd(t, i));
    text::lemma_off_mono(t, big_word_fwd(t, i), t.len() as int);
    text::lemma_at_off(t, big_word_fwd(t, i));
    if i < t.len() {
        if k is Space {
            text::lemma_skip_fwd(t, i + 1, s);
            assert(text::skip_fwd(t, i, not_space()) == i);
        } else {
            text::lemma_skip_fwd(t, i + 1, not_space());
        }
    }
    assert forall|big: bool|
        0 <= #[trigger] back_motion(t, b, big) <= b && text::bd(t, back_motion(t, b, big)) && (b > 0
            ==> back_motion(t, b, big) < b) by {
        text::lemma_at_off(t, 0);
        if b > 0 && t.len() > 0 {
            let p = before(t, b);
            text::lemma_at(t, b - 1);
            lemma_back_to_ink(t, p);
            let q = back_to_ink(t, p);
            text::lemma_skip_back(t, q, in_class(class_of(t[q])));
            text::lemma_skip_back(t, q, not_space());
            let r = if q == 0 {
                0
            } else if big {
                text::skip_back(t, q, not_space())
            } else {
                text::skip_back(t, q, in_class(class_of(t[q])))
            };
            text::lemma_off_mono(t, 0, r);
            text::lemma_off_mono(t, r, p);
            text::lemma_at_off(t, r);
            assert(back_motion(t, b, big) == text::off(t, r));
        }
    }
}

// ── Where the motions lead ──────────────────────────────────────────────

/// A word starts at index `k`: a character that is not white space, with one
/// of another class before it or none. For a WORD, only white space parts.
pub open spec fn starts_word(t: Seq<char>, k: int, big: bool) -> bool {
    &&& 0 <= k < t.len()
    &&& !(class_of(t[k]) is Space)
    &&& k == 0 || class_of(t[k - 1]) is Space || (!big && class_of(t[k - 1]) != class_of(t[k]))
}

/// A word ends with index `k`.
pub open spec fn ends_word(t: Seq<char>, k: int, big: bool) -> bool {
    &&& 0 <= k < t.len()
    &&& !(class_of(t[k]) is Space)
    &&& k + 1 == t.len() || class_of(t[k + 1]) is Space || (!big && class_of(t[k + 1]) != class_of(
        t[k],
    ))
}

/// `w` and `W` lead to the first word that starts after the cursor, and to the
/// end of the text when there is none.
pub proof fn law_to_next_word(t: Seq<char>, i: int, big: bool)
    requires
        0 <= i < t.len(),
    ensures
        ({
            let w = if big {
                big_word_fwd(t, i)
            } else {
                word_fwd(t, i)
            };
            &&& i < w <= t.len()
            &&& w < t.len() ==> starts_word(t, w, big)
            &&& forall|k: int| i < k < w ==> !#[trigger] starts_word(t, k, big)
        }),
{
    let c = class_of(t[i]);
    let p = if big {
        not_space()
    } else {
        in_class(c)
    };
    let s = in_class(CharClass::Space);
    let j = if c is Space {
        i
    } else {
        text::skip_fwd(t, i, p)
    };
    text::lemma_skip_fwd(t, i, p);
    text::lemma_skip_fwd(t, j, s);
    let w = text::skip_fwd(t, j, s);
    if c is Space {
        assert(s(t[i]));
        text::lemma_skip_fwd(t, i + 1, s);
        assert(text::skip_fwd(t, i, not_space()) == i);
    } else {
        assert(p(t[i]));
        text::lemma_skip_fwd(t, i + 1, p);
    }
    assert forall|k: int| i < k < w implies !#[trigger] starts_word(t, k, big) by {
        if k < j {
            assert(p(t[k]));
            assert(p(t[k - 1]));
        } else {
            assert(s(t[k]));
        }
    }
    if w < t.len() {
        assert(!s(t[w]));
        if w > j {
            assert(s(t[w - 1]));
        } else {
            assert(p(t[w - 1]));
            assert(!p(t[w]));
        }
    }
}

/// `b` and `B` lead to the last word that starts before the cursor, and to the
/// start of the text when there is none.
pub proof fn law_to_previous_word(t: Seq<char>, i: int, big: bool)
    requires
        0 < i <= t.len(),
    ensures
        exists|r: int|
            {
                &&& back_motion(t, text::off(t, i), big) == #[trigger] text::off(t, r)
                &&& 0 <= r < i
                &&& r == 0 || starts_word(t, r, big)
                &&& forall|k: int| r < k < i ==> !#[trigger] starts_word(t, k, big)
            },
{
    let b = text::off(t, i);
    text::lemma_at_off(t, i);
    text::lemma_off_mono(t, 0, i - 1);
    assert(text::off(t, i) == text::off(t, i - 1) + text::clen(t[i - 1]));
    text::lemma_at_unique(t, b - 1, i - 1);
    text::lemma_off_mono(t, i, t.len() as int);
    assert(before(t, b) == i - 1);
    lemma_back_over_space(t, i - 1);
    let q = back_to_ink(t, i - 1);
    let p = if big {
        not_space()
    } else {
        in_class(class_of(t[q]))
    };
    text::lemma_skip_back(t, q, p);
    let r = if q == 0 {
        0
    } else {
        text::skip_back(t, q, p)
    };
    assert(back_motion(t, b, big) == text::off(t, r));
    assert forall|k: int| r < k < i implies !#[trigger] starts_word(t, k, big) by {
        if k > q {
            assert(class_of(t[k]) is Space);
        } else if k < q {
            assert(p(t[k]));
            assert(p(t[k - 1]));
        } else {
            assert(p(t[k - 1]));
        }
    }
    if r > 0 {
        assert(!p(t[r - 1]));
        if r < q {
            assert(p(t[r]));
        }
    }
}

proof fn lemma_back_over_space(t: Seq<char>, i: int)
    requires
        0 <= i < t.len(),
    ensures
        0 <= back_to_ink(t, i) <= i,
        back_to_ink(t, i) > 0 ==> !(class_of(t[back_to_ink(t, i)]) is Space),
        forall|k: int| back_to_ink(t, i) < k <= i ==> class_of(#[trigger] t[k]) is Space,
    decreases i,
{
    if 0 < i && class_of(t[i]) is Space {
        lemma_back_over_space(t, i - 1);
    }
}

/// `e` and `E` lead to the first end of a word after the cursor, and to the
/// last character of the text when there is none.
pub proof fn law_to_word_end(t: Seq<char>, i: int, big: bool)
    requires
        0 <= i < t.len(),
    ensures
        exists|e: int|
            {
                &&& (if big {
                    big_word_end_at(t, i)
                } else {
                    word_end_at(t, i)
                }) == #[trigger] text::off(t, e)
                &&& i <= e < t.len()
                &&& forall|k: int| i < k < e ==> !#[trigger] ends_word(t, k, big)
                &&& (i < e && ends_word(t, e, big)) || (e == t.len() - 1 && (i < e ==> !ends_word(
                    t,
                    e,
                    big,
                )))
            },
{
    let s = in_class(CharClass::Space);
    let j = text::skip_fwd(t, i + 1, s);
    text::lemma_skip_fwd(t, i + 1, s);
    assert forall|k: int| i < k < j implies !#[trigger] ends_word(t, k, big) by {
        assert(s(t[k]));
    }
    if j < t.len() {
        let p = if big {
            not_space()
        } else {
            in_class(class_of(t[j]))
        };
        assert(!s(t[j]));
        assert(p(t[j]));
        text::lemma_skip_fwd(t, j, p);
        text::lemma_skip_fwd(t, j + 1, p);
        let e = text::skip_fwd(t, j, p) - 1;
        assert forall|k: int| i < k < e implies !#[trigger] ends_word(t, k, big) by {
            if k >= j {
                assert(p(t[k]));
                assert(p(t[k + 1]));
            }
        }
        assert(p(t[e]));
        if e + 1 < t.len() {
            assert(!p(t[e + 1]));
        }
        assert(ends_word(t, e, big));
        assert((if big {
            big_word_end_at(t, i)
        } else {
            word_end_at(t, i)
        }) == text::off(t, e));
    } else {
        let e = t.len() - 1;
        assert((if big {
            big_word_end_at(t, i)
        } else {
            word_end_at(t, i)
        }) == text::off(t, e));
    }
}

/// How often `c` stands among the characters `a..b`.
pub open spec fn times(t: Seq<char>, c: char, a: int, b: int) -> int
    decreases b - a,
{
    if a >= b {
        0
    } else {
        times(t, c, a, b - 1) + if t[b - 1] == c {
            1int
        } else {
            0int
        }
    }
}

proof fn lemma_times_none(t: Seq<char>, c: char, a: int, b: int)
    requires
        forall|k: int| a <= k < b ==> #[trigger] t[k] != c,
    ensures
        times(t, c, a, b) == 0,
    decreases b - a,
{
    if a < b {
        lemma_times_none(t, c, a, b - 1);
    }
}

pub proof fn lemma_times_split(t: Seq<char>, c: char, a: int, m: int, b: int)
    requires
        a <= m <= b,
    ensures
        times(t, c, a, b) == times(t, c, a, m) + times(t, c, m, b),
        times(t, c, a, m) >= 0,
        times(t, c, m, b) >= 0,
    decreases b - a,
{
    if m < b {
        lemma_times_split(t, c, a, m, b - 1);
    } else if a < m {
        lemma_times_split(t, c, a, a, m - 1);
        lemma_times_split(t, c, a, m - 1, m - 1);
    }
}

proof fn lemma_find_fwd(l: Seq<char>, i: int, c: char)
    requires
        0 <= i <= l.len(),
    ensures
        match find_fwd(l, i, c) {
            Some(j) => {
                &&& i <= j < l.len()
                &&& l[j] == c
                &&& forall|k: int| i <= k < j ==> #[trigger] l[k] != c
            },
            None => forall|k: int| i <= k < l.len() ==> #[trigger] l[k] != c,
        },
    decreases l.len() - i,
{
    if i < l.len() && l[i] != c {
        lemma_find_fwd(l, i + 1, c);
    }
}

proof fn lemma_find_back(l: Seq<char>, i: int, c: char)
    requires
        0 <= i <= l.len(),
    ensures
        match find_back(l, i, c) {
            Some(j) => {
                &&& 0 <= j < i
                &&& l[j] == c
                &&& forall|k: int| j < k < i ==> #[trigger] l[k] != c
            },
            None => forall|k: int| 0 <= k < i ==> #[trigger] l[k] != c,
        },
    decreases i,
{
    if i > 0 && l[i - 1] != c {
        lemma_find_back(l, i - 1, c);
    }
}

/// Place `j` of line `k`.
proof fn lemma_on_its_line(t: Seq<char>, k: int, j: int)
    requires
        0 <= k < lines::line_count(t),
        0 <= j < lines::line_text(t, k).len(),
    ensures
        ({
            let s = lines::line_start(t, k);
            let l = lines::line_text(t, k);
            let b = text::off(t, s + j);
            &&& 0 <= s
            &&& s + j < t.len()
            &&& t[s + j] == l[j]
            &&& lines::line_at(t, b) == k
            &&& text::at(l, b - lines::line_off(t, k)) == j
            &&& lines::line_off(t, k) + text::off(l, j) == b
        }),
{
    let s = lines::line_start(t, k);
    let l = lines::line_text(t, k);
    lines::lemma_line_raw(t, k);
    text::lemma_at_off(t, s + j);
    assert(text::off(l, j) == text::off(t, s + j) - lines::line_off(t, k));
    text::lemma_at_off(l, j);
    lines::lemma_on_line(t, k, s + j);
}

/// `f` and `t` find the `n`th of a character after the cursor on its line, and
/// `F` and `T` the `n`th before it: `i` and `j` being places on line `k`, the
/// one of `j` is found from `i` exactly when the character stands there and
/// there are `n` of it from after `i` up to `j`, or from `j` up to before `i`.
/// Nothing is found when there are fewer on the line.
pub proof fn law_nth_found(t: Seq<char>, k: int, i: int, c: char, after: bool, n: int)
    requires
        0 <= k < lines::line_count(t),
        0 <= i < lines::line_text(t, k).len(),
        1 <= n,
    ensures
        ({
            let s = lines::line_start(t, k);
            let l = lines::line_text(t, k);
            let r = nth_on_line(t, text::off(t, s + i), c, after, n);
            &&& after ==> match r {
                Some(b) => exists|j: int|
                    {
                        &&& i < j < l.len()
                        &&& b == #[trigger] text::off(t, s + j)
                        &&& l[j] == c
                        &&& times(l, c, i + 1, j + 1) == n
                    },
                None => times(l, c, i + 1, l.len() as int) < n,
            }
            &&& !after ==> match r {
                Some(b) => exists|j: int|
                    {
                        &&& 0 <= j < i
                        &&& b == #[trigger] text::off(t, s + j)
                        &&& l[j] == c
                        &&& times(l, c, j, i) == n
                    },
                None => times(l, c, 0, i) < n,
            }
        }),
    decreases n,
{
    let s = lines::line_start(t, k);
    let l = lines::line_text(t, k);
    let b = text::off(t, s + i);
    lemma_on_its_line(t, k, i);
    lemma_find_fwd(l, i + 1, c);
    lemma_find_back(l, i, c);
    let p = if after {
        find_fwd(l, i + 1, c)
    } else {
        find_back(l, i, c)
    };
    if p is None {
        if after {
            lemma_times_none(l, c, i + 1, l.len() as int);
        } else {
            lemma_times_none(l, c, 0, i);
        }
    } else {
        let j = p->0;
        lemma_on_its_line(t, k, j);
        if after {
            lemma_times_none(l, c, i + 1, j);
            assert(times(l, c, i + 1, j + 1) == 1);
        } else {
            lemma_times_none(l, c, j + 1, i);
            lemma_times_split(l, c, j, j + 1, i);
            assert(times(l, c, j, j) == 0);
            assert(times(l, c, j, j + 1) == 1);
        }
        if n > 1 {
            law_nth_found(t, k, j, c, after, n - 1);
            let r = nth_on_line(t, text::off(t, s + j), c, after, n - 1);
            assert(nth_on_line(t, b, c, after, n) == r);
            if r is Some {
                if after {
                    let m = choose|m: int|
                        {
                            &&& j < m < l.len()
                            &&& r->0 == #[trigger] text::off(t, s + m)
                            &&& l[m] == c
                            &&& times(l, c, j + 1, m + 1) == n - 1
                        };
                    lemma_times_split(l, c, i + 1, j + 1, m + 1);
                    assert(r->0 == text::off(t, s + m));
                } else {
                    let m = choose|m: int|
                        {
                            &&& 0 <= m < j
                            &&& r->0 == #[trigger] text::off(t, s + m)
                            &&& l[m] == c
                            &&& times(l, c, m, j) == n - 1
                        };
                    lemma_times_split(l, c, m, j, i);
                    assert(r->0 == text::off(t, s + m));
                }
            } else if after {
                lemma_times_split(l, c, i + 1, j + 1, l.len() as int);
            } else {
                lemma_times_split(l, c, 0, j, i);
            }
        } else {
            assert(nth_on_line(t, b, c, after, n) == Some(text::off(t, s + j)));
        }
    }
}

/// `^` leads to the first character of the line that is not white space, and
/// past the last one when there is none.
pub proof fn law_first_nonblank(t: Seq<char>, k: int, j: int)
    requires
        0 <= k,
        0 <= j <= lines::line_text(t, k).len(),
        forall|m: int| 0 <= m < j ==> chars::is_space(#[trigger] lines::line_text(t, k)[m]),
        j < lines::line_text(t, k).len() ==> !chars::is_space(lines::line_text(t, k)[j]),
    ensures
        first_nonblank(t, k) == text::off(t, lines::line_start(t, k) + j),
{
    let l = lines::line_text(t, k);
    lines::lemma_line_raw(t, k);
    let f = chars::space_fn();
    text::lemma_skip_fwd(l, 0, f);
    let m = text::skip_fwd(l, 0, f);
    if m < j {
        assert(f(l[m]));
    } else if j < m {
        assert(f(l[j]));
    }
    assert(text::off(l, j) == text::off(t, lines::line_start(t, k) + j) - lines::line_off(t, k));
}

} // verus!
