//! Lines of a text.
//!
//! A line ends after any Unicode line break: LF, VT, FF, CR, CR LF, NEL, LS
//! and PS. The break belongs to the line that it ends, and a text always has
//! a last line, possibly empty.

use vstd::prelude::*;
use crate::text;

verus! {

/// A line break ends right after the character with index `i`.
pub open spec fn is_break(t: Seq<char>, i: int) -> bool {
    let c = t[i];
    ||| c == '\n'
    ||| c == '\u{b}'
    ||| c == '\u{c}'
    ||| c == '\r' && !(i + 1 < t.len() && t[i + 1] == '\n')
    ||| c == '\u{85}'
    ||| c == '\u{2028}'
    ||| c == '\u{2029}'
}

/// Number of line breaks that end within the first `i` characters.
pub open spec fn breaks(t: Seq<char>, i: int) -> int
    decreases i,
{
    if i <= 0 {
        0
    } else {
        breaks(t, i - 1) + if is_break(t, i - 1) {
            1int
        } else {
            0int
        }
    }
}

pub open spec fn line_count(t: Seq<char>) -> int {
    breaks(t, t.len() as int) + 1
}

/// Line that the character with index `i` stands on.
pub open spec fn line_of(t: Seq<char>, i: int) -> int {
    breaks(t, i)
}

/// First index at or after `i` with `k` line breaks before it.
pub open spec fn reach(t: Seq<char>, k: int, i: int) -> int
    decreases t.len() - i,
{
    if i >= t.len() || breaks(t, i) >= k {
        i
    } else {
        reach(t, k, i + 1)
    }
}

/// Index of the first character of line `k`; the length of the text when
/// there is no such line.
pub open spec fn line_start(t: Seq<char>, k: int) -> int {
    reach(t, k, 0)
}

/// Line `k` with its line break.
pub open spec fn line_raw(t: Seq<char>, k: int) -> Seq<char> {
    t.subrange(line_start(t, k), line_start(t, k + 1))
}

pub open spec fn strip_lf(s: Seq<char>) -> Seq<char> {
    if s.len() > 0 && s.last() == '\n' {
        s.drop_last()
    } else {
        s
    }
}

/// Line `k` without its line feed.
pub open spec fn line_text(t: Seq<char>, k: int) -> Seq<char> {
    strip_lf(line_raw(t, k))
}

/// Byte offset of the start of line `k`.
pub open spec fn line_off(t: Seq<char>, k: int) -> int {
    text::off(t, line_start(t, k))
}

/// Line that byte `b` stands on.
pub open spec fn line_at(t: Seq<char>, b: int) -> int {
    line_of(t, text::at(t, b))
}

pub proof fn lemma_breaks_mono(t: Seq<char>, i: int, j: int)
    requires
        0 <= i <= j,
    ensures
        0 <= breaks(t, i) <= breaks(t, j) <= breaks(t, i) + (j - i),
    decreases j,
{
    if i < j {
        lemma_breaks_mono(t, i, j - 1);
    } else if i > 0 {
        lemma_breaks_mono(t, i - 1, i - 1);
    }
}

proof fn lemma_reach(t: Seq<char>, k: int, i: int)
    requires
        0 <= i <= t.len(),
        breaks(t, i) <= k || i == 0,
        0 <= k,
    ensures
        i <= reach(t, k, i) <= t.len(),
        k <= breaks(t, t.len() as int) ==> breaks(t, reach(t, k, i)) == k,
        k > breaks(t, t.len() as int) ==> reach(t, k, i) == t.len(),
        forall|m: int| i <= m < reach(t, k, i) ==> #[trigger] breaks(t, m) < k,
    decreases t.len() - i,
{
    lemma_breaks_mono(t, i, t.len() as int);
    lemma_breaks_mono(t, 0, i);
    if i < t.len() && breaks(t, i) < k {
        lemma_reach(t, k, i + 1);
    }
}

pub proof fn lemma_line_start(t: Seq<char>, k: int)
    requires
        0 <= k,
    ensures
        0 <= line_start(t, k) <= t.len(),
        k < line_count(t) ==> breaks(t, line_start(t, k)) == k,
        k >= line_count(t) ==> line_start(t, k) == t.len(),
        forall|m: int| 0 <= m < line_start(t, k) ==> #[trigger] breaks(t, m) < k,
        k == 0 ==> line_start(t, k) == 0,
        line_count(t) >= 1,
{
    lemma_reach(t, k, 0);
    lemma_breaks_mono(t, 0, t.len() as int);
}

pub proof fn lemma_line_start_mono(t: Seq<char>, j: int, k: int)
    requires
        0 <= j <= k,
    ensures
        line_start(t, j) <= line_start(t, k),
        j < k && j < line_count(t) && k < line_count(t) ==> line_start(t, j) < line_start(t, k),
{
    lemma_line_start(t, j);
    lemma_line_start(t, k);
    if line_start(t, k) < line_start(t, j) {
        assert(breaks(t, line_start(t, k)) < j);
    }
}

/// A character stands between the start of its line and that of the next.
pub proof fn lemma_line_of(t: Seq<char>, i: int)
    requires
        0 <= i <= t.len(),
    ensures
        0 <= line_of(t, i) < line_count(t),
        line_start(t, line_of(t, i)) <= i,
        i <= line_start(t, line_of(t, i) + 1),
        line_of(t, i) + 1 < line_count(t) ==> i < line_start(t, line_of(t, i) + 1),
{
    let k = line_of(t, i);
    lemma_breaks_mono(t, 0, i);
    lemma_breaks_mono(t, i, t.len() as int);
    lemma_line_start(t, k);
    lemma_line_start(t, k + 1);
    if i < line_start(t, k) {
        assert(breaks(t, i) < k);
    }
    if line_start(t, k + 1) < i {
        lemma_breaks_mono(t, line_start(t, k + 1), i);
    }
}

/// Conversely, an index in the range of a line stands on that line.
pub proof fn lemma_on_line(t: Seq<char>, k: int, i: int)
    requires
        0 <= k < line_count(t),
        line_start(t, k) <= i <= t.len(),
        k + 1 < line_count(t) ==> i < line_start(t, k + 1),
    ensures
        line_of(t, i) == k,
{
    lemma_line_start(t, k);
    lemma_line_start(t, k + 1);
    lemma_breaks_mono(t, line_start(t, k), i);
    lemma_breaks_mono(t, i, t.len() as int);
}

/// A line with its break is a piece of the text, and is empty only when it is
/// the last line.
pub proof fn lemma_line_raw(t: Seq<char>, k: int)
    requires
        0 <= k,
    ensures
        0 <= line_start(t, k) <= line_start(t, k + 1) <= t.len(),
        line_raw(t, k).len() == line_start(t, k + 1) - line_start(t, k),
        line_text(t, k).len() <= line_raw(t, k).len() <= line_text(t, k).len() + 1,
        line_start(t, k) + line_text(t, k).len() <= t.len(),
        line_text(t, k) == t.subrange(
            line_start(t, k),
            line_start(t, k) + line_text(t, k).len(),
        ),
        text::blen(line_text(t, k)) == text::off(t, line_start(t, k) + line_text(t, k).len()) - line_off(t, k),
        line_off(t, k) + text::blen(line_text(t, k)) <= text::blen(t),
        forall|j: int|
            0 <= j <= line_text(t, k).len() ==> #[trigger] text::off(line_text(t, k), j) == text::off(
                t,
                line_start(t, k) + j,
            ) - line_off(t, k),
{
    lemma_line_start(t, k);
    lemma_line_start(t, k + 1);
    lemma_line_start_mono(t, k, k + 1);
    let s = line_start(t, k);
    let n = line_text(t, k).len() as int;
    assert(line_text(t, k) =~= t.subrange(s, s + n));
    assert forall|j: int| 0 <= j <= n implies #[trigger] text::off(line_text(t, k), j) == text::off(t, s + j)
        - line_off(t, k) by {
        text::lemma_off_sub(t, s, s + n, j);
    }
    text::lemma_off_mono(t, s + n, t.len() as int);
}

/// A column on a line, rounded down to a character, is a place in the text.
pub proof fn lemma_line_col(t: Seq<char>, k: int, c: int)
    requires
        0 <= k,
        0 <= c,
    ensures
        ({
            let l = line_text(t, k);
            let j = text::at(l, c);
            &&& 0 <= j <= l.len()
            &&& text::off(l, j) <= c
            &&& line_off(t, k) + text::off(l, j) == text::off(t, line_start(t, k) + j)
            &&& text::bd(t, line_off(t, k) + text::off(l, j))
            &&& text::at(t, line_off(t, k) + text::off(l, j)) == line_start(t, k) + j
        }),
{
    lemma_line_raw(t, k);
    let l = line_text(t, k);
    text::lemma_at(l, c);
    text::lemma_at_off(t, line_start(t, k) + text::at(l, c));
}

proof fn lemma_breaks_shape(t: Seq<char>, u: Seq<char>, i: int)
    requires
        0 <= i <= t.len(),
        t.len() == u.len(),
        forall|j: int| 0 <= j < t.len() ==> #[trigger] is_break(t, j) == is_break(u, j),
    ensures
        breaks(t, i) == breaks(u, i),
    decreases i,
{
    if i > 0 {
        lemma_breaks_shape(t, u, i - 1);
        assert(is_break(t, i - 1) == is_break(u, i - 1));
    }
}

proof fn lemma_reach_shape(t: Seq<char>, u: Seq<char>, k: int, i: int)
    requires
        0 <= i <= t.len(),
        t.len() == u.len(),
        forall|j: int| 0 <= j < t.len() ==> #[trigger] is_break(t, j) == is_break(u, j),
    ensures
        reach(t, k, i) == reach(u, k, i),
    decreases t.len() - i,
{
    lemma_breaks_shape(t, u, i);
    if i < t.len() && breaks(t, i) < k {
        lemma_reach_shape(t, u, k, i + 1);
    }
}

/// Texts that break in the same places have their lines in the same places.
pub proof fn lemma_line_start_shape(t: Seq<char>, u: Seq<char>, k: int)
    requires
        t.len() == u.len(),
        forall|j: int| 0 <= j < t.len() ==> #[trigger] is_break(t, j) == is_break(u, j),
    ensures
        line_start(t, k) == line_start(u, k),
        line_count(t) == line_count(u),
{
    lemma_reach_shape(t, u, k, 0);
    lemma_breaks_shape(t, u, t.len() as int);
}

/// A place after `k` line breaks, right after the last of them, is the start
/// of line `k`.
pub proof fn lemma_starts_line(t: Seq<char>, k: int, m: int)
    requires
        0 <= m <= t.len(),
        breaks(t, m) == k,
        m == 0 || is_break(t, m - 1),
    ensures
        line_start(t, k) == m,
        0 <= k < line_count(t),
{
    lemma_breaks_mono(t, 0, m);
    lemma_breaks_mono(t, m, t.len() as int);
    lemma_line_start(t, k);
    let s = line_start(t, k);
    if s > m {
        assert(breaks(t, m) < k);
    }
    if s < m {
        lemma_breaks_mono(t, s, m - 1);
    }
}

/// Each line but the first starts right after a line break.
pub proof fn lemma_after_break(t: Seq<char>, k: int)
    requires
        0 < k < line_count(t),
    ensures
        line_start(t, k) > 0,
        is_break(t, line_start(t, k) - 1),
{
    lemma_line_start(t, k);
    let s = line_start(t, k);
    assert(breaks(t, s - 1) < k);
}

/// Lines that a line feed ends: each one with a line feed after it.
pub open spec fn stacked(ls: Seq<Seq<char>>) -> Seq<char>
    decreases ls.len(),
{
    if ls.len() == 0 {
        Seq::empty()
    } else {
        stacked(ls.drop_last()) + ls.last().push('\n')
    }
}

/// With a line feed after it, `l` is just one line.
pub open spec fn one_line(l: Seq<char>) -> bool {
    forall|i: int| 0 <= i < l.len() ==> !#[trigger] is_break(l.push('\n'), i)
}

pub proof fn lemma_same_breaks(t: Seq<char>, u: Seq<char>, n: int)
    requires
        0 <= n <= t.len(),
        n <= u.len(),
        t.take(n) == u.take(n),
        n == 0 || t[n - 1] != '\r',
    ensures
        forall|i: int| 0 <= i < n ==> #[trigger] is_break(t, i) == is_break(u, i),
        breaks(t, n) == breaks(u, n),
    decreases n,
{
    assert forall|i: int| 0 <= i < n implies #[trigger] is_break(t, i) == is_break(u, i) by {
        assert(t[i] == t.take(n)[i] == u.take(n)[i] == u[i]);
        if i + 1 < n {
            assert(t[i + 1] == t.take(n)[i + 1] == u.take(n)[i + 1] == u[i + 1]);
        } else {
            assert(t[i] != '\r');
        }
    }
    lemma_same_count(t, u, 0, 0, n);
}

/// Stretches with breaks in the same places hold as many.
pub proof fn lemma_same_count(t: Seq<char>, u: Seq<char>, a: int, b: int, n: int)
    requires
        0 <= a,
        0 <= b,
        0 <= n,
        forall|i: int| a <= i < a + n ==> #[trigger] is_break(t, i) == is_break(u, i - a + b),
    ensures
        breaks(t, a + n) - breaks(t, a) == breaks(u, b + n) - breaks(u, b),
    decreases n,
{
    if n > 0 {
        lemma_same_count(t, u, a, b, n - 1);
        assert(is_break(t, a + n - 1) == is_break(u, a + n - 1 - a + b));
    }
}

proof fn lemma_one_more(u: Seq<char>, b: int, l: Seq<char>)
    requires
        0 <= b,
        b + l.len() < u.len(),
        u.subrange(b, b + l.len() + 1) == l.push('\n'),
        one_line(l),
    ensures
        breaks(u, b + l.len() + 1) == breaks(u, b) + 1,
        is_break(u, b + l.len()),
        u[b + l.len()] == '\n',
{
    let w = l.push('\n');
    assert forall|i: int| 0 <= i < w.len() implies #[trigger] is_break(w, i) == is_break(
        u,
        i - 0 + b,
    ) by {
        assert(u.subrange(b, b + l.len() + 1)[i] == u[b + i]);
        if i + 1 < w.len() {
            assert(u.subrange(b, b + l.len() + 1)[i + 1] == u[b + i + 1]);
        }
    }
    assert(w[l.len() as int] == '\n');
    assert(is_break(w, l.len() as int));
    lemma_same_count(w, u, 0, b, w.len() as int);
    lemma_no_breaks(w, l.len() as int);
    assert(breaks(w, w.len() as int) == breaks(w, l.len() as int) + 1);
}

proof fn lemma_no_breaks(t: Seq<char>, n: int)
    requires
        0 <= n,
        forall|i: int| 0 <= i < n ==> !#[trigger] is_break(t, i),
    ensures
        breaks(t, n) == 0,
    decreases n,
{
    if n > 0 {
        lemma_no_breaks(t, n - 1);
        assert(!is_break(t, n - 1));
    }
}

/// Lines put between two texts are lines of the whole.
pub proof fn lemma_stacked(front: Seq<char>, ls: Seq<Seq<char>>, back: Seq<char>)
    requires
        front.len() == 0 || (is_break(front, front.len() - 1) && front.last() != '\r'),
        forall|i: int| 0 <= i < ls.len() ==> #[trigger] one_line(ls[i]),
    ensures
        ({
            let u = front + stacked(ls) + back;
            let k = breaks(front, front.len() as int);
            let e = (front.len() + stacked(ls).len()) as int;
            &&& breaks(u, e) == k + ls.len()
            &&& e == 0 || (is_break(u, e - 1) && u[e - 1] != '\r')
            &&& line_start(u, k + ls.len()) == e
            &&& forall|i: int| 0 <= i < ls.len() ==> #[trigger] line_text(u, k + i) == ls[i]
        }),
    decreases ls.len(),
{
    let u = front + stacked(ls) + back;
    let k = breaks(front, front.len() as int);
    let e = (front.len() + stacked(ls).len()) as int;
    if ls.len() == 0 {
        assert(u.take(front.len() as int) =~= front.take(front.len() as int));
        lemma_same_breaks(front, u, front.len() as int);
        if e > 0 {
            assert(is_break(front, e - 1) == is_break(u, e - 1));
        }
        lemma_starts_line(u, k, e);
    } else {
        let l = ls.last();
        let ms = ls.drop_last();
        let b = (front.len() + stacked(ms).len()) as int;
        assert forall|i: int| 0 <= i < ms.len() implies #[trigger] one_line(ms[i]) by {
            assert(ms[i] == ls[i]);
        }
        assert(u =~= front + stacked(ms) + (l.push('\n') + back));
        lemma_stacked(front, ms, l.push('\n') + back);
        assert(one_line(ls[ls.len() - 1]));
        assert(u.subrange(b, b + l.len() + 1) =~= l.push('\n'));
        lemma_one_more(u, b, l);
        assert(e == b + l.len() + 1);
        assert(is_break(u, e - 1));
        lemma_starts_line(u, k + ls.len(), e);
        assert(line_raw(u, k + ms.len()) =~= l.push('\n'));
        assert(l.push('\n').drop_last() =~= l);
        assert(line_text(u, k + ms.len()) == l);
        assert forall|i: int| 0 <= i < ls.len() implies #[trigger] line_text(u, k + i) == ls[i] by {
            if i < ms.len() {
                assert(line_text(u, k + i) == ms[i]);
            }
        }
    }
}

/// The lines of a text before and after a stretch that is replaced by other
/// lines are still there.
pub proof fn lemma_replaced(t: Seq<char>, l1: int, l2: int, ls: Seq<Seq<char>>)
    requires
        0 <= l1 <= l2 < line_count(t),
        l1 == 0 || t[line_start(t, l1) - 1] != '\r',
        forall|i: int| 0 <= i < ls.len() ==> #[trigger] one_line(ls[i]),
    ensures
        ({
            let u = t.take(line_start(t, l1)) + stacked(ls) + t.skip(line_start(t, l2));
            &&& line_count(u) == line_count(t) - (l2 - l1) + ls.len()
            &&& forall|i: int| 0 <= i < l1 ==> #[trigger] line_text(u, i) == line_text(t, i)
            &&& forall|i: int| 0 <= i < ls.len() ==> #[trigger] line_text(u, l1 + i) == ls[i]
            &&& forall|i: int|
                l2 <= i < line_count(t) ==> #[trigger] line_text(u, i - (l2 - l1) + ls.len())
                    == line_text(t, i)
        }),
{
    let p = line_start(t, l1);
    let q = line_start(t, l2);
    lemma_line_start(t, l1);
    lemma_line_start(t, l2);
    lemma_line_start_mono(t, l1, l2);
    let front = t.take(p);
    let back = t.skip(q);
    let u = front + stacked(ls) + back;
    assert(front.take(p) =~= t.take(p));
    if l1 > 0 {
        lemma_after_break(t, l1);
    }
    lemma_same_breaks(t, front, p);
    if p > 0 {
        assert(is_break(t, p - 1) == is_break(front, p - 1));
        if l1 == 0 {
            assert(false);
        }
    }
    lemma_stacked(front, ls, back);
    let e = p + stacked(ls).len();
    assert(u.take(p) =~= t.take(p));
    lemma_same_breaks(t, u, p);
    assert forall|i: int| 0 <= i < l1 implies #[trigger] line_text(u, i) == line_text(t, i) by {
        lemma_prefix_line(t, u, p, l1, i);
        lemma_prefix_line(t, u, p, l1, i + 1);
        lemma_line_raw(t, i);
        lemma_line_start_mono(t, i + 1, l1);
        assert(line_raw(u, i) =~= line_raw(t, i)) by {
            assert forall|j: int| 0 <= j < p implies t[j] == u[j] by {
                assert(t.take(p)[j] == u.take(p)[j]);
            }
        }
    }
    let d = ls.len() - (l2 - l1);
    assert forall|i: int| q <= i < t.len() implies #[trigger] is_break(t, i) == is_break(
        u,
        i - q + e,
    ) by {
        assert(u[i - q + e] == t[i]);
        if i + 1 < t.len() {
            assert(u[i + 1 - q + e] == t[i + 1]);
        }
    }
    lemma_same_count(t, u, q, e as int, t.len() - q);
    assert(u.len() == e + (t.len() - q));
    assert forall|i: int| l2 <= i < line_count(t) implies #[trigger] line_text(
        u,
        i - (l2 - l1) + ls.len(),
    ) == line_text(t, i) by {
        lemma_suffix_line(t, u, q, e as int, l2, l1 + ls.len(), i);
        lemma_line_raw(t, i);
        lemma_line_start_mono(t, l2, i);
        if i + 1 < line_count(t) {
            lemma_suffix_line(t, u, q, e as int, l2, l1 + ls.len(), i + 1);
        } else {
            lemma_line_start(t, i + 1);
            lemma_line_start(u, i + 1 + d);
        }
        assert(line_raw(u, i + d) =~= line_raw(t, i));
    }
}

pub proof fn lemma_prefix_line(t: Seq<char>, u: Seq<char>, p: int, l1: int, i: int)
    requires
        0 <= p <= t.len(),
        p <= u.len(),
        0 <= i <= l1 < line_count(t),
        p == line_start(t, l1),
        t.take(p) == u.take(p),
        p == 0 || t[p - 1] != '\r',
    ensures
        line_start(u, i) == line_start(t, i),
{
    let m = line_start(t, i);
    lemma_line_start(t, i);
    lemma_line_start_mono(t, i, l1);
    lemma_same_breaks(t, u, p);
    if i > 0 {
        lemma_after_break(t, i);
        assert(is_break(t, m - 1) == is_break(u, m - 1));
    }
    assert forall|j: int| 0 <= j < m implies #[trigger] is_break(t, j) == is_break(u, j - 0 + 0) by {
    }
    lemma_same_count(t, u, 0, 0, m);
    lemma_starts_line(u, i, m);
}

proof fn lemma_suffix_line(t: Seq<char>, u: Seq<char>, q: int, e: int, a: int, b: int, i: int)
    requires
        0 <= a <= i < line_count(t),
        q == line_start(t, a),
        breaks(u, e) == b,
        0 <= e,
        e == 0 || is_break(u, e - 1),
        u.len() == e + (t.len() - q),
        forall|j: int| q <= j < t.len() ==> #[trigger] is_break(t, j) == is_break(u, j - q + e),
    ensures
        line_start(u, i - a + b) == line_start(t, i) - q + e,
{
    let m = line_start(t, i);
    lemma_line_start(t, i);
    lemma_line_start(t, a);
    lemma_line_start_mono(t, a, i);
    lemma_same_count(t, u, q, e, m - q);
    if m > q {
        lemma_after_break(t, i);
        assert(is_break(t, m - 1) == is_break(u, m - 1 - q + e));
    }
    lemma_starts_line(u, i - a + b, m - q + e);
}

/// A character that is no part of a line break.
pub open spec fn plain(c: char) -> bool {
    c != '\n' && c != '\r' && c != '\u{b}' && c != '\u{c}' && c != '\u{85}' && c != '\u{2028}' && c
        != '\u{2029}'
}

/// Characters of a line that are replaced by others leave the other lines as
/// they are.
pub proof fn lemma_within_line(t: Seq<char>, k: int, a: int, b: int, r: Seq<char>)
    requires
        0 <= k < line_count(t),
        0 <= a < b <= line_text(t, k).len(),
        r.len() > 0,
        forall|i: int| 0 <= i < r.len() ==> plain(#[trigger] r[i]),
        forall|i: int| a <= i < b ==> plain(#[trigger] line_text(t, k)[i]),
    ensures
        ({
            let s = line_start(t, k);
            let l = line_text(t, k);
            let u = t.take(s + a) + r + t.skip(s + b);
            &&& line_count(u) == line_count(t)
            &&& line_start(u, k) == s
            &&& line_text(u, k) == l.take(a) + r + l.skip(b)
        }),
{
    let s = line_start(t, k);
    let l = line_text(t, k);
    let p = s + a;
    let q = s + b;
    let u = t.take(p) + r + t.skip(q);
    lemma_line_raw(t, k);
    lemma_line_start(t, k);
    lemma_line_start(t, k + 1);
    assert forall|i: int| p <= i < q implies plain(#[trigger] t[i]) by {
        assert(t[i] == l[i - s]);
        assert(plain(l[i - s]));
    }
    assert(plain(r[0]));
    assert(plain(t[p]));
    assert(u[p] == r[0]);
    assert forall|i: int| 0 <= i < p implies #[trigger] is_break(t, i) == is_break(u, i - 0 + 0) by {
        assert(u[i] == t[i]);
        if i + 1 < p {
            assert(u[i + 1] == t[i + 1]);
        }
    }
    lemma_same_count(t, u, 0, 0, p);
    assert forall|i: int| 0 <= i < s implies #[trigger] is_break(t, i) == is_break(u, i - 0 + 0) by {
    }
    lemma_same_count(t, u, 0, 0, s);
    let e = p + r.len();
    assert forall|i: int| p <= i < e implies !#[trigger] is_break(u, i) by {
        assert(u[i] == r[i - p]);
        assert(plain(r[i - p]));
    }
    lemma_none_in(t, p, q);
    lemma_none_in(u, p, e);
    assert forall|i: int| q <= i < t.len() implies #[trigger] is_break(t, i) == is_break(
        u,
        i - q + e,
    ) by {
        assert(u[i - q + e] == t[i]);
        if i + 1 < t.len() {
            assert(u[i + 1 - q + e] == t[i + 1]);
        }
    }
    lemma_same_count(t, u, q, e, t.len() - q);
    if k > 0 {
        lemma_after_break(t, k);
        assert(is_break(t, s - 1) == is_break(u, s - 1 - 0 + 0));
    }
    lemma_starts_line(u, k, s);
    let m = line_start(t, k + 1);
    let n = m - q + e;
    if k + 1 < line_count(t) {
        lemma_after_break(t, k + 1);
        if m == q {
            assert(plain(t[q - 1]));
        }
        assert(is_break(t, m - 1) == is_break(u, m - 1 - q + e));
        lemma_same_count(t, u, q, e, m - q);
        lemma_starts_line(u, k + 1, n);
    } else {
        lemma_line_start(u, k + 1);
    }
    assert(line_start(u, k + 1) == n);
    assert(line_raw(u, k) =~= line_raw(t, k).take(a) + r + line_raw(t, k).skip(b));
    assert(line_raw(u, k).last() == (if q < m {
        t[m - 1]
    } else {
        r.last()
    }));
    assert(plain(r[r.len() - 1]));
    assert(plain(t[q - 1]));
    assert(line_text(u, k) =~= l.take(a) + r + l.skip(b));
}

proof fn lemma_none_in(t: Seq<char>, a: int, b: int)
    requires
        0 <= a <= b,
        forall|i: int| a <= i < b ==> !#[trigger] is_break(t, i),
    ensures
        breaks(t, a) == breaks(t, b),
    decreases b - a,
{
    if a < b {
        lemma_none_in(t, a, b - 1);
        assert(!is_break(t, b - 1));
    }
}

fn ends_line(v: &Vec<char>, i: usize) -> (r: bool)
    requires
        i < v@.len(),
    ensures
        r == is_break(v@, i as int),
{
    let c: char = v[i];
    c == '\n' || c == '\u{b}' || c == '\u{c}' || (c == '\r' && !(i < v.len() - 1 && v[i + 1]
        == '\n')) || c == '\u{85}' || c == '\u{2028}' || c == '\u{2029}'
}

/// Number of line breaks that end within the first `n` characters.
pub fn count_breaks(v: &Vec<char>, n: usize) -> (k: usize)
    requires
        n <= v@.len(),
    ensures
        k == breaks(v@, n as int),
        k <= n,
{
    let mut k: usize = 0;
    let mut i: usize = 0;
    while i < n
        invariant
            k <= i <= n <= v@.len(),
            k == breaks(v@, i as int),
        decreases n - i,
    {
        if ends_line(v, i) {
            k += 1;
        }
        i += 1;
    }
    k
}

/// Whether the character with index `i` is the first of its line.
pub fn heads_line(v: &Vec<char>, i: usize) -> (r: bool)
    requires
        i <= v@.len(),
    ensures
        r == (line_start(v@, line_of(v@, i as int)) == i),
{
    proof {
        if i == 0 || is_break(v@, i - 1) {
            lemma_starts_line(v@, breaks(v@, i as int), i as int);
        } else {
            let k = breaks(v@, i as int);
            lemma_line_of(v@, i as int);
            lemma_line_start(v@, k);
            if line_start(v@, k) == i {
                lemma_breaks_mono(v@, 0, i - 1);
                assert(breaks(v@, i - 1) < k);
            }
        }
    }
    i == 0 || ends_line(v, i - 1)
}

/// Lines put after others.
pub proof fn lemma_stacked_add(a: Seq<Seq<char>>, b: Seq<Seq<char>>)
    ensures
        stacked(a + b) == stacked(a) + stacked(b),
    decreases b.len(),
{
    if b.len() == 0 {
        assert(a + b =~= a);
        assert(stacked(a + b) =~= stacked(a) + stacked(b));
    } else {
        lemma_stacked_add(a, b.drop_last());
        assert((a + b).drop_last() =~= a + b.drop_last());
        assert(stacked(a + b) =~= stacked(a) + stacked(b));
    }
}

/// Every character of `l` is no part of a line break.
pub open spec fn all_plain(l: Seq<char>) -> bool {
    forall|i: int| 0 <= i < l.len() ==> plain(#[trigger] l[i])
}

/// The only line breaks of the text are line feeds.
pub open spec fn simple(t: Seq<char>) -> bool {
    forall|i: int| 0 <= i < t.len() ==> (plain(#[trigger] t[i]) || t[i] == '\n')
}

/// In such a text each line but the last ends in a line feed, and the lines
/// hold no other break.
pub proof fn lemma_simple_line(t: Seq<char>, k: int)
    requires
        simple(t),
        0 <= k < line_count(t),
    ensures
        all_plain(line_text(t, k)),
        k + 1 < line_count(t) ==> line_raw(t, k) == line_text(t, k).push('\n'),
        k + 1 == line_count(t) ==> line_raw(t, k) == line_text(t, k),
        k > 0 ==> line_start(t, k) > 0 && t[line_start(t, k) - 1] == '\n',
{
    lemma_line_raw(t, k);
    lemma_line_start(t, k);
    lemma_line_start(t, k + 1);
    let s = line_start(t, k);
    let e = line_start(t, k + 1);
    let w = line_raw(t, k);
    if k > 0 {
        lemma_after_break(t, k);
        assert(plain(t[s - 1]) || t[s - 1] == '\n');
    }
    if k + 1 < line_count(t) {
        lemma_after_break(t, k + 1);
        lemma_line_start_mono(t, k, k + 1);
        assert(plain(t[e - 1]) || t[e - 1] == '\n');
        assert(w.last() == t[e - 1]);
        assert(line_text(t, k).push('\n') =~= w);
    } else if w.len() > 0 && w.last() == '\n' {
        assert(t[e - 1] == '\n');
        assert(is_break(t, e - 1));
        assert(breaks(t, e) == breaks(t, e - 1) + 1);
        lemma_breaks_mono(t, s, e - 1);
    }
    let l = line_text(t, k);
    assert forall|i: int| 0 <= i < l.len() implies plain(#[trigger] l[i]) by {
        assert(l[i] == t[s + i]);
        if t[s + i] == '\n' {
            assert(is_break(t, s + i));
            assert(breaks(t, s + i + 1) == breaks(t, s + i) + 1);
            lemma_breaks_mono(t, s, s + i);
            if k + 1 < line_count(t) {
                assert(s + i + 1 < e);
                assert(breaks(t, s + i + 1) < k + 1);
            } else {
                lemma_breaks_mono(t, s + i + 1, t.len() as int);
            }
        }
    }
}

/// A line of such a text that is given another text is that line then, and
/// all the others stay.
pub proof fn lemma_line_set(t: Seq<char>, k: int, w: Seq<char>)
    requires
        simple(t),
        all_plain(w),
        0 <= k < line_count(t),
    ensures
        ({
            let s = line_start(t, k);
            let u = t.take(s) + w + t.skip(s + line_text(t, k).len());
            &&& simple(u)
            &&& line_count(u) == line_count(t)
            &&& forall|j: int|
                0 <= j < line_count(t) ==> #[trigger] line_text(u, j) == if j == k {
                    w
                } else {
                    line_text(t, j)
                }
        }),
{
    let s = line_start(t, k);
    let l = line_text(t, k);
    let u = t.take(s) + w + t.skip(s + l.len());
    lemma_simple_line(t, k);
    lemma_line_raw(t, k);
    lemma_line_start(t, k);
    assert forall|i: int| 0 <= i < u.len() implies (plain(#[trigger] u[i]) || u[i] == '\n') by {
        if i < s {
            assert(u[i] == t[i]);
        } else if i < s + w.len() {
            assert(u[i] == w[i - s]);
        } else {
            assert(u[i] == t[i - w.len() + l.len()]);
        }
    }
    if k + 1 < line_count(t) {
        let e = line_start(t, k + 1);
        let ls = seq![w];
        assert(one_line(w)) by {
            assert forall|i: int| 0 <= i < w.len() implies !#[trigger] is_break(w.push('\n'), i) by {
                assert(w.push('\n')[i] == w[i]);
                assert(plain(w[i]));
            }
        }
        assert(ls.drop_last() =~= Seq::<Seq<char>>::empty());
        assert(ls.last() == w);
        assert(stacked(ls.drop_last()) =~= Seq::<char>::empty());
        assert(stacked(ls) == stacked(ls.drop_last()) + w.push('\n'));
        assert(stacked(ls) =~= w.push('\n'));
        assert(t[s + l.len()] == line_raw(t, k)[l.len() as int]);
        assert(t.skip(s + l.len()) =~= seq!['\n'] + t.skip(e));
        assert(u =~= t.take(s) + stacked(ls) + t.skip(e));
        lemma_replaced(t, k, k + 1, ls);
        assert forall|j: int| 0 <= j < line_count(t) implies #[trigger] line_text(u, j) == (if j
            == k {
            w
        } else {
            line_text(t, j)
        }) by {
            if j == k {
                assert(line_text(u, k + 0) == ls[0]);
            } else if j > k {
                assert(line_text(u, j - (k + 1 - k) + ls.len()) == line_text(t, j));
            }
        }
    } else {
        lemma_line_start(t, k + 1);
        assert(u =~= t.take(s) + w);
        assert(u.take(s) =~= t.take(s));
        lemma_same_breaks(t, u, s);
        assert forall|i: int| s <= i < u.len() implies !#[trigger] is_break(u, i) by {
            assert(u[i] == w[i - s]);
            assert(plain(w[i - s]));
        }
        assert forall|i: int| s <= i < t.len() implies !#[trigger] is_break(t, i) by {
            assert(t[i] == l[i - s]);
            assert(plain(l[i - s]));
        }
        lemma_none_in(u, s, u.len() as int);
        lemma_none_in(t, s, t.len() as int);
        assert(line_count(u) == line_count(t));
        if s > 0 {
            assert(is_break(t, s - 1) == is_break(u, s - 1));
            if k > 0 {
                lemma_after_break(t, k);
            }
        }
        lemma_starts_line(u, k, s);
        lemma_line_start(u, k + 1);
        assert(line_raw(u, k) =~= w);
        if w.len() > 0 {
            assert(plain(w[w.len() - 1]));
        }
        assert forall|j: int| 0 <= j < line_count(t) implies #[trigger] line_text(u, j) == (if j
            == k {
            w
        } else {
            line_text(t, j)
        }) by {
            if j < k {
                lemma_prefix_line(t, u, s, k, j);
                lemma_prefix_line(t, u, s, k, j + 1);
                lemma_line_raw(t, j);
                lemma_line_start_mono(t, j + 1, k);
                assert(line_raw(u, j) =~= line_raw(t, j)) by {
                    assert forall|i: int| 0 <= i < s implies u[i] == t[i] by {
                    }
                }
            }
        }
    }
}

} // verus!
