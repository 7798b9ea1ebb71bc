//! Laws of reformatting text.

use vstd::prelude::*;
use vstd::string::*;
use crate::chars;
use crate::layout;
use crate::lines;
use crate::motion;
use crate::strs;
use crate::text;

verus! {

/// Something between white space.
pub open spec fn word(w: Seq<char>) -> bool {
    &&& w.len() > 0
    &&& forall|i: int| 0 <= i < w.len() ==> !chars::is_space(#[trigger] w[i]) && w[i] != '>'
}

pub open spec fn words(ws: Seq<Seq<char>>) -> bool {
    forall|k: int| 0 <= k < ws.len() ==> word(#[trigger] ws[k])
}

/// A line that holds something and no quote marks.
pub open spec fn inked(l: Seq<char>) -> bool {
    &&& l.len() > 0
    &&& !chars::is_space(l[0])
    &&& !chars::is_space(l.last())
    &&& unquoted(l)
}

/// A line without quote marks.
pub open spec fn unquoted(l: Seq<char>) -> bool {
    forall|i: int| 0 <= i < l.len() ==> #[trigger] l[i] != '>' && l[i] != '\n'
}

pub open spec fn all_unquoted(ls: Seq<Seq<char>>) -> bool {
    forall|k: int| 0 <= k < ls.len() ==> unquoted(#[trigger] ls[k])
}

/// The words of lines, in order.
pub open spec fn words_in(ls: Seq<Seq<char>>) -> Seq<Seq<char>>
    decreases ls.len(),
{
    if ls.len() == 0 {
        Seq::empty()
    } else {
        words_in(ls.drop_last()) + strs::words_from(ls.last(), 0)
    }
}

/// What lines are made of.
#[verifier::ext_equal]
pub enum Piece {
    Word(Seq<char>),
    /// A blank line as it is.
    Blank(Seq<char>),
}

pub open spec fn as_pieces(ws: Seq<Seq<char>>) -> Seq<Piece> {
    Seq::new(ws.len(), |i: int| Piece::Word(ws[i]))
}

/// The words of lines and the blank lines among them, in order.
pub open spec fn pieces_in(ls: Seq<Seq<char>>) -> Seq<Piece>
    decreases ls.len(),
{
    if ls.len() == 0 {
        Seq::empty()
    } else if chars::blank(ls.last()) {
        pieces_in(ls.drop_last()).push(Piece::Blank(ls.last()))
    } else {
        pieces_in(ls.drop_last()) + as_pieces(strs::words_from(ls.last(), 0))
    }
}

/// The lines from index `i` on with every paragraph filled to `w` columns.
pub open spec fn relined(ls: Seq<Seq<char>>, w: int, i: int) -> Seq<Seq<char>>
    decreases ls.len() - i,
{
    if i < 0 || i >= ls.len() {
        Seq::empty()
    } else if chars::blank(ls[i]) {
        seq![ls[i]] + relined(ls, w, i + 1)
    } else {
        let j = layout::para_end(ls, Seq::empty(), i);
        if j <= i || j > ls.len() {
            Seq::empty()
        } else {
            layout::fill(layout::para_words(ls, i, j), w, 0, Seq::empty()) + relined(ls, w, j)
        }
    }
}

proof fn lemma_skip(s: Seq<char>, a: int, f: spec_fn(char) -> bool, j: int)
    requires
        0 <= a <= j <= s.len(),
        forall|i: int| a <= i < j ==> f(#[trigger] s[i]),
        j < s.len() ==> !f(s[j]),
    ensures
        text::skip_fwd(s, a, f) == j,
{
    text::lemma_skip_fwd(s, a, f);
    let k = text::skip_fwd(s, a, f);
    if k < j {
        assert(f(s[k]));
    } else if k > j {
        assert(f(s[j]));
    }
}

proof fn lemma_none_back(l: Seq<char>, n: int)
    requires
        unquoted(l),
        n <= l.len(),
    ensures
        motion::find_back(l, n, '>') is None,
    decreases n,
{
    if n > 0 {
        assert(l[n - 1] != '>');
        lemma_none_back(l, n - 1);
    }
}

proof fn lemma_marks(l: Seq<char>)
    requires
        unquoted(l),
    ensures
        layout::quote_marks(l) == Seq::<char>::empty(),
        layout::quote_body(l) == l,
{
    text::lemma_skip_fwd(l, 0, layout::quote_fn());
    lemma_none_back(l, text::skip_fwd(l, 0, layout::quote_fn()));
    assert(layout::quote_marks(l) =~= Seq::<char>::empty());
    assert(layout::quote_body(l) =~= l);
}

proof fn lemma_spaces()
    ensures
        chars::is_space(' '),
        chars::is_space('\n'),
        !chars::is_space('>'),
{
    reveal(chars::is_space);
}

/// The words of a line are words.
proof fn lemma_words_of(s: Seq<char>, a: int)
    requires
        unquoted(s),
        0 <= a <= s.len(),
    ensures
        words(strs::words_from(s, a)),
    decreases s.len() - a,
{
    let f = chars::space_fn();
    let g = strs::ink_fn();
    text::lemma_skip_fwd(s, a, f);
    let i = text::skip_fwd(s, a, f);
    text::lemma_skip_fwd(s, i, g);
    let j = text::skip_fwd(s, i, g);
    if i < s.len() {
        assert(!f(s[i]));
        if j == i {
            assert(!g(s[i]));
        }
        lemma_words_of(s, j);
        let w = s.subrange(i, j);
        assert forall|k: int| 0 <= k < w.len() implies !chars::is_space(#[trigger] w[k]) && w[k]
            != '>' by {
            assert(w[k] == s[i + k]);
            assert(g(s[i + k]));
        }
        let r = strs::words_from(s, j);
        assert forall|k: int| 0 <= k < (seq![w] + r).len() implies word(
            #[trigger] (seq![w] + r)[k],
        ) by {
            if k > 0 {
                assert((seq![w] + r)[k] == r[k - 1]);
            }
        }
    }
}

/// A line that is not blank has a word.
proof fn lemma_some_word(s: Seq<char>)
    requires
        !chars::blank(s),
    ensures
        strs::words_from(s, 0).len() > 0,
{
    let f = chars::space_fn();
    text::lemma_skip_fwd(s, 0, f);
    let i = text::skip_fwd(s, 0, f);
    if i >= s.len() {
        assert forall|k: int| 0 <= k < s.len() implies chars::is_space(#[trigger] s[k]) by {
            assert(f(s[k]));
        }
        assert(chars::blank(s));
    }
    text::lemma_skip_fwd(s, i, strs::ink_fn());
    assert(!f(s[i]));
    assert(strs::ink_fn()(s[i]));
}

/// A word after a line is its last word.
proof fn lemma_word_after(s: Seq<char>, w: Seq<char>, a: int)
    requires
        0 <= a <= s.len(),
        word(w),
    ensures
        strs::words_from(s + " "@ + w, a) == strs::words_from(s, a).push(w),
    decreases s.len() - a,
{
    reveal_strlit(" ");
    lemma_spaces();
    let f = chars::space_fn();
    let g = strs::ink_fn();
    let u = s + " "@ + w;
    let n = s.len() as int;
    assert(u[n] == ' ');
    text::lemma_skip_fwd(s, a, f);
    let i = text::skip_fwd(s, a, f);
    assert forall|k: int| a <= k < i implies f(#[trigger] u[k]) by {
        assert(u[k] == s[k]);
        assert(f(s[k]));
    }
    if i < n {
        assert(u[i] == s[i]);
        lemma_skip(u, a, f, i);
        text::lemma_skip_fwd(s, i, g);
        let j = text::skip_fwd(s, i, g);
        assert(!f(s[i]));
        assert(g(s[i]));
        assert(j > i) by {
            if j == i {
                assert(!g(s[i]));
            }
        }
        assert forall|k: int| i <= k < j implies g(#[trigger] u[k]) by {
            assert(u[k] == s[k]);
            assert(g(s[k]));
        }
        assert(!g(u[j])) by {
            if j < n {
                assert(u[j] == s[j]);
            }
        }
        lemma_skip(u, i, g, j);
        lemma_word_after(s, w, j);
        assert(u.subrange(i, j) =~= s.subrange(i, j));
        assert(strs::words_from(u, a) =~= strs::words_from(s, a).push(w));
    } else {
        assert(word(w));
        assert(u[n + 1] == w[0]);
        assert(f(u[n]));
        assert(!f(u[n + 1]));
        lemma_skip(u, a, f, n + 1);
        assert forall|k: int| n + 1 <= k < u.len() implies g(#[trigger] u[k]) by {
            assert(u[k] == w[k - n - 1]);
        }
        lemma_skip(u, n + 1, g, u.len() as int);
        assert(u.subrange(n + 1, u.len() as int) =~= w);
        assert(text::skip_fwd(u, u.len() as int, f) == u.len());
        assert(strs::words_from(u, u.len() as int) =~= Seq::empty());
        assert(strs::words_from(s, a) =~= Seq::empty());
        assert(strs::words_from(u, a) =~= strs::words_from(s, a).push(w));
    }
}

proof fn lemma_lone_word(w: Seq<char>)
    requires
        word(w),
    ensures
        strs::words_from(w, 0) == seq![w],
{
    let g = strs::ink_fn();
    lemma_skip(w, 0, chars::space_fn(), 0);
    lemma_skip(w, 0, g, w.len() as int);
    assert(w.subrange(0, w.len() as int) =~= w);
    assert(text::skip_fwd(w, w.len() as int, chars::space_fn()) == w.len());
    assert(strs::words_from(w, w.len() as int) =~= Seq::empty());
    assert(strs::words_from(w, 0) =~= seq![w]);
}

proof fn lemma_words_in_add(a: Seq<Seq<char>>, b: Seq<Seq<char>>)
    ensures
        words_in(a + b) == words_in(a) + words_in(b),
        pieces_in(a + b) == pieces_in(a) + pieces_in(b),
    decreases b.len(),
{
    if b.len() == 0 {
        assert(a + b =~= a);
        assert(words_in(a) + words_in(b) =~= words_in(a));
        assert(pieces_in(a) + pieces_in(b) =~= pieces_in(a));
    } else {
        lemma_words_in_add(a, b.drop_last());
        assert((a + b).drop_last() =~= a + b.drop_last());
        assert(words_in(a + b) =~= words_in(a) + words_in(b));
        assert(pieces_in(a + b) =~= pieces_in(a) + pieces_in(b));
    }
}

proof fn lemma_one_in(l: Seq<char>)
    ensures
        words_in(seq![l]) == strs::words_from(l, 0),
{
    let e = Seq::<Seq<char>>::empty();
    assert(seq![l].drop_last() =~= e);
    assert(words_in(e) =~= e);
    assert(words_in(seq![l]) =~= strs::words_from(l, 0));
}

/// What filling makes of words: lines that hold just these words.
proof fn lemma_fill(ws: Seq<Seq<char>>, w: int, i: int, cur: Seq<char>, cw: Seq<Seq<char>>)
    requires
        words(ws),
        0 <= i <= ws.len(),
        if cur.len() == 0 {
            cw.len() == 0
        } else {
            inked(cur) && strs::words_from(cur, 0) == cw
        },
    ensures
        words_in(layout::fill(ws, w, i, cur)) == cw + ws.skip(i),
        forall|k: int|
            0 <= k < layout::fill(ws, w, i, cur).len() ==> inked(
                #[trigger] layout::fill(ws, w, i, cur)[k],
            ),
        cur.len() > 0 || i < ws.len() ==> layout::fill(ws, w, i, cur).len() > 0,
    decreases ws.len() - i,
{
    let r = layout::fill(ws, w, i, cur);
    lemma_one_in(cur);
    if i == ws.len() {
        assert(ws.skip(i) =~= Seq::empty());
        if cur.len() == 0 {
            assert(words_in(r) =~= cw + ws.skip(i));
        } else {
            assert(words_in(r) =~= cw + ws.skip(i));
        }
    } else {
        let x = ws[i];
        assert(word(x));
        assert(inked(x)) by {
            lemma_spaces();
        }
        lemma_lone_word(x);
        assert(ws.skip(i) =~= seq![x] + ws.skip(i + 1));
        if cur.len() == 0 {
            lemma_fill(ws, w, i + 1, x, seq![x]);
            assert(cw + ws.skip(i) =~= seq![x] + ws.skip(i + 1));
        } else if cur.len() + 1 + x.len() <= w {
            reveal_strlit(" ");
            lemma_word_after(cur, x, 0);
            let more = cur + " "@ + x;
            assert(more[0] == cur[0] && more.last() == x.last());
            assert(inked(more)) by {
                assert forall|k: int| 0 <= k < more.len() implies #[trigger] more[k] != '>'
                    && more[k] != '\n' by {
                    lemma_spaces();
                    if k < cur.len() {
                        assert(more[k] == cur[k]);
                    } else if k > cur.len() {
                        assert(more[k] == x[k - cur.len() - 1]);
                    }
                }
            }
            lemma_fill(ws, w, i + 1, more, cw.push(x));
            assert(cw.push(x) + ws.skip(i + 1) =~= cw + ws.skip(i));
        } else {
            lemma_fill(ws, w, i + 1, x, seq![x]);
            let rest = layout::fill(ws, w, i + 1, x);
            lemma_words_in_add(seq![cur], rest);
            assert(cw + (seq![x] + ws.skip(i + 1)) =~= cw + ws.skip(i));
            assert forall|k: int| 0 <= k < r.len() implies inked(#[trigger] r[k]) by {
                if k > 0 {
                    assert(r[k] == rest[k - 1]);
                }
            }
        }
    }
}

proof fn lemma_inked(l: Seq<char>)
    requires
        inked(l),
    ensures
        !chars::blank(l),
        unquoted(l),
{
    assert(!chars::is_space(l[0]));
}

proof fn lemma_para_end(ls: Seq<Seq<char>>, i: int)
    requires
        all_unquoted(ls),
        0 <= i <= ls.len(),
    ensures
        ({
            let j = layout::para_end(ls, Seq::empty(), i);
            &&& i <= j <= ls.len()
            &&& i < ls.len() && !chars::blank(ls[i]) ==> i < j
            &&& j < ls.len() ==> chars::blank(ls[j])
            &&& forall|k: int| i <= k < j ==> !chars::blank(#[trigger] ls[k])
        }),
    decreases ls.len() - i,
{
    if i < ls.len() {
        assert(unquoted(ls[i]));
        lemma_marks(ls[i]);
        if !chars::blank(ls[i]) {
            lemma_para_end(ls, i + 1);
        }
    }
}

proof fn lemma_para_words(ls: Seq<Seq<char>>, i: int, j: int)
    requires
        all_unquoted(ls),
        0 <= i <= j <= ls.len(),
    ensures
        layout::para_words(ls, i, j) == words_in(ls.subrange(i, j)),
        words(layout::para_words(ls, i, j)),
    decreases j - i,
{
    if i < j {
        lemma_para_words(ls, i, j - 1);
        assert(unquoted(ls[j - 1]));
        lemma_marks(ls[j - 1]);
        lemma_words_of(ls[j - 1], 0);
        let v = ls.subrange(i, j);
        assert(v.drop_last() =~= ls.subrange(i, j - 1));
        let a = layout::para_words(ls, i, j - 1);
        let b = strs::words_from(ls[j - 1], 0);
        assert forall|k: int| 0 <= k < (a + b).len() implies word(#[trigger] (a + b)[k]) by {
            if k < a.len() {
                assert((a + b)[k] == a[k]);
            } else {
                assert((a + b)[k] == b[k - a.len()]);
            }
        }
    } else {
        assert(ls.subrange(i, j) =~= Seq::empty());
    }
}

/// What becomes of the lines from `i` on.
proof fn lemma_relined(ls: Seq<Seq<char>>, w: int, i: int)
    requires
        0 <= w,
        all_unquoted(ls),
        0 <= i <= ls.len(),
    ensures
        all_unquoted(relined(ls, w, i)),
        i < ls.len() ==> relined(ls, w, i).len() > 0,
        i < ls.len() && chars::blank(ls[i]) ==> relined(ls, w, i)[0] == ls[i],
        i < ls.len() && ls.last().len() > 0 ==> relined(ls, w, i).last().len() > 0,
        words_in(relined(ls, w, i)) == words_in(ls.skip(i)),
        pieces_in(relined(ls, w, i)) == pieces_in(ls.skip(i)),
        forall|k: int|
            0 <= k < relined(ls, w, i).len() ==> chars::blank(#[trigger] relined(ls, w, i)[k])
                || relined(ls, w, i)[k].len() <= w || word(relined(ls, w, i)[k]),
        layout::body_width(w, Seq::empty()) == w ==> layout::refilled(ls, w, i)
            == lines::stacked(relined(ls, w, i)),
    decreases ls.len() - i,
{
    let r = relined(ls, w, i);
    if i == ls.len() {
        assert(ls.skip(i) =~= Seq::empty());
        assert(r =~= Seq::empty());
        assert(lines::stacked(r) =~= Seq::empty());
    } else if chars::blank(ls[i]) {
        lemma_relined(ls, w, i + 1);
        let rest = relined(ls, w, i + 1);
        assert(ls.skip(i) =~= seq![ls[i]] + ls.skip(i + 1));
        lemma_words_in_add(seq![ls[i]], rest);
        lemma_words_in_add(seq![ls[i]], ls.skip(i + 1));
        assert(unquoted(ls[i]));
        assert forall|k: int| 0 <= k < r.len() implies unquoted(#[trigger] r[k]) && (chars::blank(
            r[k],
        ) || r[k].len() <= w || word(r[k])) by {
            if k > 0 {
                assert(r[k] == rest[k - 1]);
            }
        }
        if i + 1 == ls.len() {
            assert(rest =~= Seq::empty());
            assert(r =~= seq![ls[i]]);
            assert(ls.last() == ls[i]);
        } else {
            assert(r.last() == rest.last());
        }
        reveal_strlit("\n");
        assert("\n"@ =~= seq!['\n']);
        lines::lemma_stacked_add(seq![ls[i]], rest);
        lemma_stacked_one(ls[i]);
        assert(ls[i] + "\n"@ =~= ls[i].push('\n'));
    } else {
        lemma_para_end(ls, i);
        let j = layout::para_end(ls, Seq::empty(), i);
        lemma_para_words(ls, i, j);
        let ws = layout::para_words(ls, i, j);
        assert(ws.len() > 0) by {
            lemma_some_word(ls[i]);
            let v = ls.subrange(i, j);
            assert(v =~= seq![ls[i]] + ls.subrange(i + 1, j));
            lemma_words_in_add(seq![ls[i]], ls.subrange(i + 1, j));
            lemma_one_in(ls[i]);
        }
        let f = layout::fill(ws, w, 0, Seq::empty());
        lemma_fill(ws, w, 0, Seq::empty(), Seq::empty());
        assert(Seq::<Seq<char>>::empty() + ws.skip(0) =~= ws);
        layout::law_filled_lines_fit(ws, w);
        lemma_relined(ls, w, j);
        let rest = relined(ls, w, j);
        assert(r == f + rest);
        assert(ls.skip(i) =~= ls.subrange(i, j) + ls.skip(j));
        lemma_words_in_add(f, rest);
        lemma_words_in_add(ls.subrange(i, j), ls.skip(j));
        assert forall|k: int| 0 <= k < f.len() implies !chars::blank(#[trigger] f[k]) by {
            lemma_inked(f[k]);
        }
        lemma_no_blanks(f);
        lemma_no_blanks(ls.subrange(i, j));
        assert forall|k: int| 0 <= k < r.len() implies unquoted(#[trigger] r[k]) && (chars::blank(
            r[k],
        ) || r[k].len() <= w || word(r[k])) by {
            if k < f.len() {
                assert(r[k] == f[k]);
                lemma_inked(f[k]);
                if f[k].len() > w {
                    assert(ws.contains(f[k]));
                    let m = choose|m: int| 0 <= m < ws.len() && ws[m] == f[k];
                    assert(word(ws[m]));
                }
            } else {
                assert(r[k] == rest[k - f.len()]);
            }
        }
        if j == ls.len() {
            assert(rest =~= Seq::empty());
            assert(r =~= f);
            assert(inked(f[f.len() - 1]));
        } else {
            assert(r.last() == rest.last());
        }
        lines::lemma_stacked_add(f, rest);
        lemma_with_marks(f, f.len() as int);
        assert(f.take(f.len() as int) =~= f);
        assert(unquoted(ls[i]));
        lemma_marks(ls[i]);
    }
}

/// Lines none of which is blank are made of words.
proof fn lemma_no_blanks(ls: Seq<Seq<char>>)
    requires
        forall|k: int| 0 <= k < ls.len() ==> !chars::blank(#[trigger] ls[k]),
    ensures
        pieces_in(ls) == as_pieces(words_in(ls)),
    decreases ls.len(),
{
    if ls.len() > 0 {
        let m = ls.drop_last();
        assert(!chars::blank(ls[ls.len() - 1]));
        assert forall|k: int| 0 <= k < m.len() implies !chars::blank(#[trigger] m[k]) by {
            assert(m[k] == ls[k]);
        }
        lemma_no_blanks(m);
        assert(pieces_in(ls) =~= as_pieces(words_in(ls)));
    } else {
        assert(pieces_in(ls) =~= as_pieces(words_in(ls)));
    }
}

proof fn lemma_stacked_one(l: Seq<char>)
    ensures
        lines::stacked(seq![l]) == l.push('\n'),
{
    let e = Seq::<Seq<char>>::empty();
    assert(seq![l].drop_last() =~= e);
    assert(lines::stacked(e) =~= Seq::empty());
    assert(lines::stacked(seq![l]) =~= l.push('\n'));
}

proof fn lemma_with_marks(f: Seq<Seq<char>>, n: int)
    requires
        0 <= n <= f.len(),
    ensures
        layout::with_marks(f, Seq::empty(), n) == lines::stacked(f.take(n)),
    decreases n,
{
    if n > 0 {
        reveal_strlit("\n");
        assert("\n"@ =~= seq!['\n']);
        lemma_with_marks(f, n - 1);
        assert(f.take(n).drop_last() =~= f.take(n - 1));
        assert(layout::with_marks(f, Seq::empty(), n) =~= lines::stacked(f.take(n)));
    } else {
        assert(f.take(0) =~= Seq::empty());
        assert(lines::stacked(f.take(0)) =~= Seq::empty());
    }
}

proof fn lemma_end_after(x: Seq<Seq<char>>, y: Seq<Seq<char>>, k: int)
    requires
        0 <= k <= y.len(),
    ensures
        layout::para_end(x + y, Seq::empty(), x.len() + k) == x.len() + layout::para_end(
            y,
            Seq::empty(),
            k,
        ),
    decreases y.len() - k,
{
    if k < y.len() {
        assert((x + y)[x.len() + k] == y[k]);
        if !chars::blank(y[k]) && layout::quote_marks(y[k]) == Seq::<char>::empty() {
            lemma_end_after(x, y, k + 1);
        }
    }
}

proof fn lemma_words_after(x: Seq<Seq<char>>, y: Seq<Seq<char>>, a: int, b: int)
    requires
        0 <= a,
        b <= y.len(),
    ensures
        layout::para_words(x + y, x.len() + a, x.len() + b) == layout::para_words(y, a, b),
    decreases b - a,
{
    if a < b {
        lemma_words_after(x, y, a, b - 1);
        assert((x + y)[x.len() + b - 1] == y[b - 1]);
    }
}

/// Lines before them do not matter to lines.
proof fn lemma_relined_after(x: Seq<Seq<char>>, y: Seq<Seq<char>>, w: int, k: int)
    requires
        0 <= k <= y.len(),
        all_unquoted(y),
    ensures
        relined(x + y, w, x.len() + k) == relined(y, w, k),
    decreases y.len() - k,
{
    if k < y.len() {
        assert((x + y)[x.len() + k] == y[k]);
        if chars::blank(y[k]) {
            lemma_relined_after(x, y, w, k + 1);
        } else {
            lemma_end_after(x, y, k);
            lemma_para_end(y, k);
            let j = layout::para_end(y, Seq::empty(), k);
            lemma_words_after(x, y, k, j);
            lemma_relined_after(x, y, w, j);
        }
    }
}

proof fn lemma_end_of_filled(f: Seq<Seq<char>>, rest: Seq<Seq<char>>, k: int)
    requires
        forall|i: int| 0 <= i < f.len() ==> inked(#[trigger] f[i]),
        rest.len() > 0 ==> chars::blank(rest[0]),
        0 <= k <= f.len(),
    ensures
        layout::para_end(f + rest, Seq::empty(), k) == f.len(),
    decreases f.len() - k,
{
    if k < f.len() {
        assert((f + rest)[k] == f[k]);
        lemma_inked(f[k]);
        lemma_marks(f[k]);
        lemma_end_of_filled(f, rest, k + 1);
    } else if rest.len() > 0 {
        assert((f + rest)[k] == rest[0]);
    }
}

/// Lines whose paragraphs are filled stay as they are.
proof fn lemma_relined_again(ls: Seq<Seq<char>>, w: int, i: int)
    requires
        0 <= w,
        all_unquoted(ls),
        0 <= i <= ls.len(),
    ensures
        relined(relined(ls, w, i), w, 0) == relined(ls, w, i),
    decreases ls.len() - i,
{
    let r = relined(ls, w, i);
    if i == ls.len() {
        assert(r =~= Seq::empty());
    } else if chars::blank(ls[i]) {
        lemma_relined_again(ls, w, i + 1);
        let rest = relined(ls, w, i + 1);
        lemma_relined(ls, w, i + 1);
        lemma_relined_after(seq![ls[i]], rest, w, 0);
        assert(r == seq![ls[i]] + rest);
        assert(r[0] == ls[i]);
    } else {
        lemma_para_end(ls, i);
        let j = layout::para_end(ls, Seq::empty(), i);
        lemma_relined(ls, w, i);
        lemma_relined(ls, w, j);
        lemma_relined_again(ls, w, j);
        let ws = layout::para_words(ls, i, j);
        lemma_para_words(ls, i, j);
        let f = layout::fill(ws, w, 0, Seq::empty());
        lemma_fill(ws, w, 0, Seq::empty(), Seq::empty());
        assert(Seq::<Seq<char>>::empty() + ws.skip(0) =~= ws);
        let rest = relined(ls, w, j);
        assert(r == f + rest);
        assert(ws.len() > 0) by {
            lemma_some_word(ls[i]);
            let v = ls.subrange(i, j);
            assert(v =~= seq![ls[i]] + ls.subrange(i + 1, j));
            lemma_words_in_add(seq![ls[i]], ls.subrange(i + 1, j));
            lemma_one_in(ls[i]);
        }
        assert(f.len() > 0);
        lemma_inked(f[0]);
        assert(r[0] == f[0]);
        lemma_end_of_filled(f, rest, 0);
        lemma_para_words(r, 0, f.len() as int);
        assert(r.subrange(0, f.len() as int) =~= f);
        lemma_relined_after(f, rest, w, 0);
    }
}

// ── From text to lines and back ─────────────────────────────────────────

proof fn lemma_split_after(x: Seq<char>, y: Seq<char>, k: int)
    requires
        0 <= k <= y.len(),
    ensures
        strs::split_from(x + y, '\n', x.len() + k) == strs::split_from(y, '\n', k),
    decreases y.len() - k,
{
    let f = strs::other_than('\n');
    text::lemma_skip_fwd(y, k, f);
    let j = text::skip_fwd(y, k, f);
    let u = x + y;
    assert forall|i: int| x.len() + k <= i < x.len() + j implies f(#[trigger] u[i]) by {
        assert(u[i] == y[i - x.len()]);
        assert(f(y[i - x.len()]));
    }
    if j < y.len() {
        assert(u[x.len() + j] == y[j]);
    }
    lemma_skip(u, x.len() + k, f, x.len() + j);
    if j < y.len() {
        lemma_split_after(x, y, j + 1);
        assert(u.subrange(x.len() + k, x.len() + j) =~= y.subrange(k, j));
    } else {
        assert(u.subrange(x.len() + k, u.len() as int) =~= y.subrange(k, y.len() as int));
    }
}

/// Stacked lines are split into these lines.
proof fn lemma_split_stacked(r: Seq<Seq<char>>)
    requires
        r.len() > 0,
        all_unquoted(r),
    ensures
        lines::stacked(r).len() > 0,
        lines::stacked(r).last() == '\n',
        strs::split_from(lines::stacked(r).drop_last(), '\n', 0) == r,
    decreases r.len(),
{
    let f = strs::other_than('\n');
    let l = r[0];
    assert(unquoted(r[0]));
    let s = lines::stacked(r).drop_last();
    if r.len() == 1 {
        assert(r =~= seq![l]);
        lemma_stacked_one(l);
        assert(s =~= l);
        assert forall|i: int| 0 <= i < l.len() implies f(#[trigger] l[i]) by {
        }
        lemma_skip(l, 0, f, l.len() as int);
        assert(l.subrange(0, l.len() as int) =~= l);
    } else {
        let m = r.skip(1);
        assert forall|k: int| 0 <= k < m.len() implies unquoted(#[trigger] m[k]) by {
            assert(m[k] == r[k + 1]);
        }
        lemma_split_stacked(m);
        assert(r =~= seq![l] + m);
        lines::lemma_stacked_add(seq![l], m);
        lemma_stacked_one(l);
        let y = lines::stacked(m).drop_last();
        let x = l.push('\n');
        assert(s =~= x + y);
        assert forall|i: int| 0 <= i < l.len() implies f(#[trigger] s[i]) by {
            assert(s[i] == l[i]);
        }
        assert(s[l.len() as int] == '\n');
        lemma_skip(s, 0, f, l.len() as int);
        lemma_split_after(x, y, 0);
        assert(s.subrange(0, l.len() as int) =~= l);
    }
}

proof fn lemma_split(s: Seq<char>, a: int)
    requires
        0 <= a <= s.len(),
        forall|i: int| 0 <= i < s.len() ==> s[i] != '>',
    ensures
        strs::split_from(s, '\n', a).len() > 0,
        all_unquoted(strs::split_from(s, '\n', a)),
        a < s.len() && s.last() != '\n' ==> strs::split_from(s, '\n', a).last().len() > 0,
    decreases s.len() - a,
{
    let f = strs::other_than('\n');
    text::lemma_skip_fwd(s, a, f);
    let j = text::skip_fwd(s, a, f);
    let r = strs::split_from(s, '\n', a);
    let p = s.subrange(a, j);
    assert forall|i: int| 0 <= i < p.len() implies #[trigger] p[i] != '>' && p[i] != '\n' by {
        assert(p[i] == s[a + i]);
        assert(f(s[a + i]));
    }
    if j < s.len() {
        lemma_split(s, j + 1);
        let rest = strs::split_from(s, '\n', j + 1);
        assert forall|k: int| 0 <= k < r.len() implies unquoted(#[trigger] r[k]) by {
            if k > 0 {
                assert(r[k] == rest[k - 1]);
            }
        }
        assert(r.last() == rest.last());
        if j + 1 == s.len() {
            assert(s.last() == '\n');
        }
    } else {
        assert(r[0] == p);
    }
}

/// The lines of a text, the last one with or without its line feed.
pub open spec fn lines_of(t: Seq<char>) -> Seq<Seq<char>> {
    strs::split_from(
        if t.len() > 0 && t.last() == '\n' {
            t.drop_last()
        } else {
            t
        },
        '\n',
        0,
    )
}

/// The words before a line feed and those after it are the words of a text.
proof fn lemma_words_split(s: Seq<char>, a: int, b: int, j: int)
    requires
        0 <= a <= b <= j < s.len(),
        chars::is_space(s[j]),
    ensures
        strs::words_from(s, b) == strs::words_from(s.subrange(a, j), b - a) + strs::words_from(
            s,
            j + 1,
        ),
    decreases j - b,
{
    let f = chars::space_fn();
    let g = strs::ink_fn();
    let p = s.subrange(a, j);
    text::lemma_skip_fwd(p, b - a, f);
    let i = text::skip_fwd(p, b - a, f) + a;
    assert forall|k: int| b <= k < i implies f(#[trigger] s[k]) by {
        assert(s[k] == p[k - a]);
        assert(f(p[k - a]));
    }
    if i < j {
        assert(s[i] == p[i - a]);
        assert(!f(p[i - a]));
        lemma_skip(s, b, f, i);
        text::lemma_skip_fwd(p, i - a, g);
        let e = text::skip_fwd(p, i - a, g) + a;
        assert(g(p[i - a]));
        assert(e > i) by {
            if e == i {
                assert(!g(p[i - a]));
            }
        }
        assert forall|k: int| i <= k < e implies g(#[trigger] s[k]) by {
            assert(s[k] == p[k - a]);
            assert(g(p[k - a]));
        }
        assert(!g(s[e])) by {
            if e < j {
                assert(s[e] == p[e - a]);
            }
        }
        lemma_skip(s, i, g, e);
        lemma_words_split(s, a, e, j);
        assert(s.subrange(i, e) =~= p.subrange(i - a, e - a));
        assert(strs::words_from(s, b) =~= strs::words_from(p, b - a) + strs::words_from(s, j + 1));
    } else {
        assert(f(s[j]));
        text::lemma_skip_fwd(s, j + 1, f);
        let n = text::skip_fwd(s, j + 1, f);
        assert forall|k: int| b <= k < n implies f(#[trigger] s[k]) by {
            if k > j {
                assert(f(s[k]));
            }
        }
        lemma_skip(s, b, f, n);
        text::lemma_skip_fwd(s, n, g);
        let e = text::skip_fwd(s, n, g);
        if n < s.len() {
            assert(g(s[n]));
            assert(e > n) by {
                if e == n {
                    assert(!g(s[n]));
                }
            }
        }
        assert(strs::words_from(p, b - a) =~= Seq::empty());
        assert(strs::words_from(s, b) =~= strs::words_from(s, j + 1));
        assert(strs::words_from(s, b) =~= strs::words_from(p, b - a) + strs::words_from(s, j + 1));
    }
}

/// The words of a text are those of its lines.
proof fn lemma_words_of_lines(s: Seq<char>, a: int)
    requires
        0 <= a <= s.len(),
    ensures
        words_in(strs::split_from(s, '\n', a)) == strs::words_from(s, a),
    decreases s.len() - a,
{
    lemma_spaces();
    let f = strs::other_than('\n');
    text::lemma_skip_fwd(s, a, f);
    let j = text::skip_fwd(s, a, f);
    let p = s.subrange(a, j);
    if j < s.len() {
        let rest = strs::split_from(s, '\n', j + 1);
        assert(!f(s[j]));
        lemma_words_split(s, a, a, j);
        lemma_words_of_lines(s, j + 1);
        lemma_words_in_add(seq![p], rest);
        lemma_one_in(p);
    } else {
        lemma_one_in(p);
        lemma_words_to_end(s, a, a);
        assert(strs::split_from(s, '\n', a) =~= seq![p]);
    }
}

proof fn lemma_words_to_end(s: Seq<char>, a: int, b: int)
    requires
        0 <= a <= b <= s.len(),
    ensures
        strs::words_from(s, b) == strs::words_from(s.subrange(a, s.len() as int), b - a),
    decreases s.len() - b,
{
    let f = chars::space_fn();
    let g = strs::ink_fn();
    let p = s.subrange(a, s.len() as int);
    text::lemma_skip_fwd(p, b - a, f);
    let i = text::skip_fwd(p, b - a, f) + a;
    assert forall|k: int| b <= k < i implies f(#[trigger] s[k]) by {
        assert(s[k] == p[k - a]);
        assert(f(p[k - a]));
    }
    if i < s.len() {
        assert(s[i] == p[i - a]);
    }
    lemma_skip(s, b, f, i);
    text::lemma_skip_fwd(p, i - a, g);
    let e = text::skip_fwd(p, i - a, g) + a;
    assert forall|k: int| i <= k < e implies g(#[trigger] s[k]) by {
        assert(s[k] == p[k - a]);
        assert(g(p[k - a]));
    }
    if e < s.len() {
        assert(s[e] == p[e - a]);
    }
    lemma_skip(s, i, g, e);
    if i < s.len() {
        assert(!f(p[i - a]));
        assert(e > i) by {
            if e == i {
                assert(!g(p[i - a]));
            }
        }
        lemma_words_to_end(s, a, e);
        assert(s.subrange(i, e) =~= p.subrange(i - a, e - a));
    }
}

/// A line feed at the end of a text adds no word.
proof fn lemma_words_whole(t: Seq<char>)
    ensures
        words_in(lines_of(t)) == strs::words_from(t, 0),
{
    if t.len() > 0 && t.last() == '\n' {
        let s = t.drop_last();
        lemma_spaces();
        lemma_words_split(t, 0, 0, t.len() - 1);
        assert(t.subrange(0, t.len() - 1) =~= s);
        lemma_words_of_lines(s, 0);
        assert(text::skip_fwd(t, t.len() as int, chars::space_fn()) == t.len());
        assert(strs::words_from(t, t.len() as int) =~= Seq::empty());
        assert(strs::words_from(t, 0) =~= strs::words_from(s, 0));
    } else {
        lemma_words_of_lines(t, 0);
    }
}

/// Text without quote marks keeps its words and their order when it is
/// reformatted, its blank lines as they are and in their places among the
/// words, and how it ends. No line becomes longer than the width, unless it is
/// a single word, and a text that is reformatted already stays as it is.
pub proof fn law_reformat(t: Seq<char>, width: int)
    requires
        forall|i: int| 0 <= i < t.len() ==> t[i] != '>',
    ensures
        ({
            let w = if width > 20 {
                width
            } else {
                20
            };
            let r = layout::reformatted(t, width);
            &&& strs::words_from(r, 0) == strs::words_from(t, 0)
            &&& pieces_in(lines_of(r)) == pieces_in(lines_of(t))
            &&& (r.len() > 0 && r.last() == '\n') == (t.len() > 0 && t.last() == '\n')
            &&& forall|k: int|
                0 <= k < lines_of(r).len() ==> chars::blank(#[trigger] lines_of(r)[k])
                    || lines_of(r)[k].len() <= w || word(lines_of(r)[k])
            &&& layout::reformatted(r, width) == r
        }),
{
    let w = if width > 20 {
        width
    } else {
        20
    };
    let nl = t.len() > 0 && t.last() == '\n';
    let body = if nl {
        t.drop_last()
    } else {
        t
    };
    let ls = lines_of(t);
    lemma_split(body, 0);
    lemma_width(ls, width, 0);
    lemma_relined(ls, w, 0);
    assert(ls.skip(0) =~= ls);
    let q = relined(ls, w, 0);
    let out = lines::stacked(q);
    lemma_split_stacked(q);
    assert(layout::refilled(ls, width, 0) == out);
    let r = layout::reformatted(t, width);
    assert(r == if nl {
        out
    } else {
        out.drop_last()
    });
    if !nl {
        assert(r.len() > 0 ==> r.last() != '\n') by {
            lemma_last_of(q);
            if t.len() > 0 {
                assert(unquoted(q[q.len() - 1]));
            } else {
                assert(t =~= Seq::empty());
                lemma_empty(ls, w);
            }
        }
    }
    assert(lines_of(r) == q);
    lemma_words_whole(t);
    lemma_words_whole(r);
    lemma_relined_again(ls, w, 0);
    lemma_width(q, width, 0);
    lemma_relined(q, w, 0);
    assert(layout::refilled(q, width, 0) == out);
}

/// The empty text has one empty line.
proof fn lemma_empty(ls: Seq<Seq<char>>, w: int)
    requires
        ls == lines_of(Seq::empty()),
    ensures
        lines::stacked(relined(ls, w, 0)).drop_last().len() == 0,
{
    let e = Seq::<char>::empty();
    assert(e.subrange(0, 0) =~= e);
    assert(text::skip_fwd(e, 0, strs::other_than('\n')) == 0);
    assert(ls =~= seq![e]);
    assert(chars::blank(e));
    assert(relined(ls, w, 1) =~= Seq::empty());
    assert(relined(ls, w, 0) =~= seq![e]);
    lemma_stacked_one(e);
}

/// The last character before the last line feed is that of the last line.
proof fn lemma_last_of(q: Seq<Seq<char>>)
    requires
        q.len() > 0,
    ensures
        q.last().len() > 0 ==> lines::stacked(q).drop_last().last() == q.last().last(),
{
    let l = q.last();
    assert(lines::stacked(q) == lines::stacked(q.drop_last()) + l.push('\n'));
    if l.len() > 0 {
        let s = lines::stacked(q);
        assert(s[s.len() - 2] == l[l.len() - 1]);
    }
}

/// Widths of 20 and below fill alike.
proof fn lemma_width(ls: Seq<Seq<char>>, width: int, i: int)
    requires
        all_unquoted(ls),
        0 <= i <= ls.len(),
    ensures
        ({
            let w = if width > 20 {
                width
            } else {
                20
            };
            layout::refilled(ls, width, i) == layout::refilled(ls, w, i)
        }),
    decreases ls.len() - i,
{
    let w = if width > 20 {
        width
    } else {
        20
    };
    if i < ls.len() {
        if chars::blank(ls[i]) {
            lemma_width(ls, width, i + 1);
        } else {
            assert(unquoted(ls[i]));
            lemma_marks(ls[i]);
            lemma_para_end(ls, i);
            lemma_width(ls, width, layout::para_end(ls, Seq::empty(), i));
        }
    }
}

} // verus!
